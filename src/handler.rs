//! Handlers built from closures, and typed access to pipeline data.
use crate::http::{Request, Response};
use crate::pipeline::{AddData, Commands, Controller, MiddlewareHandler, PipelineData};
use std::marker::PhantomData;
use std::sync::Arc;
use vstd::prelude::*;

verus! {

/// A piece of pipeline data, looked up by its type token.
pub struct Data<T> {
    pub data: Arc<T>,
    pub key: u64,
}

impl<T> Data<T> {
    /// The data bound to `key` in `pipeline`, if any.
    pub fn fetch(pipeline: &PipelineData<T>, key: u64) -> (r: Option<Self>)
        ensures
            r is Some <==> pipeline.data@.dom().contains(key),
            r matches Some(d) ==> d.key == key && *d.data == pipeline.data@[key],
    {
        match pipeline.get(key) {
            Some(data) => Some(Data { data, key }),
            None => None,
        }
    }

    /// The type token that the data was looked up by.
    pub fn get_type_id(&self) -> (r: u64)
        ensures
            r == self.key,
    {
        self.key
    }
}

/// A controller made of a closure and the type tokens it reads.
pub struct FunctionController<V, F: Fn(&PipelineData<V>) -> Response> {
    f: F,
    needs: Vec<u64>,
    marker: PhantomData<V>,
}

impl<V, F: Fn(&PipelineData<V>) -> Response> FunctionController<V, F> {
    #[verifier::type_invariant]
    spec fn callable(&self) -> bool {
        forall|p: &PipelineData<V>| #[trigger] self.f.requires((p,))
    }

    /// A controller that reads no data.
    pub fn new(f: F) -> (r: Self)
        requires
            forall|p: &PipelineData<V>| #[trigger] f.requires((p,)),
        ensures
            r.reads() == Seq::<u64>::empty(),
    {
        FunctionController { f, needs: Vec::new(), marker: PhantomData }
    }

    /// The type tokens that the controller reads.
    pub closed spec fn reads(&self) -> Seq<u64> {
        self.needs@
    }

    /// The closure that answers.
    pub closed spec fn closure(&self) -> F {
        self.f
    }

    /// The controller, declared to read the data of `key` as well.
    pub fn with_dependency(self, key: u64) -> (r: Self)
        ensures
            r.reads() == self.reads().push(key),
    {
        proof {
            use_type_invariant(&self);
        }
        let FunctionController { f, needs, marker } = self;
        let mut needs = needs;
        needs.push(key);
        FunctionController { f, needs, marker }
    }
}

impl<V, F: Fn(&PipelineData<V>) -> Response> Controller<V> for FunctionController<V, F> {
    open spec fn needs(&self) -> Seq<u64> {
        self.reads()
    }

    /// The closure, called on a state with that data and request, may
    /// return `response`.
    open spec fn responded(&self, data: Map<u64, V>, request: Request, response: Response) -> bool {
        exists|p: PipelineData<V>| p.data@ == data && p.request == request && #[trigger] self.closure().ensures((&p,), response)
    }

    fn dependencies(&self) -> (r: Vec<u64>) {
        copy_tokens(&self.needs)
    }

    fn handle(&self, pipeline: &PipelineData<V>) -> (r: Response) {
        proof {
            use_type_invariant(self);
        }
        let r = (self.f)(pipeline);
        assert(self.closure().ensures((&*pipeline,), r));
        r
    }
}

/// A middleware made of a closure and the type tokens it reads. The
/// closure returns its answer with the commands it queues.
#[verifier::reject_recursive_types(V)]
pub struct FunctionMiddleware<V, F: Fn(&PipelineData<V>) -> (Option<Response>, Commands<V>)> {
    f: F,
    needs: Vec<u64>,
    marker: PhantomData<V>,
}

impl<V, F: Fn(&PipelineData<V>) -> (Option<Response>, Commands<V>)> FunctionMiddleware<V, F> {
    #[verifier::type_invariant]
    spec fn callable(&self) -> bool {
        forall|p: &PipelineData<V>| #[trigger] self.f.requires((p,))
    }

    /// A middleware that reads no data.
    pub fn new(f: F) -> (r: Self)
        requires
            forall|p: &PipelineData<V>| #[trigger] f.requires((p,)),
        ensures
            r.reads() == Seq::<u64>::empty(),
    {
        FunctionMiddleware { f, needs: Vec::new(), marker: PhantomData }
    }

    /// The type tokens that the middleware reads.
    pub closed spec fn reads(&self) -> Seq<u64> {
        self.needs@
    }

    /// The closure that does the work of the middleware.
    pub closed spec fn closure(&self) -> F {
        self.f
    }

    /// The middleware, declared to read the data of `key` as well.
    pub fn with_dependency(self, key: u64) -> (r: Self)
        ensures
            r.reads() == self.reads().push(key),
    {
        proof {
            use_type_invariant(&self);
        }
        let FunctionMiddleware { f, needs, marker } = self;
        let mut needs = needs;
        needs.push(key);
        FunctionMiddleware { f, needs, marker }
    }
}

impl<V, F: Fn(&PipelineData<V>) -> (Option<Response>, Commands<V>)> MiddlewareHandler<V> for FunctionMiddleware<V, F> {
    open spec fn needs(&self) -> Seq<u64> {
        self.reads()
    }

    /// The closure, called on a state with that data and request, may
    /// return `answer` with the commands `queued`.
    open spec fn handled(&self, data: Map<u64, V>, request: Request, queued: Seq<AddData<V>>, answer: Option<Response>) -> bool {
        exists|p: PipelineData<V>, out: (Option<Response>, Commands<V>)|
            p.data@ == data && p.request == request && out.0 == answer && out.1@ == queued
                && #[trigger] self.closure().ensures((&p,), out)
    }

    fn dependencies(&self) -> (r: Vec<u64>) {
        copy_tokens(&self.needs)
    }

    fn handle(&self, pipeline: &PipelineData<V>, commands: &mut Commands<V>) -> (r: Option<Response>) {
        proof {
            use_type_invariant(self);
        }
        let out = (self.f)(pipeline);
        assert(self.closure().ensures((&*pipeline,), out));
        let (answer, queued) = out;
        *commands = queued;
        answer
    }
}

/// A copy of a list of type tokens.
fn copy_tokens(v: &Vec<u64>) -> (r: Vec<u64>)
    ensures
        r@ == v@,
{
    let mut r: Vec<u64> = Vec::new();
    let mut i: usize = 0;
    while i < v.len()
        invariant
            i <= v@.len(),
            r@ == v@.take(i as int),
        decreases v@.len() - i,
    {
        r.push(v[i]);
        i = i + 1;
        assert(r@ =~= v@.take(i as int));
    }
    assert(v@.take(i as int) =~= v@);
    r
}

} // verus!
