//! The request pipeline: middleware run in order, each one's deferred
//! commands applied after it returns, then the controller.
use crate::data::DataContainer;
use crate::http::{Request, Response};
use std::sync::Arc;
use vstd::prelude::*;

verus! {

/// A deferred command: bind `data` to the type token `key` in the data of
/// the pipeline.
pub struct AddData<V> {
    pub key: u64,
    pub data: V,
}

/// The data that results from applying `cmds`, in order, to `data`.
pub open spec fn apply_commands<V>(data: Map<u64, V>, cmds: Seq<AddData<V>>) -> Map<u64, V>
    decreases cmds.len(),
{
    if cmds.len() == 0 {
        data
    } else {
        apply_commands(data, cmds.drop_last()).insert(cmds.last().key, cmds.last().data)
    }
}

/// The state of one request in flight: the request and the data that
/// middleware and controller can read.
pub struct PipelineData<V> {
    pub request: Request,
    pub data: DataContainer<V>,
}

impl<V> PipelineData<V> {
    /// The state at the start of a request.
    pub fn new(request: Request, initial_data: DataContainer<V>) -> (r: Self)
        ensures
            r.request == request,
            r.data@ == initial_data@,
    {
        PipelineData { request, data: initial_data }
    }

    /// The value bound to the type token `key`, if any.
    pub fn get(&self, key: u64) -> (r: Option<Arc<V>>)
        ensures
            r is Some <==> self.data@.dom().contains(key),
            r is Some ==> *r->0 == self.data@[key],
    {
        self.data.get(key)
    }

    /// Binds `value` to the type token `key`.
    pub fn add_data(&mut self, key: u64, value: V)
        ensures
            final(self).data@ == old(self).data@.insert(key, value),
            final(self).request == old(self).request,
    {
        self.data.add(key, value);
    }
}

/// The commands that one middleware step queues. They are applied to the
/// state only once the step has returned.
pub struct Commands<V> {
    queue: Vec<AddData<V>>,
}

impl<V> Commands<V> {
    /// The queued commands, oldest first.
    pub closed spec fn view(&self) -> Seq<AddData<V>> {
        self.queue@
    }

    /// An empty queue.
    pub fn new() -> (r: Self)
        ensures
            r@ == Seq::<AddData<V>>::empty(),
    {
        Commands { queue: Vec::new() }
    }

    /// Queues `command`.
    pub fn add_command(&mut self, command: AddData<V>)
        ensures
            final(self)@ == old(self)@.push(command),
    {
        self.queue.push(command);
    }

    /// Queues a command that binds `data` to the type token `key`.
    pub fn add_data(&mut self, key: u64, data: V)
        ensures
            final(self)@ == old(self)@.push(AddData { key, data }),
    {
        self.add_command(AddData { key, data });
    }

    /// Applies the queued commands, oldest first, to `pipeline`, and empties
    /// the queue.
    pub fn execute(&mut self, pipeline: &mut PipelineData<V>)
        ensures
            final(pipeline).data@ == apply_commands(old(pipeline).data@, old(self)@),
            final(pipeline).request == old(pipeline).request,
            final(self)@ == Seq::<AddData<V>>::empty(),
    {
        let mut queue: Vec<AddData<V>> = Vec::new();
        std::mem::swap(&mut queue, &mut self.queue);
        let ghost cmds = queue@;
        let mut done: Ghost<Seq<AddData<V>>> = Ghost(Seq::empty());
        proof {
            assert(cmds =~= done@ + queue@);
        }
        while queue.len() > 0
            invariant
                cmds == done@ + queue@,
                pipeline.data@ == apply_commands(old(pipeline).data@, done@),
                pipeline.request == old(pipeline).request,
            decreases queue@.len(),
        {
            let c = queue.remove(0);
            let ghost c_v = c;
            proof {
                assert((done@.push(c_v)).drop_last() =~= done@);
                done@ = done@.push(c_v);
                assert(cmds =~= done@ + queue@);
            }
            pipeline.add_data(c.key, c.data);
        }
        proof {
            assert(cmds =~= done@);
        }
    }
}

/// The queue of a pipeline step, by the name its driver knows it by.
pub type CommandQueue<V> = Commands<V>;

/// Why a request could not be handled.
pub enum PipelineError {
    /// A middleware or the controller reads the data of this type token,
    /// and nothing before it provided that data.
    MissingData(u64),
}

/// A middleware step: it may queue commands and may answer the request
/// itself, which ends the pipeline.
pub trait MiddlewareHandler<V>: Sized {
    /// The type tokens whose data this middleware reads.
    spec fn needs(&self) -> Seq<u64>;

    /// What the middleware does: given the data and the request, it queues
    /// `queued` and answers `answer`.
    spec fn handled(&self, data: Map<u64, V>, request: Request, queued: Seq<AddData<V>>, answer: Option<Response>) -> bool;

    fn dependencies(&self) -> (r: Vec<u64>)
        ensures
            r@ == self.needs(),
    ;

    fn handle(&self, pipeline: &PipelineData<V>, commands: &mut Commands<V>) -> (r: Option<Response>)
        requires
            forall|i: int| 0 <= i < self.needs().len() ==> pipeline.data@.dom().contains(#[trigger] self.needs()[i]),
            old(commands)@ == Seq::<AddData<V>>::empty(),
        ensures
            self.handled(pipeline.data@, pipeline.request, final(commands)@, r),
    ;
}

/// The final handler of a pipeline.
pub trait Controller<V>: Sized {
    /// The type tokens whose data this controller reads.
    spec fn needs(&self) -> Seq<u64>;

    /// What the controller does: given the data and the request, it answers
    /// `response`.
    spec fn responded(&self, data: Map<u64, V>, request: Request, response: Response) -> bool;

    fn dependencies(&self) -> (r: Vec<u64>)
        ensures
            r@ == self.needs(),
    ;

    fn handle(&self, pipeline: &PipelineData<V>) -> (r: Response)
        requires
            forall|i: int| 0 <= i < self.needs().len() ==> pipeline.data@.dom().contains(#[trigger] self.needs()[i]),
        ensures
            self.responded(pipeline.data@, pipeline.request, r),
    ;
}

/// Every token of `needs` is bound in `data`.
pub open spec fn provided<V>(data: Map<u64, V>, needs: Seq<u64>) -> bool {
    forall|i: int| 0 <= i < needs.len() ==> data.dom().contains(#[trigger] needs[i])
}

/// The first token of `needs` that is not bound in `data`, if any.
fn first_missing<V>(data: &DataContainer<V>, needs: &Vec<u64>) -> (r: Option<u64>)
    ensures
        r is None <==> provided(data@, needs@),
        r matches Some(k) ==> needs@.contains(k) && !data@.dom().contains(k),
{
    let mut i: usize = 0;
    while i < needs.len()
        invariant
            0 <= i <= needs@.len(),
            forall|j: int| 0 <= j < i ==> data@.dom().contains(#[trigger] needs@[j]),
        decreases needs@.len() - i,
    {
        let k = needs[i];
        if !data.contains(k) {
            assert(needs@[i as int] == k);
            return Some(k);
        }
        i = i + 1;
    }
    None
}

/// One middleware step as it ran: the data it saw, the commands it queued,
/// and its answer.
pub type StepLog<V> = (Map<u64, V>, Seq<AddData<V>>, Option<Response>);

/// How a run of the middleware `ms` and the controller `c` on `request`
/// went, from the data `initial`: `log` holds the steps that ran, each with
/// what the middleware did given the data it saw, `data` the data after the
/// last of them, and `result` the outcome.
pub open spec fn ran<V, M: MiddlewareHandler<V>, C: Controller<V>>(
    ms: Seq<M>,
    c: C,
    request: Request,
    initial: Map<u64, V>,
    log: Seq<StepLog<V>>,
    data: Map<u64, V>,
    result: Result<Response, PipelineError>,
) -> bool {
    let n = log.len();
    &&& n <= ms.len()
    // each step sees the data that the commands of the step before it left
    &&& forall|i: int| 0 <= i < n ==> (#[trigger] log[i]).0 == (if i == 0 {
        initial
    } else {
        apply_commands(log[i - 1].0, log[i - 1].1)
    })
    // each step ran with all the data it reads
    &&& forall|i: int| 0 <= i < n ==> provided((#[trigger] log[i]).0, ms[i].needs())
    // each step is what its middleware did given that data
    &&& forall|i: int| 0 <= i < n ==> ms[i].handled((#[trigger] log[i]).0, request, log[i].1, log[i].2)
    // only the last step may have answered
    &&& forall|i: int| 0 <= i < n - 1 ==> (#[trigger] log[i]).2 is None
    // the commands of the last step are applied too
    &&& data == (if n == 0 {
        initial
    } else {
        apply_commands(log[n - 1].0, log[n - 1].1)
    })
    &&& if n > 0 && log[n - 1].2 is Some {
        // a middleware answered: nothing after it ran
        result == Ok::<Response, PipelineError>(log[n - 1].2->0)
    } else if n < ms.len() {
        // the next middleware reads data that is not there
        &&& !provided(data, ms[n as int].needs())
        &&& result matches Err(PipelineError::MissingData(k)) && ms[n as int].needs().contains(k) && !data.dom().contains(k)
    } else if !provided(data, c.needs()) {
        &&& result matches Err(PipelineError::MissingData(k)) && c.needs().contains(k) && !data.dom().contains(k)
    } else {
        // the controller ran on the data left by the last step, and its
        // answer is the result
        result matches Ok(resp) && c.responded(data, request, resp)
    }
}

/// A binding queued at index `j` of `cmds`, and not queued again after it,
/// stands once `cmds` are applied.
pub proof fn lemma_last_binding_stands<V>(data: Map<u64, V>, cmds: Seq<AddData<V>>, j: int)
    requires
        0 <= j < cmds.len(),
        forall|l: int| j < l < cmds.len() ==> (#[trigger] cmds[l]).key != cmds[j].key,
    ensures
        apply_commands(data, cmds).dom().contains(cmds[j].key),
        apply_commands(data, cmds)[cmds[j].key] == cmds[j].data,
    decreases cmds.len(),
{
    if j < cmds.len() - 1 {
        let front = cmds.drop_last();
        assert forall|l: int| j < l < front.len() implies (#[trigger] front[l]).key != front[j].key by {
            assert(front[l] == cmds[l]);
        }
        lemma_last_binding_stands(data, front, j);
        assert(cmds.last().key != cmds[j].key);
    }
}

/// Data that a middleware queues is seen by the step after it, or is in the
/// data the controller reads if it was the last step; the step itself saw
/// the data from before its own commands.
pub proof fn lemma_queued_data_visible_next<V, M: MiddlewareHandler<V>, C: Controller<V>>(
    ms: Seq<M>,
    c: C,
    request: Request,
    initial: Map<u64, V>,
    log: Seq<StepLog<V>>,
    data: Map<u64, V>,
    result: Result<Response, PipelineError>,
    i: int,
    j: int,
)
    requires
        ran(ms, c, request, initial, log, data, result),
        0 <= i < log.len(),
        0 <= j < log[i].1.len(),
        forall|l: int| j < l < log[i].1.len() ==> (#[trigger] log[i].1[l]).key != log[i].1[j].key,
    ensures
        log[i].0 == (if i == 0 {
            initial
        } else {
            apply_commands(log[i - 1].0, log[i - 1].1)
        }),
        i + 1 < log.len() ==> log[i + 1].0.dom().contains(log[i].1[j].key) && log[i + 1].0[log[i].1[j].key] == log[i].1[j].data,
        i + 1 == log.len() ==> data.dom().contains(log[i].1[j].key) && data[log[i].1[j].key] == log[i].1[j].data,
{
    lemma_last_binding_stands(log[i].0, log[i].1, j);
    if i + 1 < log.len() {
        assert(log[i + 1].0 == apply_commands(log[i].0, log[i].1));
    }
}

/// A middleware that answers ends the run: it is the last step, its answer
/// is the result, no later middleware nor the controller ran, and the
/// commands it queued were still applied.
pub proof fn lemma_answer_ends_run<V, M: MiddlewareHandler<V>, C: Controller<V>>(
    ms: Seq<M>,
    c: C,
    request: Request,
    initial: Map<u64, V>,
    log: Seq<StepLog<V>>,
    data: Map<u64, V>,
    result: Result<Response, PipelineError>,
    i: int,
)
    requires
        ran(ms, c, request, initial, log, data, result),
        0 <= i < log.len(),
        log[i].2 is Some,
    ensures
        i == log.len() - 1,
        result == Ok::<Response, PipelineError>(log[i].2->0),
        data == apply_commands(log[i].0, log[i].1),
{
    if i < log.len() - 1 {
        assert(log[i].2 is None);
    }
}

/// The outcome of a run of a pipeline, with the record of its steps.
pub struct PipelineRun<V> {
    pub result: Result<Response, PipelineError>,
    pub state: PipelineData<V>,
    pub log: Ghost<Seq<StepLog<V>>>,
}

/// Ordered middleware and one controller.
pub struct RequestPipeline<M, C> {
    pub middlewares: Vec<M>,
    pub controller: C,
}

impl<M, C> RequestPipeline<M, C> {
    /// A pipeline with no middleware.
    pub fn new(controller: C) -> (r: Self)
        ensures
            r.middlewares@.len() == 0,
            r.controller == controller,
    {
        RequestPipeline { middlewares: Vec::new(), controller }
    }

    /// A pipeline that answers with `controller` alone.
    pub fn controller(controller: C) -> (r: Self)
        ensures
            r.middlewares@.len() == 0,
            r.controller == controller,
    {
        Self::new(controller)
    }

    /// The pipeline with `middleware` run after those it has.
    pub fn with_middleware(self, middleware: M) -> (r: Self)
        ensures
            r.middlewares@ == self.middlewares@.push(middleware),
            r.controller == self.controller,
    {
        let mut r = self;
        r.middlewares.push(middleware);
        r
    }

    /// Runs the pipeline on `request`, starting from `data`.
    pub fn run<V>(&self, request: Request, data: DataContainer<V>) -> (r: PipelineRun<V>)
        where
            M: MiddlewareHandler<V>,
            C: Controller<V>,
        ensures
            ran(self.middlewares@, self.controller, request, data@, r.log@, r.state.data@, r.result),
            r.state.request == request,
    {
        let ghost initial = data@;
        let mut state = PipelineData::new(request, data);
        let mut log: Ghost<Seq<StepLog<V>>> = Ghost(Seq::empty());
        let mut i: usize = 0;
        while i < self.middlewares.len()
            invariant
                i <= self.middlewares@.len(),
                initial == data@,
                log@.len() == i,
                state.request == request,
                forall|j: int| 0 <= j < i ==> (#[trigger] log@[j]).0 == (if j == 0 {
                    initial
                } else {
                    apply_commands(log@[j - 1].0, log@[j - 1].1)
                }),
                forall|j: int| 0 <= j < i ==> provided((#[trigger] log@[j]).0, self.middlewares@[j].needs()),
                forall|j: int| 0 <= j < i ==> self.middlewares@[j].handled((#[trigger] log@[j]).0, request, log@[j].1, log@[j].2),
                forall|j: int| 0 <= j < i ==> (#[trigger] log@[j]).2 is None,
                state.data@ == (if i == 0 {
                    initial
                } else {
                    apply_commands(log@[i - 1].0, log@[i - 1].1)
                }),
            decreases self.middlewares@.len() - i,
        {
            let m = &self.middlewares[i];
            let needs = m.dependencies();
            match first_missing(&state.data, &needs) {
                Some(k) => {
                    return PipelineRun { result: Err(PipelineError::MissingData(k)), state, log };
                },
                None => {},
            }
            let ghost seen = state.data@;
            let mut commands = Commands::new();
            let answer = m.handle(&state, &mut commands);
            let ghost queued = commands@;
            commands.execute(&mut state);
            proof {
                let prev = log@;
                log@ = log@.push((seen, queued, answer));
                assert forall|j: int| 0 <= j < i implies #[trigger] log@[j] == prev[j] by {}
                assert(log@[i as int] == (seen, queued, answer));
            }
            match answer {
                Some(resp) => {
                    return PipelineRun { result: Ok(resp), state, log };
                },
                None => {},
            }
            i = i + 1;
        }
        let needs = self.controller.dependencies();
        match first_missing(&state.data, &needs) {
            Some(k) => PipelineRun { result: Err(PipelineError::MissingData(k)), state, log },
            None => {
                let resp = self.controller.handle(&state);
                PipelineRun { result: Ok(resp), state, log }
            },
        }
    }

    /// Handles `request`, starting from `data`: runs the middleware in order,
    /// applying the commands of each once it returns, stops at the first one
    /// that answers, and otherwise answers with the controller.
    pub fn handle<V>(&self, request: Request, data: DataContainer<V>) -> (r: Result<Response, PipelineError>)
        where
            M: MiddlewareHandler<V>,
            C: Controller<V>,
        ensures
            exists|log: Seq<StepLog<V>>, end: Map<u64, V>| ran(self.middlewares@, self.controller, request, data@, log, end, r),
    {
        let run = self.run(request, data);
        run.result
    }
}

} // verus!
