//! What a connection does with a parsed request: find its route, then its
//! pipeline, and produce the response to write back.
use crate::data::DataContainer;
use crate::http::{Request, Response, ResponseStatus};
use crate::lookup::{first_index, lemma_first_index_at, lemma_first_index_range};
use crate::path::segments_of;
use crate::pipeline::{ran, Controller, MiddlewareHandler, PipelineError, RequestPipeline, StepLog};
use crate::router::{method_keys, methods_of, MethodRoute, PathResolver, Router};
use vstd::prelude::*;
use vstd::string::StrSliceExecFns;
use vstd::utf8::encode_utf8;

verus! {

/// `resp` has status `status`, no headers and the body `body`.
pub open spec fn plain_response(resp: Response, status: ResponseStatus, body: Seq<u8>) -> bool {
    &&& resp.status == status
    &&& resp.headers@.len() == 0
    &&& resp.body@ == body
}

/// `r` is what the entry `e` answers to `request`, with `data` the data of
/// the route: a literal payload with status 200 whatever the method; for a
/// method map, the run of the pipeline of the request's method, or an empty
/// 405 if it has none; an empty 500 for a nested router.
pub open spec fn answered<V, M: MiddlewareHandler<V>, C: Controller<V>>(
    e: PathResolver<RequestPipeline<M, C>, V>,
    request: Request,
    data: Map<u64, V>,
    r: Result<Response, PipelineError>,
) -> bool {
    match e {
        PathResolver::Placeholder(s) => r matches Ok(resp) && plain_response(resp, ResponseStatus::OK, encode_utf8(s@)),
        PathResolver::Pipeline(ms) => if methods_of(ms@).dom().contains(request.method@) {
            let p = methods_of(ms@)[request.method@];
            exists|log: Seq<StepLog<V>>, end: Map<u64, V>| ran(p.middlewares@, p.controller, request, data, log, end, r)
        } else {
            r matches Ok(resp) && plain_response(resp, ResponseStatus::MethodNotAllowed, Seq::empty())
        },
        PathResolver::Router(_) => r matches Ok(resp) && plain_response(resp, ResponseStatus::InternalServerError, Seq::empty()),
    }
}

/// Index of the pipeline registered for `method`, if any.
fn find_method<P>(ms: &Vec<MethodRoute<P>>, method: &String) -> (r: Option<usize>)
    ensures
        match r {
            Some(i) => i == first_index(method_keys(ms@), method@) && i < ms@.len(),
            None => first_index(method_keys(ms@), method@) == -1,
        },
{
    let ghost keys = method_keys(ms@);
    proof {
        lemma_first_index_range(keys, method@);
    }
    let mut i: usize = 0;
    while i < ms.len()
        invariant
            0 <= i <= ms@.len(),
            keys == method_keys(ms@),
            forall|j: int| 0 <= j < i ==> keys[j] != method@,
        decreases ms@.len() - i,
    {
        if ms[i].method == *method {
            proof {
                lemma_first_index_at(keys, method@, i as int);
            }
            return Some(i);
        }
        i = i + 1;
    }
    None
}

fn plain(status: ResponseStatus) -> (r: Response)
    ensures
        plain_response(r, status, Seq::empty()),
{
    Response::new().with_status(status)
}

impl<M, C, V> PathResolver<RequestPipeline<M, C>, V> {
    /// The response of this entry to `request`, with `data` the data of the
    /// route.
    pub fn resolve(&self, request: Request, data: DataContainer<V>) -> (r: Result<Response, PipelineError>)
        where
            M: MiddlewareHandler<V>,
            C: Controller<V>,
        ensures
            answered(*self, request, data@, r),
    {
        match self {
            PathResolver::Placeholder(s) => {
                let body = s.as_str().as_bytes_vec();
                let resp = Response { status: ResponseStatus::OK, headers: Vec::new(), body };
                assert(resp.body@ == encode_utf8(s@));
                Ok(resp)
            },
            PathResolver::Pipeline(ms) => {
                let ghost req = request;
                match find_method(ms, &request.method) {
                    Some(i) => {
                        proof {
                            lemma_first_index_range(method_keys(ms@), req.method@);
                        }
                        assert(methods_of(ms@).dom().contains(req.method@));
                        assert(methods_of(ms@)[req.method@] == ms@[i as int].pipeline);
                        let r = ms[i].pipeline.handle(request, data);
                        assert(answered(*self, req, data@, r));
                        r
                    },
                    None => {
                        assert(!methods_of(ms@).dom().contains(req.method@));
                        Ok(plain(ResponseStatus::MethodNotAllowed))
                    },
                }
            },
            PathResolver::Router(_) => Ok(plain(ResponseStatus::InternalServerError)),
        }
    }
}

/// The response to `request`: an empty 404 where no route matches its path,
/// otherwise what the matched entry answers with the data of the route.
pub fn dispatch<M, C, V>(router: &Router<RequestPipeline<M, C>, V>, request: Request) -> (r: Result<Response, PipelineError>)
    where
        M: MiddlewareHandler<V>,
        C: Controller<V>,
    ensures
        match router.resolve_spec(segments_of(request.path@), Map::empty()) {
            None => r matches Ok(resp) && plain_response(resp, ResponseStatus::NotFound, Seq::empty()),
            Some((e, d)) => answered(e, request, d, r),
        },
{
    match router.resolve(request.path.as_str()) {
        None => Ok(Response::new()),
        Some((entry, data)) => entry.resolve(request, data),
    }
}

} // verus!
