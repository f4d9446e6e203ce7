//! The decisions of request forwarding and of the admin surface: which
//! route a request takes, which worker it goes to, and what the client is
//! told.

use vstd::prelude::*;
use crate::policy::{after_selection, prefix_text, selection, stored_by_selection, RequestFields, Router, SelectError};
use crate::registry::AddError;

verus! {

/// The kinds of failure of the router.
#[derive(Debug, Clone, Copy, PartialEq, Eq, Structural)]
pub enum ErrorKind {
    /// The configuration cannot be used: startup is aborted.
    ConfigInvalid,
    /// No worker is ready.
    Unavailable,
    /// The startup probe of a worker ran out of time.
    WorkerProbeTimeout,
    /// The call to the worker failed; `status` is what the worker
    /// answered, if it answered.
    UpstreamFailure { status: Option<u16> },
    /// The watch of the discovery source ended or failed.
    DiscoveryTransport,
    /// The request body was larger than allowed.
    PayloadTooLarge,
}

/// The status that a client sees for a failure, if a client sees it at all.
pub open spec fn status_for(e: ErrorKind) -> Option<u16> {
    match e {
        ErrorKind::ConfigInvalid => None,
        ErrorKind::Unavailable => Some(503u16),
        ErrorKind::WorkerProbeTimeout => Some(400u16),
        ErrorKind::UpstreamFailure { status } => match status {
            Some(s) => Some(s),
            None => Some(502u16),
        },
        ErrorKind::DiscoveryTransport => None,
        ErrorKind::PayloadTooLarge => Some(413u16),
    }
}

/// The status that a client sees for a failure. A failure of startup or of
/// discovery reaches no client.
pub fn client_status(e: ErrorKind) -> (r: Option<u16>)
    ensures
        r == status_for(e),
{
    match e {
        ErrorKind::ConfigInvalid => None,
        ErrorKind::Unavailable => Some(503),
        ErrorKind::WorkerProbeTimeout => Some(400),
        ErrorKind::UpstreamFailure { status } => match status {
            Some(s) => Some(s),
            None => Some(502),
        },
        ErrorKind::DiscoveryTransport => None,
        ErrorKind::PayloadTooLarge => Some(413),
    }
}

/// The method of a request, as far as routing tells methods apart.
#[derive(Debug, Clone, Copy, PartialEq, Eq, Structural)]
pub enum Method {
    Get,
    Post,
    Other,
}

/// What the router does with a request.
#[derive(Debug, Clone, Copy, PartialEq, Eq, Structural)]
pub enum Route {
    /// Hand the request to the first ready worker and return its answer.
    ProxyFirst,
    /// Select a worker by the policy and forward the request to it.
    Generate,
    /// Add the worker named by the query.
    AddWorker,
    /// Remove the worker named by the query.
    RemoveWorker,
    /// Drain the body and answer that nothing is there.
    NotFound,
}

/// Whether `path` is one that any worker can answer.
pub open spec fn proxied_path(path: Seq<char>) -> bool {
    ||| path == "/health"@
    ||| path == "/health_generate"@
    ||| path == "/get_server_info"@
    ||| path == "/get_model_info"@
    ||| path == "/v1/models"@
}

/// Whether `path` is one that asks for a generation.
pub open spec fn generate_path(path: Seq<char>) -> bool {
    ||| path == "/generate"@
    ||| path == "/v1/chat/completions"@
    ||| path == "/v1/completions"@
}

/// The route of a request.
pub open spec fn route_for(method: Method, path: Seq<char>) -> Route {
    if method == Method::Get && proxied_path(path) {
        Route::ProxyFirst
    } else if method == Method::Post && generate_path(path) {
        Route::Generate
    } else if method == Method::Post && path == "/add_worker"@ {
        Route::AddWorker
    } else if method == Method::Post && path == "/remove_worker"@ {
        Route::RemoveWorker
    } else {
        Route::NotFound
    }
}

/// Whether `path` reads as `lit`.
fn reads(path: &String, lit: &str) -> (r: bool)
    ensures
        r == (path@ == lit@),
{
    let other = lit.to_owned();
    *path == other
}

/// The route of a request.
pub fn route_of(method: Method, path: &str) -> (r: Route)
    ensures
        r == route_for(method, path@),
{
    let p = path.to_owned();
    match method {
        Method::Get => {
            if reads(&p, "/health") || reads(&p, "/health_generate") || reads(&p, "/get_server_info") || reads(
                &p,
                "/get_model_info",
            ) || reads(&p, "/v1/models") {
                Route::ProxyFirst
            } else {
                Route::NotFound
            }
        },
        Method::Post => {
            if reads(&p, "/generate") || reads(&p, "/v1/chat/completions") || reads(&p, "/v1/completions") {
                Route::Generate
            } else if reads(&p, "/add_worker") {
                Route::AddWorker
            } else if reads(&p, "/remove_worker") {
                Route::RemoveWorker
            } else {
                Route::NotFound
            }
        },
        Method::Other => Route::NotFound,
    }
}

/// The address of `path` at the worker `worker`.
pub fn target_url(worker: &str, path: &str) -> (r: String)
    ensures
        r@ == worker@ + path@,
{
    let mut out = worker.to_owned();
    out.append(path);
    out
}

/// Where a request that any worker can answer is sent: to the worker that
/// was added first. `None` where no worker is ready.
pub fn route_to_first(router: &Router, path: &str) -> (r: Option<String>)
    ensures
        r.deep_view() == if router@.workers.len() == 0 {
            None
        } else {
            Some(router@.workers[0] + path@)
        },
{
    match router.first_worker() {
        None => None,
        Some(w) => Some(target_url(w.as_str(), path)),
    }
}

/// Where a generation request is sent, and how its answer is returned.
#[derive(Debug, Clone)]
pub struct Forward {
    /// The worker selected.
    pub worker: String,
    /// The address that the request is posted to.
    pub url: String,
    /// Whether the answer is piped through as it arrives, rather than
    /// returned whole.
    pub stream: bool,
}

/// Where a generation request is sent: to the worker that the policy
/// selects, which is asked once and not again if the call fails. The answer
/// is streamed where the request asks for it.
pub fn route_generate_request(router: &mut Router, fields: &RequestFields, path: &str, draw: usize, now: u64) -> (r:
    Result<Forward, SelectError>)
    requires
        old(router).wf(),
        old(router).admits(prefix_text(*fields)),
    ensures
        final(router).wf(),
        final(router).policy() == old(router).policy(),
        final(router)@ == after_selection(old(router)@, old(router).policy(), prefix_text(*fields), draw as nat, now),
        final(router).tree_size() == old(router).tree_size() + stored_by_selection(
            old(router)@,
            old(router).policy(),
            prefix_text(*fields),
        ),
        final(router).tree_limit() == old(router).tree_limit(),
        forwards(r, selection(old(router)@, old(router).policy(), prefix_text(*fields), draw as nat), path@, fields.stream),
{
    match router.select(fields, draw, now) {
        Err(e) => Err(e),
        Ok(worker) => {
            let url = target_url(worker.as_str(), path);
            Ok(Forward { worker, url, stream: fields.stream })
        },
    }
}

/// Whether `r` sends a request for `path` to the worker selected, or fails
/// as the selection failed.
pub open spec fn forwards(
    r: Result<Forward, SelectError>,
    selected: Result<Seq<char>, SelectError>,
    path: Seq<char>,
    stream: bool,
) -> bool {
    match selected {
        Ok(w) => r matches Ok(f) && f.worker@ == w && f.url@ == w + path && f.stream == stream,
        Err(e) => r == Err::<Forward, SelectError>(e),
    }
}

/// Where a generation request is sent, where the prefix tree has room for
/// what the selection stores; `None`, and nothing done, where it has none.
pub fn try_route_generate_request(router: &mut Router, fields: &RequestFields, path: &str, draw: usize, now: u64) -> (r:
    Option<Result<Forward, SelectError>>)
    requires
        old(router).wf(),
    ensures
        final(router).wf(),
        final(router).policy() == old(router).policy(),
        final(router).tree_limit() == old(router).tree_limit(),
        r is Some == old(router).admits(prefix_text(*fields)),
        r matches Some(x) ==> {
            &&& final(router)@ == after_selection(old(router)@, old(router).policy(), prefix_text(*fields), draw as nat, now)
            &&& final(router).tree_size() == old(router).tree_size() + stored_by_selection(
                old(router)@,
                old(router).policy(),
                prefix_text(*fields),
            )
            &&& forwards(x, selection(old(router)@, old(router).policy(), prefix_text(*fields), draw as nat), path@, fields.stream)
        },
        r is None ==> final(router)@ == old(router)@ && final(router).tree_size() == old(router).tree_size(),
{
    match router.try_select(fields, draw, now) {
        None => None,
        Some(Err(e)) => Some(Err(e)),
        Some(Ok(worker)) => {
            let url = target_url(worker.as_str(), path);
            Some(Ok(Forward { worker, url, stream: fields.stream }))
        },
    }
}

/// The answer to a generation request that the prefix tree has no room
/// for: its counters or its size have reached what the machine can count.
pub fn exhausted_reply() -> (r: Reply)
    ensures
        r.status == 500,
        r.body@ == "The prefix tree cannot take in another text"@,
{
    Reply { status: 500, body: "The prefix tree cannot take in another text".to_owned() }
}

/// Whether a header of the client goes along to the worker: every header
/// but `host` and `content-length`, which belong to the connection and are
/// written anew for the call to the worker. Header names are in lower case.
pub fn header_goes_along(name: &str) -> (r: bool)
    ensures
        r == (name@ != "host"@ && name@ != "content-length"@),
{
    let n = name.to_owned();
    !reads(&n, "host") && !reads(&n, "content-length")
}

/// The status that the client gets for the answer of a worker: the status
/// of the worker where it answered, 502 where the call failed in transport.
pub fn relay_status(upstream: Option<u16>) -> (r: u16)
    ensures
        r == match upstream {
            Some(s) => s,
            None => 502u16,
        },
{
    match upstream {
        Some(s) => s,
        None => 502,
    }
}

/// An answer of the admin surface.
#[derive(Debug, Clone)]
pub struct Reply {
    pub status: u16,
    pub body: String,
}

/// Why a worker was not added, in words.
pub open spec fn reason_text(e: AddError, url: Seq<char>) -> Seq<char> {
    match e {
        AddError::Invalid => "Invalid worker URL: "@ + url,
        AddError::Duplicate => "Worker already exists: "@ + url,
        AddError::TimedOut => "Timed out waiting for worker to become healthy: "@ + url,
    }
}

/// Why a worker was not added, in words.
pub fn describe(e: AddError, url: &str) -> (r: String)
    ensures
        r@ == reason_text(e, url@),
{
    let mut out = match e {
        AddError::Invalid => "Invalid worker URL: ".to_owned(),
        AddError::Duplicate => "Worker already exists: ".to_owned(),
        AddError::TimedOut => "Timed out waiting for worker to become healthy: ".to_owned(),
    };
    out.append(url);
    out
}

/// The answer to a request to add a worker: 200 with a message of success,
/// or 400 with the reason.
pub fn add_worker_reply(outcome: Result<(), AddError>, url: &str) -> (r: Reply)
    ensures
        match outcome {
            Ok(_) => r.status == 200 && r.body@ == "Successfully added worker: "@ + url@,
            Err(e) => r.status == 400 && r.body@ == reason_text(e, url@),
        },
{
    match outcome {
        Ok(_) => {
            let mut body = "Successfully added worker: ".to_owned();
            body.append(url);
            Reply { status: 200, body }
        },
        Err(e) => Reply { status: 400, body: describe(e, url) },
    }
}

/// The answer to a request to add a worker that names none.
pub fn missing_url_reply() -> (r: Reply)
    ensures
        r.status == 400,
        r.body@ == "Worker URL required. Provide 'url' query parameter"@,
{
    Reply { status: 400, body: "Worker URL required. Provide 'url' query parameter".to_owned() }
}

/// The answer to a request to remove a worker: 200 whenever a worker was
/// named, whether it was ready or not; 400 where none was named.
pub fn remove_worker_reply(url: Option<&str>) -> (r: Reply)
    ensures
        match url {
            Some(u) => r.status == 200 && r.body@ == "Successfully removed worker: "@ + u@,
            None => r.status == 400 && r.body@ == Seq::<char>::empty(),
        },
{
    match url {
        Some(u) => {
            let mut body = "Successfully removed worker: ".to_owned();
            body.append(u);
            Reply { status: 200, body }
        },
        None => Reply { status: 400, body: String::new() },
    }
}

/// The answer to a request that matches no route.
pub fn not_found_reply() -> (r: Reply)
    ensures
        r.status == 404,
        r.body@ == Seq::<char>::empty(),
{
    Reply { status: 404, body: String::new() }
}

/// Whether a body of `len` bytes is larger than the limit allows.
pub fn payload_too_large(len: usize, max_payload_size: usize) -> (r: bool)
    ensures
        r == (len > max_payload_size),
{
    len > max_payload_size
}

} // verus!
