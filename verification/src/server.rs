use vstd::prelude::*;

use vstd::utf8::valid_utf8;

use crate::cache::{cache_get, cache_put, cache_wf, PageCache};
use crate::codec::{compressed, deflate_bytes, is_utf8};
use crate::http::{
    law_counter_path_is_dot_slash, law_request_target, DOT, SLASH, SPACE, counter_requested, is_counter_path, parse_request_path, request_path, route_of, route_request, Route,
};
use crate::pages::{counter_response, error_response, static_file_headers, static_headers};
use crate::queue::{
    dequeue_spec, enqueue_spec, lemma_dequeue_wf, lemma_enqueue_wf, queue_wf, HttpRequest,
    RequestQueue, RequestSpec, PRIORITY_PREFIX_LEN,
};
use crate::text::{append_bytes, copy_range};

verus! {

/// The cores the server counts on.
pub const CORES_AVAILABLE: usize = 1;

/// A new responder starts only while at most this many run.
pub const RESPONDER_LIMIT: usize = 3 * CORES_AVAILABLE;

/// What happens to the server.
pub enum Event {
    /// A connection arrived: the peer's name and the bytes read from it.
    Connection { peer_name: Vec<u8>, request: Vec<u8> },
    /// The file a request asks for was looked up: its absolute path, whether
    /// it exists, whether it is a directory and its size.
    Inspected { peer_name: Vec<u8>, path: Vec<u8>, found: bool, is_dir: bool, size: u64 },
    /// A responder finished serving a static file.
    ResponderFinished,
}

/// What the server asks to be done.
pub enum Action {
    /// Close the connection without an answer.
    Close,
    /// Join `path` to the served directory (see `path::join_path`), look
    /// the file up and report back with `Event::Inspected`.
    Inspect { peer_name: Vec<u8>, path: Vec<u8> },
    /// Send these bytes on the connection, then close it.
    Send { response: Vec<u8> },
    /// Read the dynamic page at `path`, run its commands and send what
    /// `WebServer::respond_with_dynamic_page` makes of them.
    RunDynamic { path: Vec<u8> },
    /// Keep the connection under the peer's name until a responder serves it.
    Hold { peer_name: Vec<u8> },
    /// Start a responder for this request: it takes back the connection kept
    /// under the peer's name, sends the file (see
    /// `WebServer::respond_with_static_file`) and reports
    /// `Event::ResponderFinished`.
    Serve { request: HttpRequest },
}

/// An event as plain values.
pub enum EventSpec {
    Connection { peer_name: Seq<u8>, request: Seq<u8> },
    Inspected { peer_name: Seq<u8>, path: Seq<u8>, found: bool, is_dir: bool, size: u64 },
    ResponderFinished,
}

/// An action as plain values.
pub enum ActionSpec {
    Close,
    Inspect { peer_name: Seq<u8>, path: Seq<u8> },
    Send { response: Seq<u8> },
    RunDynamic { path: Seq<u8> },
    Hold { peer_name: Seq<u8> },
    Serve { request: RequestSpec },
}

impl View for Event {
    type V = EventSpec;

    open spec fn view(&self) -> EventSpec {
        match self {
            Event::Connection { peer_name, request } => EventSpec::Connection {
                peer_name: peer_name@,
                request: request@,
            },
            Event::Inspected { peer_name, path, found, is_dir, size } => EventSpec::Inspected {
                peer_name: peer_name@,
                path: path@,
                found: *found,
                is_dir: *is_dir,
                size: *size,
            },
            Event::ResponderFinished => EventSpec::ResponderFinished,
        }
    }
}

impl View for Action {
    type V = ActionSpec;

    open spec fn view(&self) -> ActionSpec {
        match self {
            Action::Close => ActionSpec::Close,
            Action::Inspect { peer_name, path } => ActionSpec::Inspect {
                peer_name: peer_name@,
                path: path@,
            },
            Action::Send { response } => ActionSpec::Send { response: response@ },
            Action::RunDynamic { path } => ActionSpec::RunDynamic { path: path@ },
            Action::Hold { peer_name } => ActionSpec::Hold { peer_name: peer_name@ },
            Action::Serve { request } => ActionSpec::Serve { request: request@ },
        }
    }
}

/// The actions of a sequence, as plain values.
pub open spec fn action_views(actions: Seq<Action>) -> Seq<ActionSpec> {
    actions.map_values(|a: Action| a@)
}

/// The server's state as plain values.
pub struct ServerSpec {
    /// The waiting static-file requests, front first.
    pub queue: Seq<RequestSpec>,
    /// How many of them, at the front, come from priority peers.
    pub priority_count: nat,
    /// How many connections arrived (counting on from zero past the largest `usize`).
    pub visitor_count: nat,
    /// How many responders run.
    pub responders: nat,
    /// A request taken from the queue that waits for a responder.
    pub waiting: Option<RequestSpec>,
    /// The cached compressed files, most recently used first.
    pub cache: Seq<(Seq<u8>, Seq<u8>)>,
    /// How many files the cache keeps.
    pub cache_capacity: nat,
}

/// The server's invariant: the queue keeps priority requests at the front,
/// the cache is within its capacity, at most one responder more than the
/// limit runs, and a request waits only while the limit is exceeded.
pub open spec fn server_wf(s: ServerSpec) -> bool {
    &&& queue_wf(s.queue, s.priority_count)
    &&& cache_wf(s.cache, s.cache_capacity)
    &&& s.responders <= RESPONDER_LIMIT + 1
    &&& s.waiting is Some ==> s.responders > RESPONDER_LIMIT
    &&& s.waiting is None ==> s.queue.len() == 0
    &&& s.visitor_count <= usize::MAX
}

/// The dequeuer at work: while no request waits and the queue is not empty,
/// it takes the front request; a request taken is served as soon as at most
/// `RESPONDER_LIMIT` responders run.  The state afterwards, and the requests
/// served, in order.
pub open spec fn drain(s: ServerSpec) -> (ServerSpec, Seq<RequestSpec>)
    decreases 2 * s.queue.len() + (if s.waiting is Some { 1int } else { 0int }),
{
    match s.waiting {
        Some(w) => if s.responders <= RESPONDER_LIMIT {
            let (s2, served) = drain(ServerSpec { waiting: None, responders: s.responders + 1, ..s });
            (s2, seq![w] + served)
        } else {
            (s, seq![])
        },
        None => if s.queue.len() == 0 {
            (s, seq![])
        } else {
            let (front, q2, n2) = dequeue_spec(s.queue, s.priority_count);
            drain(ServerSpec { queue: q2, priority_count: n2, waiting: front, ..s })
        },
    }
}

/// The server's invariant, except that a request may wait while the limit
/// is not exceeded: the state in which the dequeuer starts work.
pub open spec fn ready_to_drain(s: ServerSpec) -> bool {
    &&& queue_wf(s.queue, s.priority_count)
    &&& cache_wf(s.cache, s.cache_capacity)
    &&& s.responders <= RESPONDER_LIMIT + 1
    &&& s.visitor_count <= usize::MAX
}

/// The request that waits for a responder, as a sequence of zero or one.
pub open spec fn waiting_seq(w: Option<RequestSpec>) -> Seq<RequestSpec> {
    match w {
        Some(r) => seq![r],
        None => seq![],
    }
}

/// What the dequeuer does, from a state it can start in: it ends in a state
/// that keeps the invariant; the requests it serves, then the one left
/// waiting, then the queue, are the requests that waited before followed by
/// the queue before, in the same order; each request served starts one
/// responder; nothing else changes.
pub proof fn lemma_drain(s: ServerSpec)
    requires
        ready_to_drain(s),
    ensures
        ({
            let (s2, served) = drain(s);
            &&& server_wf(s2)
            &&& served + waiting_seq(s2.waiting) + s2.queue == waiting_seq(s.waiting) + s.queue
            &&& s2.responders == s.responders + served.len()
            &&& s2.visitor_count == s.visitor_count
            &&& s2.cache == s.cache
            &&& s2.cache_capacity == s.cache_capacity
        }),
    decreases 2 * s.queue.len() + (if s.waiting is Some { 1int } else { 0int }),
{
    match s.waiting {
        Some(w) => {
            if s.responders <= RESPONDER_LIMIT {
                let s1 = ServerSpec { waiting: None, responders: s.responders + 1, ..s };
                lemma_drain(s1);
                let (s2, served1) = drain(s1);
                assert(drain(s).1 == seq![w] + served1);
                assert(seq![w] + served1 + waiting_seq(s2.waiting) + s2.queue =~= seq![w] + (served1
                    + waiting_seq(s2.waiting) + s2.queue));
                assert(waiting_seq(s1.waiting) + s1.queue =~= s.queue);
            } else {
                assert(Seq::<RequestSpec>::empty() + waiting_seq(s.waiting) + s.queue =~= waiting_seq(
                    s.waiting,
                ) + s.queue);
            }
        },
        None => {
            if s.queue.len() == 0 {
                assert(Seq::<RequestSpec>::empty() + waiting_seq(s.waiting) + s.queue =~= waiting_seq(
                    s.waiting,
                ) + s.queue);
            } else {
                let (f, q2, n2) = dequeue_spec(s.queue, s.priority_count);
                lemma_dequeue_wf(s.queue, s.priority_count);
                let s1 = ServerSpec { queue: q2, priority_count: n2, waiting: f, ..s };
                lemma_drain(s1);
                assert(waiting_seq(f) + q2 =~= s.queue);
                assert(waiting_seq(s.waiting) + s.queue =~= s.queue);
            }
        },
    }
}

/// The visitor count after one more visitor, going back to zero past the
/// largest `usize`.
pub open spec fn next_count(n: nat) -> nat {
    if n >= usize::MAX {
        0
    } else {
        n + 1
    }
}

/// The answer to a new connection, the visitor count being `count`: nothing
/// when the request is not UTF-8 or has fewer than three fields; the counter
/// page when it asks for "./"; otherwise a look-up of the file it asks for.
pub open spec fn listen_action(count: nat, peer_name: Seq<u8>, request: Seq<u8>) -> ActionSpec {
    if !valid_utf8(request) {
        ActionSpec::Close
    } else {
        match request_path(request) {
        None => ActionSpec::Close,
        Some(p) => if is_counter_path(p) {
            ActionSpec::Send { response: counter_response(count) }
        } else {
            ActionSpec::Inspect { peer_name, path: p }
        },
        }
    }
}

/// The responders started for the requests served.
pub open spec fn serve_actions(served: Seq<RequestSpec>) -> Seq<ActionSpec> {
    served.map_values(|r: RequestSpec| ActionSpec::Serve { request: r })
}

/// The events the server can take in state `s`: a responder can only
/// finish while one runs; every other event is always taken.
pub open spec fn admits(s: ServerSpec, e: EventSpec) -> bool {
    match e {
        EventSpec::ResponderFinished => s.responders > 0,
        _ => true,
    }
}

/// One step of the server: its state after the event, and what it asks to
/// be done.  A static file asked for by a peer whose name is shorter than
/// seven bytes is held but never queued, so it is never served.
pub open spec fn step(s: ServerSpec, e: EventSpec) -> (ServerSpec, Seq<ActionSpec>) {
    match e {
        EventSpec::Connection { peer_name, request } => {
            let s1 = ServerSpec { visitor_count: next_count(s.visitor_count), ..s };
            (s1, seq![listen_action(s1.visitor_count, peer_name, request)])
        },
        EventSpec::Inspected { peer_name, path, found, is_dir, size } => match route_of(
            path,
            found,
            is_dir,
        ) {
            Route::Missing => (s, seq![ActionSpec::Send { response: error_response(path) }]),
            Route::Dynamic => (s, seq![ActionSpec::RunDynamic { path }]),
            Route::Static => if peer_name.len() < PRIORITY_PREFIX_LEN {
                (s, seq![ActionSpec::Hold { peer_name }])
            } else {
                let (q, n) = enqueue_spec(
                    s.queue,
                    s.priority_count,
                    RequestSpec { peer_name, path, size },
                );
                let (s2, served) = drain(ServerSpec { queue: q, priority_count: n, ..s });
                (s2, seq![ActionSpec::Hold { peer_name }] + serve_actions(served))
            },
        },
        EventSpec::ResponderFinished => {
            let (s2, served) = drain(ServerSpec { responders: (s.responders - 1) as nat, ..s });
            (s2, serve_actions(served))
        },
    }
}

/// Every step the server can take keeps its invariant: priority requests
/// stay at the front of the queue, the cache within its capacity, at most one
/// responder more than the limit runs, a request waits only while the limit
/// is exceeded, and the queue holds requests only while one waits.
pub proof fn law_step_keeps_invariant(s: ServerSpec, e: EventSpec)
    requires
        server_wf(s),
        admits(s, e),
    ensures
        server_wf(step(s, e).0),
{
    match e {
        EventSpec::Connection { .. } => {},
        EventSpec::Inspected { peer_name, path, found, is_dir, size } => {
            if route_of(path, found, is_dir) is Static {
                let r = RequestSpec { peer_name, path, size };
                lemma_enqueue_wf(s.queue, s.priority_count, r);
                let (q, n) = enqueue_spec(s.queue, s.priority_count, r);
                lemma_drain(ServerSpec { queue: q, priority_count: n, ..s });
            }
        },
        EventSpec::ResponderFinished => {
            lemma_drain(ServerSpec { responders: (s.responders - 1) as nat, ..s });
        },
    }
}

/// Each connection counts one more visitor, whatever it asks, and a request
/// for the counter page is answered with the page showing the new count.
pub proof fn law_visitors_counted(s: ServerSpec, peer_name: Seq<u8>, request: Seq<u8>)
    ensures
        ({
            let (s2, actions) = step(s, EventSpec::Connection { peer_name, request });
            &&& s2 == ServerSpec { visitor_count: next_count(s.visitor_count), ..s }
            &&& actions.len() == 1
            &&& valid_utf8(request) ==> ((request_path(request) matches Some(p) && is_counter_path(p))
                ==> actions[0]
                == ActionSpec::Send { response: counter_response(next_count(s.visitor_count)) })
        }),
{
}

/// A well-formed request line "METHOD TARGET REST", whose method and target
/// hold no space, gets the counter page when the target is exactly "/", and
/// otherwise a look-up of "." followed by the target.
pub proof fn law_listen_target(
    count: nat,
    peer_name: Seq<u8>,
    method: Seq<u8>,
    target: Seq<u8>,
    rest: Seq<u8>,
)
    requires
        forall|k: int| 0 <= k < method.len() ==> method[k] != SPACE,
        forall|k: int| 0 <= k < target.len() ==> target[k] != SPACE,
        valid_utf8(method + seq![SPACE] + target + seq![SPACE] + rest),
    ensures
        listen_action(count, peer_name, method + seq![SPACE] + target + seq![SPACE] + rest) == if target
            == seq![SLASH] {
            ActionSpec::Send { response: counter_response(count) }
        } else {
            ActionSpec::Inspect { peer_name, path: seq![DOT] + target }
        },
{
    let request = method + seq![SPACE] + target + seq![SPACE] + rest;
    law_request_target(method, target, rest);
    let p = seq![DOT] + target;
    law_counter_path_is_dot_slash(p);
    if target == seq![SLASH] {
        assert(p =~= seq![DOT, SLASH]);
    } else {
        if p == seq![DOT, SLASH] {
            assert(target =~= p.drop_first());
            assert(p.drop_first() =~= seq![SLASH]);
        }
    }
}

/// A request for a static file is neither lost nor reordered: the requests
/// the step starts responders for, then the one left waiting, then the
/// queue, are the request that waited before followed by the queue with the
/// new request in its place.
pub proof fn law_static_request_kept(
    s: ServerSpec,
    peer_name: Seq<u8>,
    path: Seq<u8>,
    found: bool,
    is_dir: bool,
    size: u64,
)
    requires
        server_wf(s),
        route_of(path, found, is_dir) is Static,
        peer_name.len() >= PRIORITY_PREFIX_LEN,
    ensures
        ({
            let e = EventSpec::Inspected { peer_name, path, found, is_dir, size };
            let (s2, actions) = step(s, e);
            let (q, n) = enqueue_spec(s.queue, s.priority_count, RequestSpec { peer_name, path, size });
            let served = drain(ServerSpec { queue: q, priority_count: n, ..s }).1;
            &&& actions == seq![ActionSpec::Hold { peer_name }] + serve_actions(served)
            &&& served + waiting_seq(s2.waiting) + s2.queue == waiting_seq(s.waiting) + q
            &&& s2.responders == s.responders + served.len()
        }),
{
    let r = RequestSpec { peer_name, path, size };
    lemma_enqueue_wf(s.queue, s.priority_count, r);
    let (q, n) = enqueue_spec(s.queue, s.priority_count, r);
    lemma_drain(ServerSpec { queue: q, priority_count: n, ..s });
}

/// When a responder finishes while a request waits, that request is the
/// first one started.
pub proof fn law_finished_responder_starts_waiting(s: ServerSpec)
    requires
        server_wf(s),
        s.responders > 0,
        s.waiting is Some,
    ensures
        step(s, EventSpec::ResponderFinished).1.len() >= 1,
        step(s, EventSpec::ResponderFinished).1[0] == (ActionSpec::Serve { request: s.waiting->0 }),
{
    let s1 = ServerSpec { responders: (s.responders - 1) as nat, ..s };
    let s2 = ServerSpec { waiting: None, responders: s1.responders + 1, ..s1 };
    assert(drain(s1).1 == seq![s.waiting->0] + drain(s2).1);
}

/// The server: where it listens and what it serves, the waiting requests,
/// the visitor count, the running responders and the cache.
pub struct WebServer {
    ip: String,
    port: usize,
    www_dir: String,
    queue: RequestQueue,
    visitor_count: usize,
    responders: usize,
    waiting: Option<HttpRequest>,
    cache: PageCache,
}

impl WebServer {
    /// The server's state as plain values.
    pub closed spec fn state(&self) -> ServerSpec {
        ServerSpec {
            queue: self.queue.requests(),
            priority_count: self.queue.priority_count(),
            visitor_count: self.visitor_count as nat,
            responders: self.responders as nat,
            waiting: match self.waiting {
                Some(r) => Some(r@),
                None => None,
            },
            cache: self.cache.entries(),
            cache_capacity: self.cache.capacity(),
        }
    }

    /// The server's invariant.
    pub open spec fn wf(&self) -> bool {
        server_wf(self.state())
    }

    /// The address the server listens on.
    pub closed spec fn ip_spec(&self) -> Seq<char> {
        self.ip@
    }

    /// The port the server listens on.
    pub closed spec fn port_spec(&self) -> usize {
        self.port
    }

    /// The directory the server serves.
    pub closed spec fn www_dir_spec(&self) -> Seq<char> {
        self.www_dir@
    }

    /// The address the server listens on.
    pub fn ip(&self) -> (r: &String)
        ensures
            r@ == self.ip_spec(),
    {
        &self.ip
    }

    /// The port the server listens on.
    pub fn port(&self) -> (r: usize)
        ensures
            r == self.port_spec(),
    {
        self.port
    }

    /// The directory the server serves.
    pub fn www_dir(&self) -> (r: &String)
        ensures
            r@ == self.www_dir_spec(),
    {
        &self.www_dir
    }

    /// A server that has seen no visitor, with no waiting request, no
    /// running responder and an empty cache of ten files.
    pub fn new(ip: String, port: usize, www_dir: String) -> (s: WebServer)
        ensures
            s.wf(),
            s.ip_spec() == ip@,
            s.port_spec() == port,
            s.www_dir_spec() == www_dir@,
            s.state() == (ServerSpec {
                queue: Seq::empty(),
                priority_count: 0,
                visitor_count: 0,
                responders: 0,
                waiting: None,
                cache: Seq::empty(),
                cache_capacity: crate::cache::CACHE_CAPACITY as nat,
            }),
    {
        WebServer {
            ip,
            port,
            www_dir,
            queue: RequestQueue::new(),
            visitor_count: 0,
            responders: 0,
            waiting: None,
            cache: PageCache::new(),
        }
    }
}


impl WebServer {
    /// The dequeuer: while no taken request waits, it takes the request at
    /// the front of the queue (lowering the priority count unless it is
    /// zero), and starts a responder for a taken request as soon as at most
    /// `RESPONDER_LIMIT` responders run.  The responders it starts, in order.
    pub fn dequeue_static_file_request(&mut self) -> (actions: Vec<Action>)
        requires
            ready_to_drain(old(self).state()),
        ensures
            final(self).wf(),
            final(self).state() == drain(old(self).state()).0,
            action_views(actions@) == serve_actions(drain(old(self).state()).1),
            final(self).ip_spec() == old(self).ip_spec(),
            final(self).port_spec() == old(self).port_spec(),
            final(self).www_dir_spec() == old(self).www_dir_spec(),
    {
        let ghost s0 = self.state();
        let ghost mut served: Seq<RequestSpec> = seq![];
        let mut actions: Vec<Action> = Vec::new();
        assert(action_views(actions@) =~= serve_actions(served));
        loop
            invariant
                ready_to_drain(self.state()),
                drain(s0) == (drain(self.state()).0, served + drain(self.state()).1),
                action_views(actions@) == serve_actions(served),
                self.ip_spec() == old(self).ip_spec(),
                self.port_spec() == old(self).port_spec(),
                self.www_dir_spec() == old(self).www_dir_spec(),
            ensures
                server_wf(self.state()),
                drain(s0) == (self.state(), served),
                action_views(actions@) == serve_actions(served),
                self.ip_spec() == old(self).ip_spec(),
                self.port_spec() == old(self).port_spec(),
                self.www_dir_spec() == old(self).www_dir_spec(),
            decreases 2 * self.queue.requests().len() + (if self.waiting is Some { 1int } else { 0int }),
        {
            let ghost before = self.state();
            if self.waiting.is_some() {
                if self.responders <= RESPONDER_LIMIT {
                    let taken = self.waiting.take();
                    match taken {
                        Some(w) => {
                            let ghost wv = w@;
                            let ghost old_actions = actions@;
                            let ghost old_served = served;
                            self.responders = self.responders + 1;
                            actions.push(Action::Serve { request: w });
                            proof {
                                assert(self.state() == ServerSpec { waiting: None, responders: before.responders + 1, ..before });
                                served = served + seq![wv];
                                assert(action_views(old_actions) == serve_actions(old_served));
                                assert(action_views(old_actions).len() == old_actions.len());
                                assert(serve_actions(old_served).len() == old_served.len());
                                assert(actions@ == old_actions.push(Action::Serve { request: w }));
                                assert forall|k: int| 0 <= k < served.len() implies #[trigger] action_views(actions@)[k]
                                    == serve_actions(served)[k] by {
                                    if k < old_served.len() {
                                        assert(actions@[k] == old_actions[k]);
                                        assert(action_views(old_actions)[k] == serve_actions(old_served)[k]);
                                    }
                                }
                                assert(action_views(actions@) =~= serve_actions(served));
                                assert(served + drain(self.state()).1 =~= (served.drop_last()) + (seq![wv] + drain(self.state()).1));
                            }
                        },
                        None => {},
                    }
                } else {
                    proof {
                        assert(served + seq![] =~= served);
                    }
                    break;
                }
            } else {
                if self.queue.len() == 0 {
                    proof {
                        assert(served + seq![] =~= served);
                    }
                    break;
                }
                let front = self.queue.dequeue();
                self.waiting = front;
                proof {
                    let (f, q2, n2) = dequeue_spec(before.queue, before.priority_count);
                    assert(self.state() == ServerSpec { queue: q2, priority_count: n2, waiting: f, ..before });
                }
            }
        }
        actions
    }

    /// Queues a request for a static file (see `RequestQueue::enqueue`).
    /// The peer's name must hold at least seven bytes.
    pub fn enqueue_static_file_request(&mut self, request: HttpRequest)
        requires
            server_wf(old(self).state()),
            request.peer_name@.len() >= PRIORITY_PREFIX_LEN,
        ensures
            ready_to_drain(final(self).state()),
            final(self).state() == ({
                let s = old(self).state();
                let (q, n) = enqueue_spec(s.queue, s.priority_count, request@);
                ServerSpec { queue: q, priority_count: n, ..s }
            }),
            final(self).ip_spec() == old(self).ip_spec(),
            final(self).port_spec() == old(self).port_spec(),
            final(self).www_dir_spec() == old(self).www_dir_spec(),
    {
        self.queue.enqueue(request);
    }

    /// A new connection: counts the visitor, then reads the request.  A
    /// request that is not UTF-8 or has fewer than three fields is dropped; a
    /// request for "./" gets the counter page with the new count; any other
    /// request asks for its file to be looked up.
    pub fn listen(&mut self, peer_name: Vec<u8>, request: Vec<u8>) -> (action: Action)
        requires
            server_wf(old(self).state()),
        ensures
            server_wf(final(self).state()),
            final(self).state() == (ServerSpec {
                visitor_count: next_count(old(self).state().visitor_count),
                ..old(self).state()
            }),
            action@ == listen_action(final(self).state().visitor_count, peer_name@, request@),
            final(self).ip_spec() == old(self).ip_spec(),
            final(self).port_spec() == old(self).port_spec(),
            final(self).www_dir_spec() == old(self).www_dir_spec(),
    {
        self.visitor_count = self.visitor_count.wrapping_add(1);
        if !is_utf8(request.as_slice()) {
            return Action::Close;
        }
        match parse_request_path(request.as_slice()) {
            None => Action::Close,
            Some(path) => {
                if counter_requested(path.as_slice()) {
                    let response = Self::respond_with_counter_page(self.visitor_count);
                    Action::Send { response }
                } else {
                    Action::Inspect { peer_name, path }
                }
            },
        }
    }
}


impl WebServer {
    /// One step of the server (see `step`): takes an event, updates the
    /// state and says what is to be done.
    pub fn run(&mut self, event: Event) -> (actions: Vec<Action>)
        requires
            old(self).wf(),
            admits(old(self).state(), event@),
        ensures
            final(self).wf(),
            (final(self).state(), action_views(actions@)) == step(old(self).state(), event@),
            final(self).ip_spec() == old(self).ip_spec(),
            final(self).port_spec() == old(self).port_spec(),
            final(self).www_dir_spec() == old(self).www_dir_spec(),
    {
        let ghost ev = event@;
        match event {
            Event::Connection { peer_name, request } => {
                let action = self.listen(peer_name, request);
                let mut actions: Vec<Action> = Vec::new();
                actions.push(action);
                assert(action_views(actions@) =~= step(old(self).state(), ev).1);
                actions
            },
            Event::Inspected { peer_name, path, found, is_dir, size } => {
                let ghost pn = peer_name@;
                let ghost pa = path@;
                assert(ev == EventSpec::Inspected { peer_name: pn, path: pa, found, is_dir, size });
                match route_request(path.as_slice(), found, is_dir) {
                    Route::Missing => {
                        let response = Self::respond_with_error_page(path.as_slice());
                        let mut actions: Vec<Action> = Vec::new();
                        actions.push(Action::Send { response });
                        assert(action_views(actions@) =~= step(old(self).state(), ev).1);
                        actions
                    },
                    Route::Dynamic => {
                        let mut actions: Vec<Action> = Vec::new();
                        actions.push(Action::RunDynamic { path });
                        assert(action_views(actions@) =~= step(old(self).state(), ev).1);
                        actions
                    },
                    Route::Static => {
                        if peer_name.len() < PRIORITY_PREFIX_LEN {
                            let mut actions: Vec<Action> = Vec::new();
                            actions.push(Action::Hold { peer_name });
                            assert(action_views(actions@) =~= step(old(self).state(), ev).1);
                            return actions;
                        }
                        let held = copy_range(peer_name.as_slice(), 0, peer_name.len());
                        assert(held@ =~= pn);
                        let mut actions: Vec<Action> = Vec::new();
                        actions.push(Action::Hold { peer_name: held });
                        assert(action_views(actions@)[0] == ActionSpec::Hold { peer_name: pn });
                        self.enqueue_static_file_request(HttpRequest { peer_name, path, size });
                        let mut served = self.dequeue_static_file_request();
                        let ghost first = actions@;
                        let ghost rest = served@;
                        actions.append(&mut served);
                        proof {
                            let s0 = old(self).state();
                            let (q, n) = enqueue_spec(s0.queue, s0.priority_count, RequestSpec { peer_name: pn, path: pa, size });
                            let sv = drain(ServerSpec { queue: q, priority_count: n, ..s0 }).1;
                            assert(route_of(pa, found, is_dir) == Route::Static);
                            assert(step(s0, ev).1 == seq![ActionSpec::Hold { peer_name: pn }] + serve_actions(sv));
                            assert(action_views(rest) == serve_actions(sv));
                            assert(action_views(first)[0] == ActionSpec::Hold { peer_name: pn });
                            assert(action_views(actions@) =~= seq![action_views(first)[0]] + action_views(rest));
                            assert(action_views(actions@) =~= step(old(self).state(), ev).1);
                        }
                        actions
                    },
                }
            },
            Event::ResponderFinished => {
                self.responders = self.responders - 1;
                self.dequeue_static_file_request()
            },
        }
    }

    /// Whether the server can take this event now (see `admits`).
    pub fn admits(&self, event: &Event) -> (r: bool)
        ensures
            r == admits(self.state(), event@),
    {
        match event {
            Event::ResponderFinished => self.responders > 0,
            _ => true,
        }
    }

    /// A responder's first step: when `path` is cached, the whole answer
    /// (headers for a compressed file, then the cached compressed contents),
    /// the entry becoming the most recently used; otherwise nothing, and the
    /// file is to be read and handed to `respond_with_file_contents`.
    pub fn respond_with_static_file(&mut self, path: &Vec<u8>) -> (r: Option<Vec<u8>>)
        requires
            old(self).wf(),
        ensures
            final(self).wf(),
            final(self).state() == (ServerSpec {
                cache: cache_get(old(self).state().cache, path@).1,
                ..old(self).state()
            }),
            match r {
                Some(response) => exists|data: Seq<u8>|
                    cache_get(old(self).state().cache, path@).0 == Some(data) && response@
                        == static_headers(path@, true) + data,
                None => cache_get(old(self).state().cache, path@).0 is None,
            },
            final(self).ip_spec() == old(self).ip_spec(),
            final(self).port_spec() == old(self).port_spec(),
            final(self).www_dir_spec() == old(self).www_dir_spec(),
    {
        match self.cache.lookup(path) {
            Some(data) => {
                let mut response: Vec<u8> = Vec::new();
                append_bytes(&mut response, static_file_headers(path.as_slice(), true).as_bytes());
                append_bytes(&mut response, data.as_slice());
                assert(response@ == static_headers(path@, true) + data@);
                Some(response)
            },
            None => None,
        }
    }

    /// A responder's answer for a file that was not cached: headers for an
    /// uncompressed file, then its contents; the compressed contents are
    /// cached under `path` as the most recently used entry.
    pub fn respond_with_file_contents(&mut self, path: Vec<u8>, content: &[u8]) -> (r: Vec<u8>)
        requires
            old(self).wf(),
        ensures
            final(self).wf(),
            final(self).state() == (ServerSpec {
                cache: cache_put(
                    old(self).state().cache,
                    old(self).state().cache_capacity,
                    path@,
                    compressed(content@),
                ),
                ..old(self).state()
            }),
            r@ == static_headers(path@, false) + content@,
            final(self).ip_spec() == old(self).ip_spec(),
            final(self).port_spec() == old(self).port_spec(),
            final(self).www_dir_spec() == old(self).www_dir_spec(),
    {
        let mut response: Vec<u8> = Vec::new();
        append_bytes(&mut response, static_file_headers(path.as_slice(), false).as_bytes());
        append_bytes(&mut response, content);
        let packed = deflate_bytes(content);
        self.cache.store(path, packed);
        response
    }
}

} // verus!
