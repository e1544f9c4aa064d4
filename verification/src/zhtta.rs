//! The first Zhtta web server: static files are answered one at a time, in
//! the order in which they were requested.
use vstd::prelude::*;

use vstd::string::StringSliceAdditionalSpecFns;

use crate::http;
use crate::http::{route_of, Route};
use crate::table::StringMap;
use crate::text::decimal;

verus! {

/// A request for a static file, waiting for its turn. The connection it
/// came on is kept apart, under the peer's name.
pub struct HTTP_Request {
    pub peer_name: String,
    pub path: String,
}

/// The meaning of a queued request.
pub struct RequestView {
    pub peer_name: Seq<char>,
    pub path: Seq<char>,
}

impl View for HTTP_Request {
    type V = RequestView;

    open spec fn view(&self) -> RequestView {
        RequestView { peer_name: self.peer_name@, path: self.path@ }
    }
}

/// The state of the server: the queue of static-file requests, the open
/// connections by peer name, and the number of visits so far.
pub struct ServerState {
    pub queue: Seq<RequestView>,
    pub streams: Map<Seq<char>, u64>,
    pub visitors: nat,
}

/// The state after a static-file request is queued: the connection is kept
/// under the peer's name and the request goes to the back of the queue.
pub open spec fn enqueue_spec(s: ServerState, stream: u64, r: RequestView) -> ServerState {
    ServerState {
        queue: s.queue.push(r),
        streams: s.streams.insert(r.peer_name, stream),
        visitors: s.visitors,
    }
}

/// The connection of the request that is served next is kept: a request
/// whose connection is missing cannot be served.
pub open spec fn next_has_connection(s: ServerState) -> bool {
    s.queue.len() > 0 ==> s.streams.contains_key(s.queue[0].peer_name)
}

/// The state after the request at the front of the queue is taken, with
/// that request and the connection kept under its peer's name.
pub open spec fn dequeue_spec(s: ServerState) -> (ServerState, Option<(RequestView, u64)>) {
    if s.queue.len() == 0 {
        (s, None)
    } else {
        let r = s.queue[0];
        (
            ServerState {
                queue: s.queue.drop_first(),
                streams: s.streams.remove(r.peer_name),
                visitors: s.visitors,
            },
            Some((r, s.streams[r.peer_name])),
        )
    }
}

/// What the server sends back on a connection, or that it has queued it.
pub enum Reply {
    /// A whole answer, after which the connection is closed.
    Page(String),
    /// The page at this path, with its embedded commands run.
    Dynamic(String),
    /// The request waits in the static-file queue.
    Queued,
}

/// What happens on the server.
pub enum ServerEvent {
    /// A connection was accepted.
    Connected,
    /// A request for `path` (`full_path` once joined to the served
    /// directory) came on connection `stream` from `peer_name`; `found` and
    /// `is_dir` say what is there.
    Request {
        stream: u64,
        peer_name: String,
        path: String,
        full_path: String,
        found: bool,
        is_dir: bool,
    },
    /// The responder was told that a request was queued.
    Notify,
}

/// What the server is to do next.
pub enum ServerAction {
    /// Nothing.
    Idle,
    /// Answer connection `stream` as `reply` says.
    Reply { stream: u64, reply: Reply },
    /// Send the file that `request` asks for on connection `conn`.
    Serve { request: HTTP_Request, conn: u64 },
}

/// The web server's state.
pub struct WebServer {
    pub ip: String,
    pub port: usize,
    pub www_dir_path: String,
    pub request_queue: Vec<HTTP_Request>,
    pub stream_map: StringMap<u64>,
    pub visitor_count: usize,
}

impl WebServer {
    /// The abstract state of the server.
    pub open spec fn state(&self) -> ServerState {
        ServerState {
            queue: self.request_queue@.map_values(|r: HTTP_Request| r@),
            streams: self.stream_map@,
            visitors: self.visitor_count as nat,
        }
    }

    /// The server's internal tables are consistent.
    pub open spec fn wf(&self) -> bool {
        self.stream_map.wf()
    }

    /// A server for the given address and directory, with no visits and
    /// nothing queued.
    pub fn new(ip: String, port: usize, www_dir: String) -> (s: WebServer)
        ensures
            s.wf(),
            s.ip == ip,
            s.port == port,
            s.www_dir_path == www_dir,
            s.state() == (ServerState {
                queue: Seq::empty(),
                streams: Map::empty(),
                visitors: 0,
            }),
    {
        let s = WebServer {
            ip,
            port,
            www_dir_path: www_dir,
            request_queue: Vec::new(),
            stream_map: StringMap::new(),
            visitor_count: 0,
        };
        assert(s.state().queue =~= Seq::<RequestView>::empty());
        s
    }

    /// The number of visits so far.
    pub fn visitor_count(&self) -> (n: usize)
        ensures
            n == self.state().visitors,
    {
        self.visitor_count
    }

    /// Counts a visit.
    pub fn record_visit(&mut self) -> (n: usize)
        requires
            old(self).state().visitors < usize::MAX,
        ensures
            final(self).wf() == old(self).wf(),
            final(self).state() == (ServerState { visitors: old(self).state().visitors + 1, ..old(self).state() }),
            n == final(self).state().visitors,
            final(self).ip == old(self).ip && final(self).port == old(self).port
                && final(self).www_dir_path == old(self).www_dir_path,
    {
        self.visitor_count = self.visitor_count + 1;
        self.visitor_count
    }

    /// The name of a connection's peer.
    pub fn get_peer_name(ip: &str, port: u16) -> (r: String)
        ensures
            r@ == ip@ + seq![':'] + decimal(port as nat),
    {
        http::get_peer_name(ip, port)
    }

    /// The answer for something that cannot be served.
    pub fn respond_with_error_page(path: &str) -> (r: String)
        ensures
            r@ == http::HTTP_BAD@ + http::CANNOT_OPEN@ + path@,
    {
        http::respond_with_error_page(path)
    }

    /// The visitor-counter page, with the visits counted so far.
    pub fn respond_with_counter_page(&self) -> (r: String)
        ensures
            r@ == http::HTTP_OK@ + http::COUNTER_STYLE@ + http::COUNTER_HEAD@ + decimal(
                self.state().visitors,
            ) + http::COUNTER_TAIL@,
    {
        http::respond_with_counter_page(self.visitor_count as u64)
    }

    /// The answer that carries a file.
    pub fn respond_with_static_file(contents: &[u8]) -> (r: Vec<u8>)
        ensures
            r@ == http::HTTP_OK.spec_bytes() + contents@,
    {
        http::respond_with_static_file(contents)
    }

    /// The answer for a dynamic page: this server sends the file as it is.
    pub fn respond_with_dynamic_page(contents: &[u8]) -> (r: Vec<u8>)
        ensures
            r@ == http::HTTP_OK.spec_bytes() + contents@,
    {
        http::respond_with_static_file(contents)
    }

    /// Keeps the connection of a static-file request and queues the request.
    pub fn enqueue_static_file_request(&mut self, stream: u64, peer_name: String, path: String)
        requires
            old(self).wf(),
        ensures
            final(self).wf(),
            final(self).state() == enqueue_spec(
                old(self).state(),
                stream,
                RequestView { peer_name: peer_name@, path: path@ },
            ),
            final(self).ip == old(self).ip && final(self).port == old(self).port
                && final(self).www_dir_path == old(self).www_dir_path,
    {
        let key = peer_name.clone();
        self.stream_map.insert(key, stream);
        let req = HTTP_Request { peer_name, path };
        let ghost old_queue = self.request_queue@;
        self.request_queue.push(req);
        assert(self.state().queue =~= old(self).state().queue.push(req@));
    }

    /// Whether the request served next (if any) still has its connection.
    pub fn next_request_has_connection(&self) -> (b: bool)
        requires
            self.wf(),
        ensures
            b == next_has_connection(self.state()),
    {
        if self.request_queue.len() == 0 {
            return true;
        }
        self.stream_map.contains(&self.request_queue[0].peer_name)
    }

    /// Takes the request at the front of the queue, with its connection.
    pub fn dequeue_static_file_request(&mut self) -> (r: Option<(HTTP_Request, u64)>)
        requires
            old(self).wf(),
            next_has_connection(old(self).state()),
        ensures
            final(self).wf(),
            (final(self).state(), match r {
                Some((req, st)) => Some((req@, st)),
                None => None,
            }) == dequeue_spec(old(self).state()),
            final(self).ip == old(self).ip && final(self).port == old(self).port
                && final(self).www_dir_path == old(self).www_dir_path,
    {
        if self.request_queue.len() == 0 {
            return None;
        }
        let req = self.request_queue.remove(0);
        assert(self.state().queue =~= old(self).state().queue.drop_first());
        match self.stream_map.remove(&req.peer_name) {
            Some(stream) => Some((req, stream)),
            None => {
                assert(false);
                None
            },
        }
    }

    /// Reacts to one event: counts visits, answers or queues requests, and
    /// hands queued requests to the responder.
    pub fn run(&mut self, event: ServerEvent) -> (a: ServerAction)
        requires
            old(self).wf(),
            event is Connected ==> old(self).state().visitors < usize::MAX,
            event is Notify ==> next_has_connection(old(self).state()),
        ensures
            final(self).wf(),
            final(self).ip == old(self).ip && final(self).port == old(self).port
                && final(self).www_dir_path == old(self).www_dir_path,
            match event {
                ServerEvent::Connected => a is Idle && final(self).state() == connect_spec(
                    old(self).state(),
                ),
                ServerEvent::Request { stream, peer_name, path, full_path, found, is_dir } => {
                    let s = old(self).state();
                    match route_of(path@, full_path@, found, is_dir) {
                        Route::Counter => {
                            &&& final(self).state() == s
                            &&& (a matches ServerAction::Reply { stream: st, reply: Reply::Page(p) }
                                && st == stream && p@ == http::HTTP_OK@ + http::COUNTER_STYLE@
                                + http::COUNTER_HEAD@ + decimal(s.visitors) + http::COUNTER_TAIL@)
                        },
                        Route::Error => {
                            &&& final(self).state() == s
                            &&& (a matches ServerAction::Reply { stream: st, reply: Reply::Page(p) }
                                && st == stream && p@ == http::HTTP_BAD@ + http::CANNOT_OPEN@
                                + full_path@)
                        },
                        Route::Dynamic => {
                            &&& final(self).state() == s
                            &&& (a matches ServerAction::Reply {
                                stream: st,
                                reply: Reply::Dynamic(p),
                            } && st == stream && p@ == full_path@)
                        },
                        Route::Static => {
                            &&& (a matches ServerAction::Reply { stream: st, reply: Reply::Queued }
                                && st == stream)
                            &&& final(self).state() == enqueue_spec(
                                s,
                                stream,
                                RequestView { peer_name: peer_name@, path: full_path@ },
                            )
                        },
                    }
                },
                ServerEvent::Notify => {
                    let (s2, out) = dequeue_spec(old(self).state());
                    &&& final(self).state() == s2
                    &&& match out {
                        None => a is Idle,
                        Some((r, st)) => (a matches ServerAction::Serve { request, conn }
                            && request@ == r && conn == st),
                    }
                },
            },
    {
        match event {
            ServerEvent::Connected => {
                self.record_visit();
                ServerAction::Idle
            },
            ServerEvent::Request { stream, peer_name, path, full_path, found, is_dir } => {
                match http::route(path.as_str(), full_path.as_str(), found, is_dir) {
                    Route::Counter => ServerAction::Reply {
                        stream,
                        reply: Reply::Page(self.respond_with_counter_page()),
                    },
                    Route::Error => ServerAction::Reply {
                        stream,
                        reply: Reply::Page(Self::respond_with_error_page(full_path.as_str())),
                    },
                    Route::Dynamic => ServerAction::Reply { stream, reply: Reply::Dynamic(full_path) },
                    Route::Static => {
                        self.enqueue_static_file_request(stream, peer_name, full_path);
                        ServerAction::Reply { stream, reply: Reply::Queued }
                    },
                }
            },
            ServerEvent::Notify => match self.dequeue_static_file_request() {
                None => ServerAction::Idle,
                Some((request, conn)) => ServerAction::Serve { request, conn },
            },
        }
    }
}

} // verus!

verus! {

/// Requests are served in the order they came: a request queued behind
/// others does not overtake them, and the queue goes on in the same order.
pub proof fn lemma_first_come_first_served(s: ServerState, stream: u64, r: RequestView)
    requires
        s.queue.len() > 0,
    ensures
        ({
            let (s2, out) = dequeue_spec(enqueue_spec(s, stream, r));
            &&& out matches Some((first, _)) && first == s.queue[0]
            &&& s2.queue == s.queue.drop_first().push(r)
        }),
{
    assert(s.queue.push(r).drop_first() =~= s.queue.drop_first().push(r));
}

/// One operation on the static-file queue: a request queued with its
/// connection, or the responder taking the next request.
pub enum QueueOp {
    Enqueue(u64, RequestView),
    Dequeue,
}

/// The state after one queue operation, and the requests it served.
pub open spec fn queue_step(s: ServerState, op: QueueOp) -> (ServerState, Seq<RequestView>) {
    match op {
        QueueOp::Enqueue(stream, r) => (enqueue_spec(s, stream, r), Seq::empty()),
        QueueOp::Dequeue => {
            let (s2, out) = dequeue_spec(s);
            (
                s2,
                match out {
                    Some((r, _)) => seq![r],
                    None => Seq::empty(),
                },
            )
        },
    }
}

/// The state after a run of queue operations, and the requests served, in
/// the order they were served.
pub open spec fn queue_run(s: ServerState, ops: Seq<QueueOp>) -> (ServerState, Seq<RequestView>)
    decreases ops.len(),
{
    if ops.len() == 0 {
        (s, Seq::empty())
    } else {
        let (s1, served) = queue_run(s, ops.drop_last());
        let (s2, more) = queue_step(s1, ops.last());
        (s2, served + more)
    }
}

/// The requests queued by a run of operations, in order.
pub open spec fn queued_by(ops: Seq<QueueOp>) -> Seq<RequestView>
    decreases ops.len(),
{
    if ops.len() == 0 {
        Seq::empty()
    } else {
        queued_by(ops.drop_last()) + match ops.last() {
            QueueOp::Enqueue(_, r) => seq![r],
            QueueOp::Dequeue => Seq::<RequestView>::empty(),
        }
    }
}

/// Whatever the requests and however queuing and serving interleave,
/// requests are served in the order in which they came, none twice and
/// none skipped: the requests served, followed by those still waiting, are
/// those that were waiting at the start followed by those queued since.
/// So the served ones are a prefix of that order, and after as many
/// dequeues as there were requests, all of them, in that order.
pub proof fn lemma_served_in_arrival_order(s: ServerState, ops: Seq<QueueOp>)
    ensures
        ({
            let (s2, served) = queue_run(s, ops);
            served + s2.queue == s.queue + queued_by(ops)
        }),
    decreases ops.len(),
{
    if ops.len() > 0 {
        let front = ops.drop_last();
        lemma_served_in_arrival_order(s, front);
        let (s1, served) = queue_run(s, front);
        match ops.last() {
            QueueOp::Enqueue(stream, r) => {
                assert(served + s1.queue.push(r) =~= (served + s1.queue).push(r));
                assert(s.queue + (queued_by(front) + seq![r]) =~= (s.queue + queued_by(
                    front,
                )).push(r));
            },
            QueueOp::Dequeue => {
                if s1.queue.len() > 0 {
                    assert((served + seq![s1.queue[0]]) + s1.queue.drop_first() =~= served
                        + s1.queue);
                }
                assert(queued_by(ops) =~= queued_by(front));
            },
        }
    }
}

/// A request queued on an idle server is the next one served, on the
/// connection it came with, and the server then keeps no connection under
/// that peer's name.
pub proof fn lemma_request_gets_its_connection(s: ServerState, stream: u64, r: RequestView)
    requires
        s.queue.len() == 0,
    ensures
        ({
            let (s2, out) = dequeue_spec(enqueue_spec(s, stream, r));
            &&& out == Some((r, stream))
            &&& s2.queue.len() == 0
            &&& s2.streams == s.streams.remove(r.peer_name)
            &&& s2.visitors == s.visitors
        }),
{
    assert(s.queue.push(r).drop_first() =~= Seq::<RequestView>::empty());
    assert(s.streams.insert(r.peer_name, stream).remove(r.peer_name) =~= s.streams.remove(
        r.peer_name,
    ));
}

} // verus!

verus! {

/// The state after one more accepted connection is counted.
pub open spec fn connect_spec(s: ServerState) -> ServerState {
    ServerState { visitors: s.visitors + 1, ..s }
}

/// The state after `n` more accepted connections are counted.
pub open spec fn connected_times(s: ServerState, n: nat) -> ServerState
    decreases n,
{
    if n == 0 {
        s
    } else {
        connect_spec(connected_times(s, (n - 1) as nat))
    }
}

/// Every accepted connection is counted exactly once: after `n`
/// connections the count has grown by `n` and nothing else has changed, so
/// the `k`-th connection gets the number that precedes the count by
/// `n - k`, and numbers grow with the order of acceptance.
pub proof fn lemma_visits_counted(s: ServerState, n: nat)
    ensures
        connected_times(s, n) == (ServerState { visitors: s.visitors + n, ..s }),
        forall|j: nat, k: nat|
            j < k <= n ==> #[trigger] connected_times(s, j).visitors < #[trigger] connected_times(
                s,
                k,
            ).visitors,
    decreases n,
{
    if n > 0 {
        lemma_visits_counted(s, (n - 1) as nat);
    }
    assert forall|j: nat, k: nat| j < k <= n implies #[trigger] connected_times(s, j).visitors
        < #[trigger] connected_times(s, k).visitors by {
        lemma_visits_counted_at(s, j);
        lemma_visits_counted_at(s, k);
    }
}

proof fn lemma_visits_counted_at(s: ServerState, n: nat)
    ensures
        connected_times(s, n).visitors == s.visitors + n,
    decreases n,
{
    if n > 0 {
        lemma_visits_counted_at(s, (n - 1) as nat);
    }
}

} // verus!
