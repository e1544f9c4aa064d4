//! The second Zhtta web server: static files are answered smallest first by
//! at most `THREAD_LIMIT` workers, files read from disk are cached, and
//! `.shtml` pages run the shell commands they embed.
use vstd::prelude::*;
use vstd::string::StringSliceAdditionalSpecFns;

use crate::http;
use crate::http::{route_of, Route};
use crate::table::StringMap;
use crate::text::{
    chars_of, decimal, find_pattern, find_str, lemma_find_str_at, lemma_find_str_none, occurs_at,
    split_chars, split_on, string_of, views,
};
use crate::zhtta::Reply;

verus! {

/// The most workers that answer static-file requests at a time.
pub const THREAD_LIMIT: usize = 30;

/// A request for a static file, waiting for its turn, with the size of the
/// file.
pub struct HTTP_Request {
    pub peer_name: String,
    pub path: String,
    pub size: u64,
}

/// The meaning of a queued request.
pub struct RequestView {
    pub peer_name: Seq<char>,
    pub path: Seq<char>,
    pub size: u64,
}

impl View for HTTP_Request {
    type V = RequestView;

    open spec fn view(&self) -> RequestView {
        RequestView { peer_name: self.peer_name@, path: self.path@, size: self.size }
    }
}

/// The position of the request that is answered first: the first of the
/// smallest files.
pub open spec fn min_index(q: Seq<RequestView>) -> int
    decreases q.len(),
{
    if q.len() <= 1 {
        0
    } else {
        let m = min_index(q.drop_last());
        if q.last().size < q[m].size {
            q.len() - 1
        } else {
            m
        }
    }
}

/// The state of the server.
pub struct ServerState {
    pub queue: Seq<RequestView>,
    pub streams: Map<Seq<char>, u64>,
    pub visitors: nat,
    pub cache: Map<Seq<char>, Seq<u8>>,
    pub reading: Set<Seq<char>>,
    pub workers: nat,
}

/// The state after a static-file request is queued.
pub open spec fn enqueue_spec(s: ServerState, stream: u64, r: RequestView) -> ServerState {
    ServerState {
        queue: s.queue.push(r),
        streams: s.streams.insert(r.peer_name, stream),
        ..s
    }
}

/// The connection of the request that is served next is kept: a request
/// whose connection is missing cannot be served.
pub open spec fn next_has_connection(s: ServerState) -> bool {
    s.queue.len() > 0 ==> s.streams.contains_key(s.queue[min_index(s.queue)].peer_name)
}

/// The state after the request for the smallest file is taken, with that
/// request and the connection kept under its peer's name.
pub open spec fn dequeue_spec(s: ServerState) -> (ServerState, Option<(RequestView, u64)>) {
    if s.queue.len() == 0 {
        (s, None)
    } else {
        let i = min_index(s.queue);
        let r = s.queue[i];
        (
            ServerState {
                queue: s.queue.remove(i),
                streams: s.streams.remove(r.peer_name),
                ..s
            },
            Some((r, s.streams[r.peer_name])),
        )
    }
}

/// How a worker answers a request for the file at `path`, and the state
/// after it decided: from the cache if the file is there; else by waiting
/// if another worker is reading it; else by reading it, marked as being
/// read.
pub open spec fn static_step_spec(s: ServerState, path: Seq<char>) -> (ServerState, StaticStep) {
    if s.cache.contains_key(path) {
        (s, StaticStep::FromCache)
    } else if s.reading.contains(path) {
        (s, StaticStep::Wait)
    } else {
        (ServerState { reading: s.reading.insert(path), ..s }, StaticStep::FromDisk)
    }
}

/// The state after the file at `path`, read from disk, is stored in the
/// cache: it is no longer being read.
pub open spec fn finish_reading_spec(s: ServerState, path: Seq<char>, contents: Seq<u8>) -> ServerState {
    ServerState { cache: s.cache.insert(path, contents), reading: s.reading.remove(path), ..s }
}

/// How a worker answers a static-file request.
pub enum StaticStep {
    /// The file is in the cache.
    FromCache,
    /// Another worker is reading the file: ask again later.
    Wait,
    /// Read the file from disk (it is now marked as being read), then store
    /// it with `finish_reading`.
    FromDisk,
}

/// What happens on the server.
pub enum ServerEvent {
    /// A connection was accepted.
    Connected,
    /// A request for `path` (`full_path` once joined to the served
    /// directory) came on connection `stream` from `peer_name` as the
    /// `visit`-th visit; `found`, `is_dir` and `size` say what is there.
    Request {
        stream: u64,
        peer_name: String,
        path: String,
        full_path: String,
        found: bool,
        is_dir: bool,
        size: u64,
        visit: usize,
    },
    /// The responder was told that a request was queued.
    Notify,
}

/// What the server is to do next.
pub enum ServerAction {
    /// A connection was counted as this visit.
    Counted(usize),
    /// Nothing.
    Idle,
    /// Answer connection `stream` as `reply` says.
    Reply { stream: u64, reply: Reply },
    /// Send the file that `request` asks for on connection `conn`.
    Serve { request: HTTP_Request, conn: u64 },
}

/// The web server's state.
pub struct WebServer {
    pub ip: String,
    pub port: usize,
    pub www_dir_path: String,
    pub request_queue: Vec<HTTP_Request>,
    pub stream_map: StringMap<u64>,
    pub visits: usize,
    pub cached_files: StringMap<Vec<u8>>,
    pub being_read: StringMap<()>,
    pub thread_count: usize,
}

impl WebServer {
    /// The abstract state of the server.
    pub open spec fn state(&self) -> ServerState {
        ServerState {
            queue: self.request_queue@.map_values(|r: HTTP_Request| r@),
            streams: self.stream_map@,
            visitors: self.visits as nat,
            cache: self.cached_files@.map_values(|v: Vec<u8>| v@),
            reading: self.being_read@.dom(),
            workers: self.thread_count as nat,
        }
    }

    /// The server's tables are consistent and no more than `THREAD_LIMIT`
    /// workers run.
    pub open spec fn wf(&self) -> bool {
        &&& self.stream_map.wf()
        &&& self.cached_files.wf()
        &&& self.being_read.wf()
        &&& self.thread_count <= THREAD_LIMIT
    }

    /// The configuration of the server.
    pub open spec fn config(&self) -> (String, usize, String) {
        (self.ip, self.port, self.www_dir_path)
    }

    /// A server for the given address and directory, with no visits,
    /// nothing queued, nothing cached and no worker.
    pub fn new(ip: String, port: usize, www_dir: String) -> (s: WebServer)
        ensures
            s.wf(),
            s.config() == (ip, port, www_dir),
            s.state() == (ServerState {
                queue: Seq::empty(),
                streams: Map::empty(),
                visitors: 0,
                cache: Map::empty(),
                reading: Set::empty(),
                workers: 0,
            }),
    {
        let s = WebServer {
            ip,
            port,
            www_dir_path: www_dir,
            request_queue: Vec::new(),
            stream_map: StringMap::new(),
            visits: 0,
            cached_files: StringMap::new(),
            being_read: StringMap::new(),
            thread_count: 0,
        };
        assert(s.state().queue =~= Seq::<RequestView>::empty());
        assert(s.state().cache =~= Map::<Seq<char>, Seq<u8>>::empty());
        assert(s.state().reading =~= Set::<Seq<char>>::empty());
        s
    }

    /// Counts an accepted connection, giving its number.
    pub fn record_visit(&mut self) -> (n: usize)
        requires
            old(self).state().visitors < usize::MAX,
        ensures
            final(self).wf() == old(self).wf(),
            final(self).config() == old(self).config(),
            final(self).state() == (ServerState { visitors: old(self).state().visitors + 1, ..old(self).state() }),
            n == final(self).state().visitors,
    {
        self.visits = self.visits + 1;
        self.visits
    }

    /// The name of a connection's peer.
    pub fn get_peer_name(ip: &str, port: u16) -> (r: String)
        ensures
            r@ == ip@ + seq![':'] + decimal(port as nat),
    {
        http::get_peer_name(ip, port)
    }

    /// The answer for something that cannot be served.
    pub fn respond_with_error_page(path: &str) -> (r: String)
        ensures
            r@ == http::HTTP_BAD@ + http::CANNOT_OPEN@ + path@,
    {
        http::respond_with_error_page(path)
    }

    /// The visitor-counter page for the given visit.
    pub fn respond_with_counter_page(local_count: usize) -> (r: String)
        ensures
            r@ == http::HTTP_OK@ + http::COUNTER_STYLE@ + http::COUNTER_HEAD@ + decimal(
                local_count as nat,
            ) + http::COUNTER_TAIL@,
    {
        http::respond_with_counter_page(local_count as u64)
    }

    /// Keeps the connection of a static-file request and queues the request.
    pub fn enqueue_static_file_request(
        &mut self,
        stream: u64,
        peer_name: String,
        path: String,
        size: u64,
    )
        requires
            old(self).wf(),
        ensures
            final(self).wf(),
            final(self).config() == old(self).config(),
            final(self).state() == enqueue_spec(
                old(self).state(),
                stream,
                RequestView { peer_name: peer_name@, path: path@, size },
            ),
    {
        let key = peer_name.clone();
        self.stream_map.insert(key, stream);
        let req = HTTP_Request { peer_name, path, size };
        self.request_queue.push(req);
        assert(self.state().queue =~= old(self).state().queue.push(req@));
    }

    /// The position of the request served next: the first of those for the
    /// smallest file.
    fn smallest_request_index(&self) -> (best: usize)
        requires
            self.request_queue@.len() > 0,
        ensures
            best as int == min_index(self.state().queue),
            best < self.request_queue@.len(),
    {
        let n = self.request_queue.len();
        let ghost q = self.state().queue;
        let mut best: usize = 0;
        let mut i: usize = 1;
        assert(q.take(1).len() <= 1);
        while i < n
            invariant
                1 <= i <= n == self.request_queue@.len(),
                q == self.request_queue@.map_values(|r: HTTP_Request| r@),
                best < i,
                best as int == min_index(q.take(i as int)),
            decreases n - i,
        {
            proof {
                assert(q.take(i + 1).drop_last() =~= q.take(i as int));
                assert(q.take(i + 1).last() == q[i as int]);
                assert(q.take(i + 1)[best as int] == q[best as int]);
            }
            if self.request_queue[i].size < self.request_queue[best].size {
                best = i;
            }
            i += 1;
        }
        assert(q.take(n as int) =~= q);
        best
    }

    /// Whether the request served next (if any) still has its connection.
    pub fn next_request_has_connection(&self) -> (b: bool)
        requires
            self.wf(),
        ensures
            b == next_has_connection(self.state()),
    {
        if self.request_queue.len() == 0 {
            return true;
        }
        let best = self.smallest_request_index();
        self.stream_map.contains(&self.request_queue[best].peer_name)
    }

    /// Takes the request for the smallest file, with its connection.
    pub fn dequeue_static_file_request(&mut self) -> (r: Option<(HTTP_Request, u64)>)
        requires
            old(self).wf(),
            next_has_connection(old(self).state()),
        ensures
            final(self).wf(),
            final(self).config() == old(self).config(),
            (final(self).state(), match r {
                Some((req, st)) => Some((req@, st)),
                None => None,
            }) == dequeue_spec(old(self).state()),
    {
        let n = self.request_queue.len();
        if n == 0 {
            return None;
        }
        let ghost q = old(self).state().queue;
        let best = self.smallest_request_index();
        let req = self.request_queue.remove(best);
        assert(self.state().queue =~= q.remove(best as int));
        match self.stream_map.remove(&req.peer_name) {
            Some(stream) => Some((req, stream)),
            None => {
                assert(false);
                None
            },
        }
    }

    /// Whether another worker may start.
    pub fn can_start_worker(&self) -> (b: bool)
        ensures
            b == (self.state().workers < THREAD_LIMIT),
    {
        self.thread_count < THREAD_LIMIT
    }

    /// Counts a worker that starts.
    pub fn worker_started(&mut self)
        requires
            old(self).wf(),
            old(self).state().workers < THREAD_LIMIT,
        ensures
            final(self).wf(),
            final(self).config() == old(self).config(),
            final(self).state() == (ServerState { workers: old(self).state().workers + 1, ..old(self).state() }),
    {
        self.thread_count = self.thread_count + 1;
    }

    /// Counts a worker that is done.
    pub fn worker_finished(&mut self)
        requires
            old(self).wf(),
            old(self).state().workers > 0,
        ensures
            final(self).wf(),
            final(self).config() == old(self).config(),
            final(self).state() == (ServerState { workers: (old(self).state().workers - 1) as nat, ..old(self).state() }),
    {
        self.thread_count = self.thread_count - 1;
    }

    /// Decides how a worker answers a request for the file at `path`: from
    /// the cache, by waiting for another worker that reads it, or by reading
    /// it from disk (marking it as being read).
    pub fn respond_with_static_file(&mut self, path: &String) -> (step: StaticStep)
        requires
            old(self).wf(),
        ensures
            final(self).wf(),
            final(self).config() == old(self).config(),
            (final(self).state(), step) == static_step_spec(old(self).state(), path@),
    {
        if self.cached_files.contains(path) {
            StaticStep::FromCache
        } else if self.being_read.contains(path) {
            StaticStep::Wait
        } else {
            self.being_read.insert(path.clone(), ());
            assert(self.state().reading =~= old(self).state().reading.insert(path@));
            StaticStep::FromDisk
        }
    }

    /// The cached contents of the file at `path`, if any.
    pub fn cached_file(&self, path: &String) -> (r: Option<&Vec<u8>>)
        requires
            self.wf(),
        ensures
            match r {
                Some(c) => self.state().cache.contains_key(path@) && self.state().cache[path@]
                    == c@,
                None => !self.state().cache.contains_key(path@),
            },
    {
        self.cached_files.get(path)
    }

    /// Stores the contents of a file just read from disk in the cache; the
    /// file is no longer being read.
    pub fn finish_reading(&mut self, path: String, contents: Vec<u8>)
        requires
            old(self).wf(),
        ensures
            final(self).wf(),
            final(self).config() == old(self).config(),
            final(self).state() == finish_reading_spec(old(self).state(), path@, contents@),
    {
        let ghost c = contents@;
        let _ = self.being_read.remove(&path);
        self.cached_files.insert(path, contents);
        assert(self.state().cache =~= old(self).state().cache.insert(path@, c));
        assert(self.state().reading =~= old(self).state().reading.remove(path@));
    }

    /// The answer that carries a file.
    pub fn static_file_response(contents: &[u8]) -> (r: Vec<u8>)
        ensures
            r@ == http::HTTP_OK.spec_bytes() + contents@,
    {
        http::respond_with_static_file(contents)
    }

    /// Reacts to one event: counts visits, answers or queues requests, and
    /// hands the request for the smallest queued file to the responder.
    pub fn run(&mut self, event: ServerEvent) -> (a: ServerAction)
        requires
            old(self).wf(),
            event is Connected ==> old(self).state().visitors < usize::MAX,
            event is Notify ==> next_has_connection(old(self).state()),
        ensures
            final(self).wf(),
            final(self).config() == old(self).config(),
            match event {
                ServerEvent::Connected => {
                    &&& final(self).state() == connect_spec(old(self).state())
                    &&& (a matches ServerAction::Counted(n) && n == final(self).state().visitors)
                },
                ServerEvent::Request {
                    stream,
                    peer_name,
                    path,
                    full_path,
                    found,
                    is_dir,
                    size,
                    visit,
                } => {
                    let s = old(self).state();
                    match route_of(path@, full_path@, found, is_dir) {
                        Route::Counter => {
                            &&& final(self).state() == s
                            &&& (a matches ServerAction::Reply { stream: st, reply: Reply::Page(p) }
                                && st == stream && p@ == http::HTTP_OK@ + http::COUNTER_STYLE@
                                + http::COUNTER_HEAD@ + decimal(visit as nat)
                                + http::COUNTER_TAIL@)
                        },
                        Route::Error => {
                            &&& final(self).state() == s
                            &&& (a matches ServerAction::Reply { stream: st, reply: Reply::Page(p) }
                                && st == stream && p@ == http::HTTP_BAD@ + http::CANNOT_OPEN@
                                + full_path@)
                        },
                        Route::Dynamic => {
                            &&& final(self).state() == s
                            &&& (a matches ServerAction::Reply {
                                stream: st,
                                reply: Reply::Dynamic(p),
                            } && st == stream && p@ == full_path@)
                        },
                        Route::Static => {
                            &&& (a matches ServerAction::Reply { stream: st, reply: Reply::Queued }
                                && st == stream)
                            &&& final(self).state() == enqueue_spec(
                                s,
                                stream,
                                RequestView { peer_name: peer_name@, path: full_path@, size },
                            )
                        },
                    }
                },
                ServerEvent::Notify => {
                    let (s2, out) = dequeue_spec(old(self).state());
                    &&& final(self).state() == s2
                    &&& match out {
                        None => a is Idle,
                        Some((r, st)) => (a matches ServerAction::Serve { request, conn }
                            && request@ == r && conn == st),
                    }
                },
            },
    {
        match event {
            ServerEvent::Connected => ServerAction::Counted(self.record_visit()),
            ServerEvent::Request { stream, peer_name, path, full_path, found, is_dir, size, visit } => {
                match http::route(path.as_str(), full_path.as_str(), found, is_dir) {
                    Route::Counter => ServerAction::Reply {
                        stream,
                        reply: Reply::Page(Self::respond_with_counter_page(visit)),
                    },
                    Route::Error => ServerAction::Reply {
                        stream,
                        reply: Reply::Page(Self::respond_with_error_page(full_path.as_str())),
                    },
                    Route::Dynamic => ServerAction::Reply { stream, reply: Reply::Dynamic(full_path) },
                    Route::Static => {
                        self.enqueue_static_file_request(stream, peer_name, full_path, size);
                        ServerAction::Reply { stream, reply: Reply::Queued }
                    },
                }
            },
            ServerEvent::Notify => match self.dequeue_static_file_request() {
                None => ServerAction::Idle,
                Some((request, conn)) => ServerAction::Serve { request, conn },
            },
        }
    }
}

} // verus!

verus! {

/// The marker that opens an embedded shell command.
pub open spec fn exec_marker() -> Seq<char> {
    seq!['<', '!', '-', '-', '#', 'e', 'x', 'e', 'c']
}

/// The marker that closes an HTML comment.
pub open spec fn comment_end() -> Seq<char> {
    seq!['-', '-', '>']
}

/// A line of a dynamic page, as the server sends it.
pub enum DynamicLine {
    /// A line without embedded command, sent as it is.
    Plain(String),
    /// A line with an embedded command: the text before the first marker,
    /// the command (between the first two double quotes of its directive),
    /// and the piece of the line between its second and third markers,
    /// which is sent after the command's output (empty when the line has a
    /// single marker).
    Exec { before: String, command: String, after: String },
}

/// The meaning of a [`DynamicLine`].
pub enum DynamicLineSpec {
    Plain(Seq<char>),
    Exec { before: Seq<char>, command: Seq<char>, after: Seq<char> },
}

impl View for DynamicLine {
    type V = DynamicLineSpec;

    open spec fn view(&self) -> DynamicLineSpec {
        match self {
            DynamicLine::Plain(l) => DynamicLineSpec::Plain(l@),
            DynamicLine::Exec { before, command, after } => DynamicLineSpec::Exec {
                before: before@,
                command: command@,
                after: after@,
            },
        }
    }
}

/// The text up to the first occurrence of `pat`, or all of it.
pub open spec fn before_first(s: Seq<char>, pat: Seq<char>) -> Seq<char> {
    match find_str(s, pat) {
        Some(k) => s.take(k),
        None => s,
    }
}

/// The body of a directive, where its command is looked for: the text after
/// the marker up to the next marker, and within it up to the first `-->`.
pub open spec fn directive_body(rest: Seq<char>) -> Seq<char> {
    before_first(before_first(rest, exec_marker()), comment_end())
}

/// The piece of the line between the second and the third marker, given
/// the text after the first marker (empty when there is no second marker).
pub open spec fn trailing_piece(rest: Seq<char>) -> Seq<char> {
    match find_str(rest, exec_marker()) {
        Some(k) => before_first(rest.skip(k + exec_marker().len()), exec_marker()),
        None => Seq::empty(),
    }
}

/// The pieces of the body of a directive between double quotes; the
/// command is the second one.
pub open spec fn directive_quotes(l: Seq<char>, i: int) -> Seq<Seq<char>> {
    split_on(directive_body(l.skip(i + exec_marker().len())), '"')
}

/// The first command marker of the line is followed by a quoted command:
/// its directive holds a double quote. (A line where it does not cannot be
/// sent.)
pub open spec fn dynamic_line_ok(l: Seq<char>) -> bool {
    match find_str(l, exec_marker()) {
        Some(i) => directive_quotes(l, i).len() > 1,
        None => true,
    }
}

/// How a line of a dynamic page is sent: as it is when it has no command
/// marker; else the text before the first marker, the command between the
/// first two double quotes of its directive, and the piece of the line
/// between its second and third markers.
pub open spec fn dynamic_line_spec(l: Seq<char>) -> DynamicLineSpec {
    match find_str(l, exec_marker()) {
        None => DynamicLineSpec::Plain(l),
        Some(i) => DynamicLineSpec::Exec {
            before: l.take(i),
            command: directive_quotes(l, i)[1],
            after: trailing_piece(l.skip(i + exec_marker().len())),
        },
    }
}

/// The text of `v` up to the first occurrence of `pat`, or all of it.
fn text_before(v: &Vec<char>, pat: &Vec<char>) -> (r: Vec<char>)
    ensures
        r@ == before_first(v@, pat@),
{
    match find_pattern(v, pat) {
        Some(k) => {
            let s = string_of(v, 0, k);
            let r = chars_of(s.as_str());
            assert(r@ =~= v@.take(k as int));
            r
        },
        None => v.clone(),
    }
}

/// The parts of a line around its first command marker: its position, the
/// body of the directive and the piece between the second and third markers.
fn directive_of(v: &Vec<char>) -> (r: Option<(usize, String, String)>)
    ensures
        match r {
            None => find_str(v@, exec_marker()) is None,
            Some((i, body, after)) => find_str(v@, exec_marker()) == Some(i as int) && i
                + exec_marker().len() <= v@.len() && body@ == directive_body(
                v@.skip(i + exec_marker().len()),
            ) && after@ == trailing_piece(v@.skip(i + exec_marker().len())),
        },
{
    let marker = chars_of("<!--#exec");
    let end = chars_of("-->");
    proof {
        reveal_strlit("<!--#exec");
        reveal_strlit("-->");
        assert(marker@ =~= exec_marker());
        assert(end@ =~= comment_end());
    }
    let n = v.len();
    match find_pattern(v, &marker) {
        None => None,
        Some(i) => {
            assert(i + marker@.len() <= n);
            let start = i + marker.len();
            let rest_s = string_of(v, start, v.len());
            let rest = chars_of(rest_s.as_str());
            assert(rest@ =~= v@.skip(start as int));
            let after = match find_pattern(&rest, &marker) {
                Some(k) => {
                    let r2_s = string_of(&rest, k + 9, rest.len());
                    let r2 = chars_of(r2_s.as_str());
                    assert(r2@ =~= rest@.skip(k + 9));
                    let piece = text_before(&r2, &marker);
                    string_of(&piece, 0, piece.len())
                },
                None => String::new(),
            };
            let segment = text_before(&rest, &marker);
            let body = text_before(&segment, &end);
            let body_s = string_of(&body, 0, body.len());
            proof {
                assert(body@.subrange(0, body@.len() as int) =~= body@);
            }
            Some((i, body_s, after))
        },
    }
}

/// For a line that cannot be sent (a command marker without a quoted
/// command), the text before the marker, which is sent before the answer
/// breaks off; `None` for a line that can be sent.
pub fn malformed_directive(line: &str) -> (r: Option<String>)
    ensures
        r is None <==> dynamic_line_ok(line@),
        r matches Some(b) ==> find_str(line@, exec_marker()) matches Some(i) && b@ == line@.take(i),
{
    let v = chars_of(line);
    match directive_of(&v) {
        None => None,
        Some((i, body, _)) => {
            let bv = chars_of(body.as_str());
            let q = split_chars(&bv, '"');
            if q.len() > 1 {
                None
            } else {
                assert(v@.take(i as int) =~= v@.subrange(0, i as int));
                Some(string_of(&v, 0, i))
            }
        },
    }
}

/// How to send one line of a dynamic page.
pub fn dynamic_line(line: &str) -> (d: DynamicLine)
    requires
        dynamic_line_ok(line@),
    ensures
        d@ == dynamic_line_spec(line@),
{
    let v = chars_of(line);
    match directive_of(&v) {
        None => DynamicLine::Plain(line.to_owned()),
        Some((i, body, after)) => {
            let bv = chars_of(body.as_str());
            let q = split_chars(&bv, '"');
            assert(views(q@)[1] == q@[1]@);
            assert(v@.take(i as int) =~= v@.subrange(0, i as int));
            DynamicLine::Exec { before: string_of(&v, 0, i), command: q[1].clone(), after }
        },
    }
}

/// How to send each line of a dynamic page.
pub fn respond_with_dynamic_page(lines: &Vec<String>) -> (out: Vec<DynamicLine>)
    requires
        forall|i: int| 0 <= i < lines@.len() ==> dynamic_line_ok(#[trigger] lines@[i]@),
    ensures
        out@.len() == lines@.len(),
        forall|i: int| 0 <= i < lines@.len() ==> (#[trigger] out@[i])@ == dynamic_line_spec(
            lines@[i]@,
        ),
{
    let mut out: Vec<DynamicLine> = Vec::new();
    let mut k: usize = 0;
    while k < lines.len()
        invariant
            k <= lines@.len(),
            out@.len() == k,
            forall|i: int| 0 <= i < lines@.len() ==> dynamic_line_ok(#[trigger] lines@[i]@),
            forall|i: int| 0 <= i < k ==> (#[trigger] out@[i])@ == dynamic_line_spec(lines@[i]@),
        decreases lines.len() - k,
    {
        out.push(dynamic_line(lines[k].as_str()));
        k += 1;
    }
    out
}

} // verus!

verus! {

/// The request answered first is one for a smallest file, and the first of
/// those in the queue.
pub proof fn lemma_smallest_first(q: Seq<RequestView>)
    requires
        q.len() > 0,
    ensures
        0 <= min_index(q) < q.len(),
        forall|j: int| 0 <= j < q.len() ==> q[min_index(q)].size <= (#[trigger] q[j]).size,
        forall|j: int| 0 <= j < min_index(q) ==> q[min_index(q)].size < (#[trigger] q[j]).size,
    decreases q.len(),
{
    if q.len() > 1 {
        let d = q.drop_last();
        lemma_smallest_first(d);
        assert forall|j: int| 0 <= j < d.len() implies d[j] == q[j] by {}
    }
}

/// A file stored after it was read is served from the cache, with the
/// contents stored, and is no longer being read.
pub proof fn lemma_stored_file_is_served_from_cache(s: ServerState, path: Seq<char>, contents: Seq<u8>)
    ensures
        ({
            let s2 = finish_reading_spec(s, path, contents);
            &&& static_step_spec(s2, path) == (s2, StaticStep::FromCache)
            &&& s2.cache[path] == contents
            &&& !s2.reading.contains(path)
        }),
{
}

/// While one worker reads a file that is not cached, every other request
/// for it waits; once it is stored, they are served from the cache.
pub proof fn lemma_readers_wait_then_hit(s: ServerState, path: Seq<char>, contents: Seq<u8>)
    requires
        !s.cache.contains_key(path),
        !s.reading.contains(path),
    ensures
        ({
            let (s1, first) = static_step_spec(s, path);
            let (s2, second) = static_step_spec(s1, path);
            let s3 = finish_reading_spec(s2, path, contents);
            &&& first == StaticStep::FromDisk
            &&& second == StaticStep::Wait
            &&& s2 == s1
            &&& static_step_spec(s3, path).1 == StaticStep::FromCache
        }),
{
}

} // verus!

verus! {

/// A request queued on an idle server is the next one served, on the
/// connection it came with.
pub proof fn lemma_request_gets_its_connection(s: ServerState, stream: u64, r: RequestView)
    requires
        s.queue.len() == 0,
    ensures
        ({
            let (s2, out) = dequeue_spec(enqueue_spec(s, stream, r));
            &&& out == Some((r, stream))
            &&& s2.queue.len() == 0
            &&& s2.streams == s.streams.remove(r.peer_name)
        }),
{
    assert(s.queue.push(r).remove(0) =~= Seq::<RequestView>::empty());
    assert(s.streams.insert(r.peer_name, stream).remove(r.peer_name) =~= s.streams.remove(
        r.peer_name,
    ));
}

/// The request taken from the queue is for a file no larger than any
/// other queued file.
pub proof fn lemma_dequeue_takes_smallest(s: ServerState)
    requires
        s.queue.len() > 0,
    ensures
        ({
            let (s2, out) = dequeue_spec(s);
            &&& out matches Some((r, _))
            &&& forall|j: int| 0 <= j < s.queue.len() ==> r.size <= (#[trigger] s.queue[j]).size
            &&& s2.queue.len() == s.queue.len() - 1
        }),
{
    lemma_smallest_first(s.queue);
}

} // verus!

verus! {

/// The state after one more accepted connection is counted.
pub open spec fn connect_spec(s: ServerState) -> ServerState {
    ServerState { visitors: s.visitors + 1, ..s }
}

/// The state after `n` more accepted connections are counted.
pub open spec fn connected_times(s: ServerState, n: nat) -> ServerState
    decreases n,
{
    if n == 0 {
        s
    } else {
        connect_spec(connected_times(s, (n - 1) as nat))
    }
}

/// Every accepted connection is counted exactly once: after `n`
/// connections the count has grown by `n` and nothing else has changed, so
/// the `k`-th connection gets the number that precedes the count by
/// `n - k`, and numbers grow with the order of acceptance.
pub proof fn lemma_visits_counted(s: ServerState, n: nat)
    ensures
        connected_times(s, n) == (ServerState { visitors: s.visitors + n, ..s }),
        forall|j: nat, k: nat|
            j < k <= n ==> #[trigger] connected_times(s, j).visitors < #[trigger] connected_times(
                s,
                k,
            ).visitors,
    decreases n,
{
    if n > 0 {
        lemma_visits_counted(s, (n - 1) as nat);
    }
    assert forall|j: nat, k: nat| j < k <= n implies #[trigger] connected_times(s, j).visitors
        < #[trigger] connected_times(s, k).visitors by {
        lemma_visits_counted_at(s, j);
        lemma_visits_counted_at(s, k);
    }
}

proof fn lemma_visits_counted_at(s: ServerState, n: nat)
    ensures
        connected_times(s, n).visitors == s.visitors + n,
    decreases n,
{
    if n > 0 {
        lemma_visits_counted_at(s, (n - 1) as nat);
    }
}

} // verus!

verus! {

/// Storing a file read from disk only adds it to the cache: every other
/// file stays cached, or not, with the same contents, and the stored file
/// is cached with its contents. Only that file stops being read; the
/// queue, the connections, the count of visits and of workers are left
/// alone.
pub proof fn lemma_storing_keeps_other_files(
    s: ServerState,
    path: Seq<char>,
    contents: Seq<u8>,
    other: Seq<char>,
)
    requires
        other != path,
    ensures
        ({
            let s2 = finish_reading_spec(s, path, contents);
            &&& s2.cache.contains_key(other) == s.cache.contains_key(other)
            &&& s.cache.contains_key(other) ==> s2.cache[other] == s.cache[other]
            &&& s2.cache.contains_key(path)
            &&& s2.cache[path] == contents
            &&& s2.cache.dom() == s.cache.dom().insert(path)
            &&& s2.reading.contains(other) == s.reading.contains(other)
            &&& !s2.reading.contains(path)
            &&& s2.queue == s.queue && s2.streams == s.streams
            &&& s2.visitors == s.visitors && s2.workers == s.workers
        }),
{
    assert(finish_reading_spec(s, path, contents).cache.dom() =~= s.cache.dom().insert(path));
}

/// Two files stored one after the other are both served from the cache,
/// each with its own contents.
pub proof fn lemma_two_stored_files_cached(
    s: ServerState,
    a: Seq<char>,
    ca: Seq<u8>,
    b: Seq<char>,
    cb: Seq<u8>,
)
    requires
        a != b,
    ensures
        ({
            let s2 = finish_reading_spec(finish_reading_spec(s, a, ca), b, cb);
            &&& static_step_spec(s2, a) == (s2, StaticStep::FromCache)
            &&& static_step_spec(s2, b) == (s2, StaticStep::FromCache)
            &&& s2.cache[a] == ca
            &&& s2.cache[b] == cb
        }),
{
}

/// A line with a command marker is sent from its first marker on: what
/// precedes the marker, all of it, is sent before the command's output.
pub proof fn lemma_dynamic_line_keeps_text_before_marker(l: Seq<char>, i: int)
    requires
        occurs_at(l, exec_marker(), i),
        forall|j: int| 0 <= j < i ==> !occurs_at(l, exec_marker(), j),
    ensures
        dynamic_line_spec(l) matches DynamicLineSpec::Exec { before, .. } && before == l.take(i)
            && before + exec_marker() == l.take(i + exec_marker().len()),
{
    lemma_find_str_at(l, exec_marker(), i);
    assert(l.take(i) + exec_marker() =~= l.take(i + exec_marker().len()));
}

/// A line without command marker is sent as it is.
pub proof fn lemma_dynamic_line_without_marker(l: Seq<char>)
    requires
        forall|j: int| 0 <= j ==> !occurs_at(l, exec_marker(), j),
    ensures
        dynamic_line_spec(l) == DynamicLineSpec::Plain(l),
{
    lemma_find_str_none(l, exec_marker());
}

} // verus!
