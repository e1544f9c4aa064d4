//! What the web server makes of a request and what it answers: the path a
//! request asks for, how it is routed, and the text of each kind of page.
use vstd::prelude::*;
use vstd::string::StringSliceAdditionalSpecFns;
use vstd::utf8::{
    decode_utf8, is_char_boundary, is_char_boundary_iff_not_is_continuation_byte,
    is_char_boundary_start_end_of_seq, pop_first_scalar, valid_utf8, valid_utf8_concat,
    valid_utf8_split,
};

use crate::text::{
    chars_of, decimal, find_first, find_last, first_index, join, last_index,
    lemma_first_index_at, lemma_index_props, push_decimal, split_chars, split_on, string_of,
    views,
};

verus! {

/// The name the server gives itself.
pub const SERVER_NAME: &'static str = "Zhtta Version 1.0";

/// The address the server binds to by default.
pub const IP: &'static str = "127.0.0.1";

/// The port the server binds to by default.
pub const PORT: usize = 4414;

/// The directory the server serves from by default.
pub const WWW_DIR: &'static str = "./www";

/// Status line and headers of a successful answer.
pub const HTTP_OK: &'static str = "HTTP/1.1 200 OK\r\nContent-Type: text/html; charset=UTF-8\r\n\r\n";

/// Status line of an answer for a missing file.
pub const HTTP_BAD: &'static str = "HTTP/1.1 404 Not Found\r\n\r\n";

/// The head of the visitor-counter page.
pub const COUNTER_STYLE: &'static str = "<doctype !html><html><head><title>Hello, Rust!</title>
             <style>body { background-color: #884414; color: #FFEEAA}
                    h1 { font-size:2cm; text-align: center; color: black; text-shadow: 0 0 4mm red }
                    h2 { font-size:2cm; text-align: center; color: black; text-shadow: 0 0 4mm green }
             </style></head>
             <body>";

/// Text of the error page that precedes the path.
pub const CANNOT_OPEN: &'static str = "Cannot open: ";

/// Text of the counter page that precedes the count.
pub const COUNTER_HEAD: &'static str = "<h1>Greetings, Krusty!</h1><h2>Visitor count: ";

/// Text of the counter page that follows the count.
pub const COUNTER_TAIL: &'static str = "</h2></body></html>\r\n";

/// `std::str::from_utf8`: the text that `bytes` encode, if they are valid
/// UTF-8. As documented, it succeeds exactly on valid UTF-8 and then
/// decodes it.
#[verifier::external_body]
fn str_from_utf8(bytes: &[u8]) -> (r: Option<String>)
    ensures
        r is Some <==> valid_utf8(bytes@),
        r matches Some(s) ==> s@ == decode_utf8(bytes@),
{
    match std::str::from_utf8(bytes) {
        Ok(s) => Some(s.to_owned()),
        Err(_) => None,
    }
}

/// The target of a request line: the text between its first and second
/// space, when it has two.
pub open spec fn request_target(s: Seq<char>) -> Option<Seq<char>> {
    match first_index(s, ' ') {
        Some(i) => match first_index(s.skip(i + 1), ' ') {
            Some(j) => Some(s.subrange(i + 1, i + 1 + j)),
            None => None,
        },
        None => None,
    }
}

/// The path a request asks for, relative to the served directory: `.`
/// followed by the target of the request line.
pub open spec fn request_path(s: Seq<char>) -> Option<Seq<char>> {
    match request_target(s) {
        Some(t) => Some(seq!['.'] + t),
        None => None,
    }
}

/// The path that the request text `request` asks for, if it names one.
pub fn path_of_request(request: &str) -> (r: Option<String>)
    ensures
        match r {
            Some(p) => request_path(request@) == Some(p@),
            None => request_path(request@) is None,
        },
{
    let v = chars_of(request);
    proof {
        lemma_index_props(v@, ' ');
    }
    match find_first(&v, ' ') {
        None => None,
        Some(i) => {
            let rest = string_of(&v, i + 1, v.len());
            let rv = chars_of(rest.as_str());
            assert(rv@ =~= v@.skip(i + 1));
            match find_first(&rv, ' ') {
                None => None,
                Some(j) => {
                    proof {
                        lemma_index_props(rv@, ' ');
                    }
                    let mut p = String::new();
                    crate::text::string_push(&mut p, '.');
                    let target = string_of(&v, i + 1, i + 1 + j);
                    p.append(target.as_str());
                    assert(p@ =~= seq!['.'] + v@.subrange(i + 1, i + 1 + j));
                    Some(p)
                },
            }
        },
    }
}

/// What a request asks for, from the bytes the server read: `Err` when they
/// are not UTF-8 (the connection is then dropped), else the path, if the
/// request line names one.
pub fn parse_request(bytes: &[u8]) -> (r: Result<Option<String>, ()>)
    ensures
        r is Err <==> !valid_utf8(bytes@),
        r matches Ok(p) ==> match p {
            Some(p) => request_path(decode_utf8(bytes@)) == Some(p@),
            None => request_path(decode_utf8(bytes@)) is None,
        },
{
    match str_from_utf8(bytes) {
        None => Err(()),
        Some(s) => Ok(path_of_request(s.as_str())),
    }
}

/// The last component of a path.
pub open spec fn last_component(p: Seq<char>) -> Seq<char> {
    match last_index(p, '/') {
        Some(i) => p.skip(i + 1),
        None => p,
    }
}

/// The extension of a file name: what follows its last dot, unless that dot
/// begins the name or there is none.
pub open spec fn name_extension(name: Seq<char>) -> Option<Seq<char>> {
    match last_index(name, '.') {
        Some(i) => if i > 0 {
            Some(name.skip(i + 1))
        } else {
            None
        },
        None => None,
    }
}

/// The extension of the file a path names.
pub open spec fn extension(p: Seq<char>) -> Option<Seq<char>> {
    name_extension(last_component(p))
}

/// The extension of the file that `path` names, if it has one.
pub fn file_extension(path: &str) -> (r: Option<String>)
    ensures
        match r {
            Some(e) => extension(path@) == Some(e@),
            None => extension(path@) is None,
        },
{
    let v = chars_of(path);
    proof {
        lemma_index_props(v@, '/');
    }
    let start = match find_last(&v, '/') {
        Some(i) => {
            assert(i < v@.len());
            i + 1
        },
        None => 0,
    };
    let name = string_of(&v, start, v.len());
    let nv = chars_of(name.as_str());
    assert(nv@ =~= last_component(v@));
    match find_last(&nv, '.') {
        Some(i) => {
            proof {
                lemma_index_props(nv@, '.');
            }
            if i > 0 {
                assert(nv@.skip(i + 1) =~= nv@.subrange(i + 1, nv@.len() as int));
                Some(string_of(&nv, i + 1, nv.len()))
            } else {
                None
            }
        },
        None => None,
    }
}

/// How the server answers a request.
pub enum Route {
    /// The visitor-counter page (the request is for the root).
    Counter,
    /// The not-found page (nothing there, or a directory).
    Error,
    /// A page with embedded shell commands (`.shtml`).
    Dynamic,
    /// A file sent as it is.
    Static,
}

/// How a request for `path` is answered, given the file it names once
/// joined to the served directory and normalized (`full_path`), whether
/// something exists there and whether it is a directory. The extension is
/// that of the normalized path.
pub open spec fn route_of(path: Seq<char>, full_path: Seq<char>, found: bool, is_dir: bool) -> Route {
    if path == seq!['.', '/'] {
        Route::Counter
    } else if !found || is_dir {
        Route::Error
    } else if extension(full_path) == Some(seq!['s', 'h', 't', 'm', 'l']) {
        Route::Dynamic
    } else {
        Route::Static
    }
}

fn chars_equal(v: &Vec<char>, w: &Vec<char>) -> (b: bool)
    ensures
        b == (v@ == w@),
{
    if v.len() != w.len() {
        return false;
    }
    let mut k: usize = 0;
    while k < v.len()
        invariant
            v@.len() == w@.len(),
            k <= v@.len(),
            forall|j: int| 0 <= j < k ==> v@[j] == w@[j],
        decreases v.len() - k,
    {
        if v[k] != w[k] {
            return false;
        }
        k += 1;
    }
    assert(v@ =~= w@);
    true
}

/// Decides how to answer a request for `path`, which names `full_path`.
pub fn route(path: &str, full_path: &str, found: bool, is_dir: bool) -> (r: Route)
    ensures
        r == route_of(path@, full_path@, found, is_dir),
{
    let v = chars_of(path);
    let root = chars_of("./");
    let shtml = chars_of("shtml");
    proof {
        reveal_strlit("./");
        reveal_strlit("shtml");
        assert("./"@ =~= seq!['.', '/']);
        assert("shtml"@ =~= seq!['s', 'h', 't', 'm', 'l']);
    }
    if chars_equal(&v, &root) {
        Route::Counter
    } else if !found || is_dir {
        Route::Error
    } else {
        match file_extension(full_path) {
            Some(e) => {
                let ev = chars_of(e.as_str());
                if chars_equal(&ev, &shtml) {
                    Route::Dynamic
                } else {
                    Route::Static
                }
            },
            None => Route::Static,
        }
    }
}

/// The answer to a request for something that cannot be served.
pub fn respond_with_error_page(path: &str) -> (r: String)
    ensures
        r@ == HTTP_BAD@ + CANNOT_OPEN@ + path@,
{
    let mut r = HTTP_BAD.to_owned();
    r.append(CANNOT_OPEN);
    r.append(path);
    r
}

/// The visitor-counter page for the given count.
pub fn respond_with_counter_page(count: u64) -> (r: String)
    ensures
        r@ == HTTP_OK@ + COUNTER_STYLE@ + COUNTER_HEAD@ + decimal(count as nat) + COUNTER_TAIL@,
{
    let mut r = HTTP_OK.to_owned();
    r.append(COUNTER_STYLE);
    r.append(COUNTER_HEAD);
    push_decimal(&mut r, count);
    r.append(COUNTER_TAIL);
    r
}

/// The answer that carries the bytes of a file.
pub fn respond_with_static_file(contents: &[u8]) -> (r: Vec<u8>)
    ensures
        r@ == HTTP_OK.spec_bytes() + contents@,
{
    let head = HTTP_OK.as_bytes();
    let mut r: Vec<u8> = Vec::new();
    let mut k: usize = 0;
    while k < head.len()
        invariant
            k <= head@.len(),
            r@ == head@.take(k as int),
        decreases head.len() - k,
    {
        r.push(head[k]);
        k += 1;
        assert(r@ =~= head@.take(k as int));
    }
    assert(head@.take(head@.len() as int) =~= head@);
    let mut j: usize = 0;
    while j < contents.len()
        invariant
            j <= contents@.len(),
            r@ == head@ + contents@.take(j as int),
        decreases contents.len() - j,
    {
        r.push(contents[j]);
        j += 1;
        assert(r@ =~= head@ + contents@.take(j as int));
    }
    assert(contents@.take(contents@.len() as int) =~= contents@);
    r
}

/// The name under which a connection is known: the peer's address and
/// port, separated by a colon.
pub fn get_peer_name(ip: &str, port: u16) -> (r: String)
    ensures
        r@ == ip@ + seq![':'] + decimal(port as nat),
{
    let mut r = ip.to_owned();
    crate::text::string_push(&mut r, ':');
    push_decimal(&mut r, port as u64);
    assert(r@ =~= ip@ + seq![':'] + decimal(port as nat));
    r
}

} // verus!

verus! {

/// The path `rel` taken from the directory `cwd`: `rel` itself when it is
/// absolute, else `cwd`, a slash and `rel`.
pub open spec fn joined_path(cwd: Seq<char>, rel: Seq<char>) -> Seq<char> {
    if rel.len() > 0 && rel[0] == '/' {
        rel
    } else {
        cwd + seq!['/'] + rel
    }
}

/// The component that names the parent directory.
pub open spec fn parent_dir() -> Seq<char> {
    seq!['.', '.']
}

/// The components of a path once `.` and empty components are dropped and
/// each `..` has removed the component before it. A `..` with nothing
/// before it to remove stays in a relative path and is dropped in an
/// absolute one (the parent of the root is the root).
pub open spec fn resolve_components(comps: Seq<Seq<char>>, absolute: bool) -> Seq<Seq<char>>
    decreases comps.len(),
{
    if comps.len() == 0 {
        Seq::empty()
    } else {
        let st = resolve_components(comps.drop_last(), absolute);
        let c = comps.last();
        if c.len() == 0 || c == seq!['.'] {
            st
        } else if c == parent_dir() {
            if st.len() > 0 && st.last() != parent_dir() {
                st.drop_last()
            } else if absolute {
                st
            } else {
                st.push(c)
            }
        } else {
            st.push(c)
        }
    }
}

/// The normal form of the path `rel` taken from the directory `cwd`: its
/// resolved components joined by slashes, after a leading slash when the
/// path is absolute; `.` for an empty relative path.
pub open spec fn normalize_path_spec(cwd: Seq<char>, rel: Seq<char>) -> Seq<char> {
    let p = joined_path(cwd, rel);
    let absolute = p.len() > 0 && p[0] == '/';
    let st = resolve_components(split_on(p, '/'), absolute);
    if absolute {
        seq!['/'] + join(st, '/')
    } else if st.len() == 0 {
        seq!['.']
    } else {
        join(st, '/')
    }
}

/// Whether `v` is exactly the characters of `pat`.
fn same_chars(v: &Vec<char>, pat: &Vec<char>) -> (b: bool)
    ensures
        b == (v@ == pat@),
{
    if v.len() != pat.len() {
        return false;
    }
    let mut i: usize = 0;
    while i < v.len()
        invariant
            v@.len() == pat@.len(),
            i <= v@.len(),
            forall|j: int| 0 <= j < i ==> v@[j] == pat@[j],
        decreases v.len() - i,
    {
        if v[i] != pat[i] {
            return false;
        }
        i += 1;
    }
    assert(v@ =~= pat@);
    true
}

/// The path `rel`, taken from the directory `cwd`, in normal form: `.` and
/// empty components dropped and each `..` resolved against the component
/// before it.
pub fn normalize_path(cwd: &str, rel: &str) -> (r: String)
    ensures
        r@ == normalize_path_spec(cwd@, rel@),
{
    let rv = chars_of(rel);
    let mut p: Vec<char>;
    if rv.len() > 0 && rv[0] == '/' {
        p = rv;
    } else {
        p = chars_of(cwd);
        p.push('/');
        let mut i: usize = 0;
        let ghost base = p@;
        while i < rv.len()
            invariant
                i <= rv@.len(),
                p@ == base + rv@.take(i as int),
            decreases rv.len() - i,
        {
            p.push(rv[i]);
            i += 1;
            assert(p@ =~= base + rv@.take(i as int));
        }
        assert(rv@.take(rv@.len() as int) =~= rv@);
    }
    assert(p@ == joined_path(cwd@, rel@));
    let absolute = p.len() > 0 && p[0] == '/';
    let comps = split_chars(&p, '/');
    let dot = chars_of(".");
    let dots = chars_of("..");
    proof {
        reveal_strlit(".");
        reveal_strlit("..");
        assert(dot@ =~= seq!['.']);
        assert(dots@ =~= parent_dir());
    }
    let ghost cs = views(comps@);
    let mut stack: Vec<String> = Vec::new();
    let mut k: usize = 0;
    while k < comps.len()
        invariant
            k <= comps@.len(),
            cs == views(comps@),
            cs.len() == comps@.len(),
            dot@ == seq!['.'],
            dots@ == parent_dir(),
            views(stack@) == resolve_components(cs.take(k as int), absolute),
        decreases comps.len() - k,
    {
        let c = chars_of(comps[k].as_str());
        assert(cs.take(k + 1).drop_last() =~= cs.take(k as int));
        assert(cs.take(k + 1).last() == c@);
        if c.len() == 0 || same_chars(&c, &dot) {
        } else if same_chars(&c, &dots) {
            let top_is_parent = if stack.len() > 0 {
                let t = chars_of(stack[stack.len() - 1].as_str());
                same_chars(&t, &dots)
            } else {
                false
            };
            if stack.len() > 0 && !top_is_parent {
                let _ = stack.pop();
                assert(views(stack@) =~= resolve_components(cs.take(k as int), absolute).drop_last());
            } else if !absolute {
                stack.push(comps[k].clone());
                assert(views(stack@) =~= resolve_components(cs.take(k as int), absolute).push(c@));
            }
        } else {
            stack.push(comps[k].clone());
            assert(views(stack@) =~= resolve_components(cs.take(k as int), absolute).push(c@));
        }
        k += 1;
    }
    assert(cs.take(cs.len() as int) =~= cs);
    let ghost st = views(stack@);
    let mut r = String::new();
    if absolute {
        crate::text::string_push(&mut r, '/');
    }
    let ghost prefix = r@;
    let mut j: usize = 0;
    while j < stack.len()
        invariant
            j <= stack@.len(),
            st == views(stack@),
            r@ == prefix + join(st.take(j as int), '/'),
        decreases stack.len() - j,
    {
        let ghost before = r@;
        if j > 0 {
            crate::text::string_push(&mut r, '/');
        }
        let piece = chars_of(stack[j].as_str());
        let mut m: usize = 0;
        let ghost mid = r@;
        while m < piece.len()
            invariant
                m <= piece@.len(),
                r@ == mid + piece@.take(m as int),
            decreases piece.len() - m,
        {
            crate::text::string_push(&mut r, piece[m]);
            m += 1;
            assert(r@ =~= mid + piece@.take(m as int));
        }
        proof {
            assert(piece@.take(piece@.len() as int) =~= piece@);
            let t = st.take(j + 1);
            assert(t.drop_last() =~= st.take(j as int));
            assert(t.last() == piece@);
            if j == 0 {
                assert(join(t, '/') == piece@);
                assert(r@ =~= prefix + join(t, '/'));
            } else {
                assert(r@ =~= prefix + join(t, '/'));
            }
        }
        j += 1;
    }
    assert(st.take(st.len() as int) =~= st);
    if !absolute && stack.len() == 0 {
        crate::text::string_push(&mut r, '.');
        assert(r@ =~= seq!['.']);
    }
    r
}

} // verus!

verus! {

/// A line as the server streams it from a file on disk: kept when it is
/// valid UTF-8, dropped otherwise.
pub open spec fn kept_line(line: Seq<u8>) -> Seq<u8> {
    if valid_utf8(line) {
        line
    } else {
        Seq::empty()
    }
}

/// What the server streams of the bytes `rest` that follow the unfinished
/// line `cur`: the file is read line by line, each line with its newline
/// (the last one without, when the file does not end in one), and each line
/// that is not valid UTF-8 is dropped.
pub open spec fn readable_from(cur: Seq<u8>, rest: Seq<u8>) -> Seq<u8>
    decreases rest.len(),
{
    if rest.len() == 0 {
        kept_line(cur)
    } else if rest[0] == 10u8 {
        kept_line(cur.push(10u8)) + readable_from(Seq::empty(), rest.drop_first())
    } else {
        readable_from(cur.push(rest[0]), rest.drop_first())
    }
}

/// What the server streams, and caches, of a file with the contents `b`.
pub open spec fn readable_lines_spec(b: Seq<u8>) -> Seq<u8> {
    readable_from(Seq::empty(), b)
}

/// The lines of a file that the server streams and caches: its lines, each
/// with its newline, without those that are not valid UTF-8.
pub fn readable_lines(contents: &[u8]) -> (r: Vec<u8>)
    ensures
        r@ == readable_lines_spec(contents@),
{
    let mut out: Vec<u8> = Vec::new();
    let mut cur: Vec<u8> = Vec::new();
    let mut i: usize = 0;
    assert(contents@.skip(0) =~= contents@);
    assert(out@ + readable_from(cur@, contents@) =~= readable_lines_spec(contents@));
    while i < contents.len()
        invariant
            i <= contents@.len(),
            out@ + readable_from(cur@, contents@.skip(i as int)) == readable_lines_spec(
                contents@,
            ),
        decreases contents.len() - i,
    {
        let ghost rest = contents@.skip(i as int);
        let ghost out0 = out@;
        let ghost cur0 = cur@;
        assert(rest.drop_first() =~= contents@.skip(i + 1));
        assert(rest[0] == contents@[i as int]);
        let b = contents[i];
        cur.push(b);
        if b == 10u8 {
            if str_from_utf8(cur.as_slice()).is_some() {
                out.append(&mut cur);
            } else {
                cur = Vec::new();
            }
            assert(out@ =~= out0 + kept_line(cur0.push(10u8)));
            assert(cur@ =~= Seq::<u8>::empty());
            assert(out0 + (kept_line(cur0.push(10u8)) + readable_from(
                Seq::empty(),
                contents@.skip(i + 1),
            )) =~= out@ + readable_from(cur@, contents@.skip(i + 1)));
        }
        i += 1;
    }
    proof {
        assert(contents@.skip(i as int) =~= Seq::<u8>::empty());
    }
    if str_from_utf8(cur.as_slice()).is_some() {
        out.append(&mut cur);
    }
    out
}

} // verus!

verus! {

/// The path a request asks for is `.` followed by the text between the
/// first space of the request and the next space after it, whatever
/// follows (the protocol version, the header lines).
pub proof fn lemma_request_path_between_spaces(s: Seq<char>, i: int, j: int)
    requires
        0 <= i < j < s.len(),
        s[i] == ' ',
        s[j] == ' ',
        forall|k: int| 0 <= k < i ==> s[k] != ' ',
        forall|k: int| i < k < j ==> s[k] != ' ',
    ensures
        request_path(s) == Some(seq!['.'] + s.subrange(i + 1, j)),
{
    lemma_first_index_at(s, ' ', i);
    let t = s.skip(i + 1);
    assert forall|k: int| 0 <= k < j - i - 1 implies t[k] != ' ' by {
        assert(t[k] == s[i + 1 + k]);
    }
    lemma_first_index_at(t, ' ', j - i - 1);
}

/// A request names a path exactly when it holds at least two spaces.
pub proof fn lemma_request_path_needs_two_spaces(s: Seq<char>)
    ensures
        request_path(s) is Some <==> exists|i: int, j: int|
            0 <= i < j < s.len() && #[trigger] s[i] == ' ' && #[trigger] s[j] == ' ',
{
    lemma_index_props(s, ' ');
    match first_index(s, ' ') {
        Some(i) => {
            let t = s.skip(i + 1);
            lemma_index_props(t, ' ');
            match first_index(t, ' ') {
                Some(j) => {
                    assert(s[i] == ' ' && s[i + 1 + j] == ' ');
                },
                None => {
                    assert forall|a: int, b: int|
                        0 <= a < b < s.len() && #[trigger] s[a] == ' ' implies #[trigger] s[b]
                        != ' ' by {
                        assert(t[b - i - 1] == s[b]);
                    }
                },
            }
        },
        None => {},
    }
}

/// A file that is valid UTF-8 is streamed and cached exactly as it is on
/// disk, blank lines and all.
pub proof fn lemma_valid_file_streamed_whole(b: Seq<u8>)
    requires
        valid_utf8(b),
    ensures
        readable_lines_spec(b) == b,
{
    assert(Seq::<u8>::empty() + b =~= b);
    lemma_valid_rest_streamed(Seq::empty(), b);
}

proof fn lemma_valid_rest_streamed(cur: Seq<u8>, rest: Seq<u8>)
    requires
        valid_utf8(cur + rest),
    ensures
        readable_from(cur, rest) == cur + rest,
    decreases rest.len(),
{
    if rest.len() == 0 {
        assert(cur + rest =~= cur);
    } else if rest[0] == 10u8 {
        let whole = cur + rest;
        let i = cur.len() as int;
        is_char_boundary_start_end_of_seq(whole);
        if i > 0 {
            is_char_boundary_iff_not_is_continuation_byte(whole, i);
        }
        assert(is_char_boundary(whole, i));
        valid_utf8_split(whole, i);
        assert(whole.subrange(0, i) =~= cur);
        assert(whole.subrange(i, whole.len() as int) =~= rest);
        assert(pop_first_scalar(rest) =~= rest.drop_first());
        assert(valid_utf8(rest.drop_first()));
        assert(valid_utf8(seq![10u8])) by {
            reveal_with_fuel(valid_utf8, 2);
            assert(pop_first_scalar(seq![10u8]) =~= Seq::<u8>::empty());
        }
        valid_utf8_concat(cur, seq![10u8]);
        assert(cur + seq![10u8] =~= cur.push(10u8));
        assert(Seq::<u8>::empty() + rest.drop_first() =~= rest.drop_first());
        lemma_valid_rest_streamed(Seq::empty(), rest.drop_first());
        assert(cur.push(10u8) + rest.drop_first() =~= cur + rest);
    } else {
        assert(cur.push(rest[0]) + rest.drop_first() =~= cur + rest);
        lemma_valid_rest_streamed(cur.push(rest[0]), rest.drop_first());
    }
}

proof fn lemma_scan_line_part(cur: Seq<u8>, part: Seq<u8>, rest: Seq<u8>)
    requires
        forall|k: int| 0 <= k < part.len() ==> part[k] != 10u8,
    ensures
        readable_from(cur, part + rest) == readable_from(cur + part, rest),
    decreases part.len(),
{
    if part.len() == 0 {
        assert(part + rest =~= rest);
        assert(cur + part =~= cur);
    } else {
        let pr = part + rest;
        assert(pr[0] == part[0]);
        assert(pr.drop_first() =~= part.drop_first() + rest);
        lemma_scan_line_part(cur.push(part[0]), part.drop_first(), rest);
        assert(cur.push(part[0]) + part.drop_first() =~= cur + part);
    }
}

/// A file is streamed line by line: a first line that ends in a newline
/// is streamed as it is when it is valid UTF-8 and dropped otherwise, and
/// the rest of the file is streamed after it, on its own.
pub proof fn lemma_streamed_line_by_line(line: Seq<u8>, rest: Seq<u8>)
    requires
        line.len() > 0,
        line.last() == 10u8,
        forall|k: int| 0 <= k < line.len() - 1 ==> line[k] != 10u8,
    ensures
        readable_lines_spec(line + rest) == (if valid_utf8(line) {
            line
        } else {
            Seq::empty()
        }) + readable_lines_spec(rest),
{
    let part = line.drop_last();
    let tail = seq![10u8] + rest;
    assert(line + rest =~= part + tail);
    lemma_scan_line_part(Seq::empty(), part, tail);
    assert(Seq::<u8>::empty() + part =~= part);
    assert(tail[0] == 10u8);
    assert(tail.drop_first() =~= rest);
    assert(part.push(10u8) =~= line);
}

/// The last line of a file, without a newline, is streamed as it is when
/// it is valid UTF-8 and dropped otherwise.
pub proof fn lemma_streamed_last_line(line: Seq<u8>)
    requires
        forall|k: int| 0 <= k < line.len() ==> line[k] != 10u8,
    ensures
        readable_lines_spec(line) == (if valid_utf8(line) {
            line
        } else {
            Seq::empty()
        }),
{
    assert(line + Seq::<u8>::empty() =~= line);
    lemma_scan_line_part(Seq::empty(), line, Seq::empty());
    assert(Seq::<u8>::empty() + line =~= line);
}

} // verus!
