use pa3::cli::{get_args, parse_server_args, server_config, ArgsOutcome, GetoptsFail};
use pa3::zhtta::Reply;
use pa3::zhtta::{ServerAction as Action1, ServerEvent as Event1, WebServer as Server1};
use pa3::zhtta2::{ServerAction as Action2, ServerEvent as Event2, WebServer as Server2};
use pa3::zhtta2::{dynamic_line, malformed_directive, respond_with_dynamic_page, DynamicLine, StaticStep, THREAD_LIMIT};

fn s(x: &str) -> String {
    x.to_string()
}

fn request1(stream: u64, peer: &str, path: &str, found: bool, is_dir: bool) -> Event1 {
    Event1::Request {
        stream,
        peer_name: s(peer),
        path: s(path),
        full_path: format!("/srv{}", &path[1..]),
        found,
        is_dir,
    }
}

#[test]
fn first_server_serves_in_order() {
    let mut w = Server1::new(s("127.0.0.1"), 4414, s("./www"));
    assert!(matches!(w.run(request1(1, "a:1", "./one.html", true, false)), Action1::Reply { stream: 1, reply: Reply::Queued }));
    assert!(matches!(w.run(request1(2, "b:2", "./two.html", true, false)), Action1::Reply { stream: 2, reply: Reply::Queued }));
    match w.run(Event1::Notify) {
        Action1::Serve { request, conn } => {
            assert_eq!(request.path, "/srv/one.html");
            assert_eq!(request.peer_name, "a:1");
            assert_eq!(conn, 1);
        }
        _ => panic!("expected a request"),
    }
    match w.run(Event1::Notify) {
        Action1::Serve { request, conn } => {
            assert_eq!(request.path, "/srv/two.html");
            assert_eq!(conn, 2);
        }
        _ => panic!("expected a request"),
    }
    assert!(matches!(w.run(Event1::Notify), Action1::Idle));
}

#[test]
fn first_server_pages() {
    let mut w = Server1::new(s("127.0.0.1"), 4414, s("./www"));
    assert!(matches!(w.run(Event1::Connected), Action1::Idle));
    assert!(matches!(w.run(Event1::Connected), Action1::Idle));
    assert_eq!(w.visitor_count(), 2);
    match w.run(request1(7, "p:1", "./", true, true)) {
        Action1::Reply { stream: 7, reply: Reply::Page(p) } => {
            assert!(p.contains("<h2>Visitor count: 2</h2>"));
            assert!(p.starts_with(pa3::http::HTTP_OK));
        }
        _ => panic!("expected the counter page"),
    }
    match w.run(request1(8, "p:2", "./nope", false, false)) {
        Action1::Reply { stream: 8, reply: Reply::Page(p) } => {
            assert_eq!(p, "HTTP/1.1 404 Not Found\r\n\r\nCannot open: /srv/nope");
        }
        _ => panic!("expected the error page"),
    }
    match w.run(request1(9, "p:3", "./x.shtml", true, false)) {
        Action1::Reply { stream: 9, reply: Reply::Dynamic(p) } => assert_eq!(p, "/srv/x.shtml"),
        _ => panic!("expected a dynamic page"),
    }
    assert_eq!(Server1::respond_with_dynamic_page(b"x"), Server1::respond_with_static_file(b"x"));
}

#[test]
fn first_server_missing_connection() {
    let mut w = Server1::new(s("h"), 1, s("d"));
    w.enqueue_static_file_request(3, s("same:1"), s("/a"));
    w.enqueue_static_file_request(4, s("same:1"), s("/b"));
    assert!(w.next_request_has_connection());
    let (r1, c1) = w.dequeue_static_file_request().unwrap();
    assert_eq!((r1.path.as_str(), c1), ("/a", 4));
    assert!(!w.next_request_has_connection());
}

#[test]
fn second_server_serves_smallest_first() {
    let mut w = Server2::new(s("127.0.0.1"), 4414, s("./www"));
    w.enqueue_static_file_request(1, s("a:1"), s("/big"), 900);
    w.enqueue_static_file_request(2, s("b:2"), s("/small"), 10);
    w.enqueue_static_file_request(3, s("c:3"), s("/mid"), 50);
    w.enqueue_static_file_request(4, s("d:4"), s("/small2"), 10);
    let order: Vec<(String, u64)> = (0..4)
        .map(|_| {
            let (r, c) = w.dequeue_static_file_request().unwrap();
            (r.path, c)
        })
        .collect();
    assert_eq!(
        order,
        vec![(s("/small"), 2), (s("/small2"), 4), (s("/mid"), 3), (s("/big"), 1)]
    );
    assert!(w.dequeue_static_file_request().is_none());
}

#[test]
fn second_server_events() {
    let mut w = Server2::new(s("127.0.0.1"), 4414, s("./www"));
    match w.run(Event2::Connected) {
        Action2::Counted(n) => assert_eq!(n, 1),
        _ => panic!("expected a count"),
    }
    let req = Event2::Request {
        stream: 5,
        peer_name: s("x:5"),
        path: s("./"),
        full_path: s("/srv"),
        found: true,
        is_dir: true,
        size: 0,
        visit: 17,
    };
    match w.run(req) {
        Action2::Reply { stream: 5, reply: Reply::Page(p) } => assert!(p.contains("Visitor count: 17<")),
        _ => panic!("expected the counter page"),
    }
    let req = Event2::Request {
        stream: 6,
        peer_name: s("x:6"),
        path: s("./f.txt"),
        full_path: s("/srv/f.txt"),
        found: true,
        is_dir: false,
        size: 3,
        visit: 18,
    };
    assert!(matches!(w.run(req), Action2::Reply { stream: 6, reply: Reply::Queued }));
    match w.run(Event2::Notify) {
        Action2::Serve { request, conn } => {
            assert_eq!(request.path, "/srv/f.txt");
            assert_eq!(request.size, 3);
            assert_eq!(conn, 6);
        }
        _ => panic!("expected a request"),
    }
}

#[test]
fn cache_steps() {
    let mut w = Server2::new(s("h"), 1, s("d"));
    let p = s("/srv/a.html");
    assert!(matches!(w.respond_with_static_file(&p), StaticStep::FromDisk));
    assert!(matches!(w.respond_with_static_file(&p), StaticStep::Wait));
    assert!(w.cached_file(&p).is_none());
    w.finish_reading(p.clone(), b"hello".to_vec());
    assert!(matches!(w.respond_with_static_file(&p), StaticStep::FromCache));
    assert_eq!(w.cached_file(&p).unwrap(), &b"hello".to_vec());
    assert_eq!(Server2::static_file_response(b"hello")[..15].to_vec(), b"HTTP/1.1 200 OK".to_vec());
}

#[test]
fn worker_limit() {
    let mut w = Server2::new(s("h"), 1, s("d"));
    for _ in 0..THREAD_LIMIT {
        assert!(w.can_start_worker());
        w.worker_started();
    }
    assert!(!w.can_start_worker());
    w.worker_finished();
    assert!(w.can_start_worker());
}

#[test]
fn dynamic_lines() {
    match dynamic_line("plain <b>text</b>\n") {
        DynamicLine::Plain(l) => assert_eq!(l, "plain <b>text</b>\n"),
        _ => panic!("expected plain"),
    }
    match dynamic_line("<p><!--#exec cmd=\"echo hi\" --></p>\n") {
        DynamicLine::Exec { before, command, after } => {
            assert_eq!(before, "<p>");
            assert_eq!(command, "echo hi");
            // only a piece after a second marker is sent after the output
            assert_eq!(after, "");
        }
        _ => panic!("expected a command"),
    }
    match dynamic_line("x<!--#exec cmd=\"date\" -->y<!--#exec cmd=\"pwd\" -->z") {
        DynamicLine::Exec { before, command, after } => {
            assert_eq!(before, "x");
            assert_eq!(command, "date");
            assert_eq!(after, " cmd=\"pwd\" -->z");
        }
        _ => panic!("expected a command"),
    }
    match dynamic_line("<!--#exec cmd=\"ls\"") {
        DynamicLine::Exec { command, after, .. } => {
            assert_eq!(command, "ls");
            assert_eq!(after, "");
        }
        _ => panic!("expected a command"),
    }
    let page = respond_with_dynamic_page(&vec![s("one\n"), s("<!--#exec \"ls\"-->\n")]);
    assert_eq!(page.len(), 2);
    assert!(matches!(page[0], DynamicLine::Plain(_)));
}

#[test]
fn directive_without_command() {
    assert_eq!(malformed_directive("a<!--#exec nothing -->b"), Some(s("a")));
    assert_eq!(malformed_directive("a<!--#exec \"ok\" -->b"), None);
    assert_eq!(malformed_directive("no directive"), None);
    // the command is looked for before the next marker only
    assert_eq!(malformed_directive("a<!--#exec x<!--#exec \"y\" -->z"), Some(s("a")));
}

#[test]
fn directive_body_stops_at_next_marker() {
    match dynamic_line("<!--#exec \"a\" <!--#exec \"b\" -->z") {
        DynamicLine::Exec { before, command, after } => {
            assert_eq!(before, "");
            assert_eq!(command, "a");
            assert_eq!(after, " \"b\" -->z");
        }
        _ => panic!("expected a command"),
    }
}

#[test]
fn server_settings() {
    let a = server_config(false, None, None, None).unwrap();
    assert_eq!(a.ip, "127.0.0.1");
    assert_eq!(a.port, 4414);
    assert_eq!(a.www_dir, "./www");
    assert!(server_config(true, None, Some(s("x")), None).is_none());
    let a = server_config(false, Some(s("0.0.0.0")), Some(s(" 8080 ")), Some(s("/srv"))).unwrap();
    assert_eq!(a.ip, "0.0.0.0");
    assert_eq!(a.port, 8080);
    assert_eq!(a.www_dir, "/srv");
}

#[test]
fn server_command_line() {
    let a = get_args(&vec![s("--port"), s("8000"), s("--www"), s("/tmp")]).unwrap();
    assert_eq!(a.ip, "127.0.0.1");
    assert_eq!(a.port, 8000);
    assert_eq!(a.www_dir, "/tmp");
    assert!(get_args(&vec![s("-h")]).is_none());
    assert!(matches!(parse_server_args(&vec![s("--help"), s("--port"), s("q")]), ArgsOutcome::Help));
    assert!(matches!(parse_server_args(&vec![s("--port"), s("q")]), ArgsOutcome::BadPort));
    match parse_server_args(&vec![s("--bogus")]) {
        ArgsOutcome::Invalid(f) => {
            assert!(matches!(f, GetoptsFail::UnrecognizedOption(_)));
            assert_eq!(f.message(), "Unrecognized option: 'bogus'");
        }
        _ => panic!("expected a failure"),
    }
    match parse_server_args(&vec![s("--port")]) {
        ArgsOutcome::Invalid(f) => assert_eq!(f.message(), "Argument to option 'port' missing"),
        _ => panic!("expected a failure"),
    }
    match parse_server_args(&vec![s("--ip"), s("a"), s("--ip"), s("b")]) {
        ArgsOutcome::Invalid(f) => assert_eq!(f.message(), "Option 'ip' given more than once"),
        _ => panic!("expected a failure"),
    }
    match parse_server_args(&vec![s("--help=x")]) {
        ArgsOutcome::Invalid(f) => assert_eq!(f.message(), "Option 'help' does not take an argument"),
        _ => panic!("expected a failure"),
    }
    match parse_server_args(&vec![s("--www"), s("/w")]) {
        ArgsOutcome::Serve(a) => assert_eq!(a.www_dir, "/w"),
        _ => panic!("expected settings"),
    }
}

#[test]
fn first_server_serves_in_arrival_order() {
    let mut w = Server1::new(s("h"), 1, s("d"));
    w.enqueue_static_file_request(1, s("a:1"), s("/one"));
    w.enqueue_static_file_request(2, s("b:2"), s("/two"));
    let (r, c) = w.dequeue_static_file_request().unwrap();
    assert_eq!((r.path.as_str(), c), ("/one", 1));
    w.enqueue_static_file_request(3, s("c:3"), s("/three"));
    let mut rest = Vec::new();
    while let Some((r, c)) = w.dequeue_static_file_request() {
        rest.push((r.path, c));
    }
    assert_eq!(rest, vec![(s("/two"), 2), (s("/three"), 3)]);
}

#[test]
fn parse_failure_names_the_option() {
    match parse_server_args(&vec![s("--port"), s("1"), s("-x")]) {
        ArgsOutcome::Invalid(GetoptsFail::UnrecognizedOption(n)) => assert_eq!(n, "x"),
        _ => panic!("expected an unrecognized option"),
    }
}
