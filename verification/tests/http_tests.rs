use pa3::http::{normalize_path, readable_lines};
use pa3::http::{
    file_extension, get_peer_name, parse_request, path_of_request, respond_with_counter_page,
    respond_with_error_page, respond_with_static_file, route, Route, COUNTER_STYLE, HTTP_BAD,
    HTTP_OK,
};

#[test]
fn request_path_from_request_line() {
    assert_eq!(path_of_request("GET /index.html HTTP/1.1\r\n"), Some("./index.html".to_string()));
    assert_eq!(path_of_request("GET / HTTP/1.1"), Some("./".to_string()));
    assert_eq!(path_of_request("GET /x"), None);
    assert_eq!(path_of_request("GET"), None);
    assert_eq!(path_of_request("GET  HTTP"), Some(".".to_string()));
}

#[test]
fn request_bytes_must_be_utf8() {
    let mut buf = [0u8; 500];
    let line = b"GET /a.html HTTP/1.1\r\n";
    buf[..line.len()].copy_from_slice(line);
    assert_eq!(parse_request(&buf), Ok(Some("./a.html".to_string())));
    assert_eq!(parse_request(&[0x47, 0xff, 0x20]), Err(()));
    assert_eq!(parse_request(b"nothing"), Ok(None));
}

#[test]
fn extensions() {
    assert_eq!(file_extension("./a/b.shtml"), Some("shtml".to_string()));
    assert_eq!(file_extension("./.bashrc"), None);
    assert_eq!(file_extension("./a.b/c"), None);
    assert_eq!(file_extension("/srv/x.tar.gz"), Some("gz".to_string()));
    assert_eq!(file_extension("/srv/x."), Some("".to_string()));
}

#[test]
fn routing() {
    assert!(matches!(route("./", "/srv", true, true), Route::Counter));
    assert!(matches!(route("./missing.html", "/srv/missing.html", false, false), Route::Error));
    assert!(matches!(route("./dir", "/srv/dir", true, true), Route::Error));
    assert!(matches!(route("./page.shtml", "/srv/page.shtml", true, false), Route::Dynamic));
    assert!(matches!(route("./page.html", "/srv/page.html", true, false), Route::Static));
    assert!(matches!(route("./page.SHTML", "/srv/page.SHTML", true, false), Route::Static));
    assert!(matches!(route("./a.shtml/", "/srv/a.shtml", true, false), Route::Dynamic));
}

#[test]
fn error_page_text() {
    assert_eq!(
        respond_with_error_page("/srv/www/x"),
        "HTTP/1.1 404 Not Found\r\n\r\nCannot open: /srv/www/x"
    );
    assert!(respond_with_error_page("p").starts_with(HTTP_BAD));
}

#[test]
fn counter_page_text() {
    let page = respond_with_counter_page(42);
    assert_eq!(
        page,
        format!(
            "{}{}<h1>Greetings, Krusty!</h1><h2>Visitor count: {}</h2></body></html>\r\n",
            HTTP_OK, COUNTER_STYLE, 42
        )
    );
}

#[test]
fn static_answer_bytes() {
    let r = respond_with_static_file(b"<p>hi</p>");
    let mut expected = HTTP_OK.as_bytes().to_vec();
    expected.extend_from_slice(b"<p>hi</p>");
    assert_eq!(r, expected);
}

#[test]
fn peer_names() {
    assert_eq!(get_peer_name("127.0.0.1", 8080), "127.0.0.1:8080");
    assert_eq!(get_peer_name("::1", 0), "::1:0");
}

#[test]
fn paths_are_normalized() {
    assert_eq!(normalize_path("/home/u", "./index.html"), "/home/u/index.html");
    assert_eq!(normalize_path("/home/u", "./a/../b/./c/"), "/home/u/b/c");
    assert_eq!(normalize_path("/home/u", "./../../../etc"), "/etc");
    assert_eq!(normalize_path("/srv", "./"), "/srv");
    assert_eq!(normalize_path("/srv", "/abs//x"), "/abs/x");
    assert_eq!(normalize_path("a", "../.."), "..");
    assert_eq!(normalize_path("a", ".."), ".");
}

#[test]
fn streamed_file_keeps_readable_lines() {
    assert_eq!(readable_lines(b"ab\ncd"), b"ab\ncd".to_vec());
    assert_eq!(readable_lines(b"ok\n\xff\xfe\nend\n"), b"ok\nend\n".to_vec());
    assert_eq!(readable_lines(b"x\n\xc3"), b"x\n".to_vec());
    assert_eq!(readable_lines(b""), Vec::<u8>::new());
    assert_eq!(readable_lines("h\u{e9}\n".as_bytes()), "h\u{e9}\n".as_bytes().to_vec());
}
