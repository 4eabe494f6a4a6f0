use croco_server::http_client::{raw_target, HTTPClient, HTTPMethod};

fn read(request: &str, dir: &str) -> HTTPClient {
    HTTPClient::try_new(request.as_bytes(), dir).expect("readable").expect("accepted")
}

#[test]
fn parses_a_get_request() {
    let text = "GET /index.html?a=1&b=2 HTTP/1.1\r\nHost: localhost\r\nRange: bytes=0-3\r\n\r\nbody";
    let client = read(text, "/srv");
    assert_eq!(client.request, text);
    assert!(matches!(client.method, HTTPMethod::Get));
    assert_eq!(client.path, "/srv/index.html");
    assert_eq!(client.args.len(), 2);
    assert_eq!(client.args.get("a").unwrap(), "1");
    assert_eq!(client.args.get("b").unwrap(), "2");
    assert_eq!(client.headers.len(), 2);
    assert_eq!(client.headers.get("host").unwrap(), " localhost");
    assert_eq!(client.headers.get("range").unwrap(), " bytes=0-3");
}

#[test]
fn post_is_told_apart_and_other_methods_count_as_get() {
    let client = read("POST /form HTTP/1.1\r\n\r\n", ".");
    assert!(matches!(client.method, HTTPMethod::Post));
    let client = read("PUT /form HTTP/1.1\r\n\r\n", ".");
    assert!(matches!(client.method, HTTPMethod::Get));
    let client = read("post /form HTTP/1.1\r\n\r\n", ".");
    assert!(matches!(client.method, HTTPMethod::Get));
}

#[test]
fn a_start_line_without_target_is_refused() {
    assert!(matches!(HTTPClient::try_new(b"GET", "."), Some(Err(()))));
    assert!(matches!(HTTPClient::new(b"GET\r\nHost: x\r\n\r\n", "."), Err(())));
    assert!(matches!(HTTPClient::try_new(b"", "."), Some(Err(()))));
}

#[test]
fn without_target_the_headers_are_not_looked_at() {
    assert!(matches!(HTTPClient::try_new(b"GET\r\nX\r\n", "."), Some(Err(()))));
    assert!(matches!(HTTPClient::new(b"GET\r\nno colon here\r\n\r\n", "."), Err(())));
}

#[test]
fn a_forwarded_request_is_not_forwarded_again() {
    let mut client = read("GET /x HTTP/1.1\r\nredirect: up\r\nHost: a\r\n\r\n", ".");
    assert!(client.mark_forwarded());
    let mut forwarded = read(&client.request, ".");
    assert_eq!(forwarded.path, "./x");
    assert_eq!(forwarded.headers.get("xxx-over").unwrap(), " up");
    assert!(forwarded.is_redirect().is_none());
    assert!(forwarded.is_recursive_redirect());
}

#[test]
fn bytes_that_are_not_utf8_are_refused() {
    assert!(matches!(HTTPClient::try_new(b"GET /\xff HTTP/1.1\r\n\r\n", "."), Some(Err(()))));
    assert!(matches!(HTTPClient::new(b"GET /\xc3 HTTP/1.1\r\n\r\n", "."), Err(())));
}

#[test]
fn the_target_is_percent_decoded() {
    let client = read("GET /hello%20world.html?q=a%26b HTTP/1.1\r\n\r\n", "/www");
    assert_eq!(client.path, "/www/hello world.html");
    // the decoded `&` separates arguments
    assert_eq!(client.args.get("q").unwrap(), "a");
    assert!(client.args.get("b").is_none());
    let client = read("GET /a+b%zz HTTP/1.1\r\n\r\n", "");
    assert_eq!(client.path, "/a+b%zz");
}

#[test]
fn a_target_that_does_not_decode_to_utf8_is_unreadable() {
    assert!(HTTPClient::try_new(b"GET /%FF HTTP/1.1\r\n\r\n", ".").is_none());
}

#[test]
fn a_header_without_colon_is_unreadable() {
    assert!(HTTPClient::try_new(b"GET / HTTP/1.1\r\nHost localhost\r\n\r\n", ".").is_none());
    // after the blank line, no colon is needed
    assert!(HTTPClient::try_new(b"GET / HTTP/1.1\r\nHost: x\r\n\r\nno colon", ".").is_some());
}

#[test]
fn headers_end_at_the_first_blank_line() {
    let client = read("GET / HTTP/1.1\r\nX: 1\r\n \t\r\nY: 2\r\n", ".");
    assert_eq!(client.headers.len(), 1);
    assert!(client.headers.get("y").is_none());
}

#[test]
fn header_names_are_lowered_and_the_last_one_wins() {
    let client = read("GET / HTTP/1.1\r\nHOST: a\r\nhost: b\r\nX-Thing:c:d\r\n\r\n", ".");
    assert_eq!(client.headers.len(), 2);
    assert_eq!(client.headers.get("host").unwrap(), " b");
    assert_eq!(client.headers.get("x-thing").unwrap(), "c:d");
}

#[test]
fn non_ascii_header_names_are_lowered_too() {
    let client = read("GET / HTTP/1.1\r\nÄB: 1\r\n\r\n", ".");
    assert_eq!(client.headers.get("äb").unwrap(), " 1");
}

#[test]
fn query_arguments() {
    let client = read("GET /p?a&b=1=2&c=3&c=4&=5 HTTP/1.1\r\n\r\n", ".");
    assert!(client.args.get("a").is_none());
    assert_eq!(client.args.get("b").unwrap(), "1");
    assert_eq!(client.args.get("c").unwrap(), "4");
    assert_eq!(client.args.get("").unwrap(), "5");
    assert_eq!(client.args.len(), 3);
    let client = read("GET /p?x=1?y=2 HTTP/1.1\r\n\r\n", ".");
    assert_eq!(client.args.get("x").unwrap(), "1");
    assert_eq!(client.path, "./p");
}

#[test]
fn raw_target_is_the_second_word() {
    assert_eq!(raw_target("GET /a%20b HTTP/1.1\r\n").unwrap(), "/a%20b");
    assert!(raw_target("GET").is_none());
    assert_eq!(raw_target("GET  /x").unwrap(), "");
}

#[test]
fn the_redirect_header_is_taken_once() {
    let mut client = read("GET / HTTP/1.1\r\nredirect: example.com\r\n\r\n", ".");
    assert_eq!(client.is_redirect().unwrap(), " example.com");
    assert!(client.is_redirect().is_none());
    assert!(client.headers.get("redirect").is_none());
}

#[test]
fn a_forwarded_request_is_recognised() {
    let mut client = read("GET / HTTP/1.1\r\nHost: a\r\nredirect: b\r\n\r\n", ".");
    assert!(client.mark_forwarded());
    assert_eq!(client.request, "GET / HTTP/1.1\r\nHost: a\r\nxxx-over: b\r\n\r\n");
    let mut forwarded = read(&client.request, ".");
    assert!(forwarded.is_redirect().is_none());
    assert!(forwarded.is_recursive_redirect());
    assert!(!forwarded.is_recursive_redirect());
}

#[test]
fn marking_a_request_without_redirect_changes_nothing() {
    let mut client = read("GET / HTTP/1.1\r\nHost: a\r\n\r\n", ".");
    assert!(!client.mark_forwarded());
    assert_eq!(client.request, "GET / HTTP/1.1\r\nHost: a\r\n\r\n");
}
