use croco_server::response::{
    body_part, content_of_file, directory_index, first_index_file, head, not_found_response, requested_range,
    ContentType,
};

fn kind(path: &str) -> (&'static str, bool) {
    let c = content_of_file(path);
    (c.content_type.header_value(), c.execute)
}

#[test]
fn content_types_by_extension() {
    assert_eq!(kind("./index.html"), ("text/html; charset=utf-8", false));
    assert_eq!(kind("./a.PNG"), ("image/png", false));
    assert_eq!(kind("./a.jpeg"), ("image/jpeg", false));
    assert_eq!(kind("./a.JpG"), ("image/jpeg", false));
    assert_eq!(kind("./a.xml"), ("image/svg+xml", false));
    assert_eq!(kind("./a.svg"), ("image/svg+xml", false));
    assert_eq!(kind("./a.css"), ("text/css; charset=utf-8", false));
    assert_eq!(kind("./a.js"), ("text/javascript; charset=utf-8", false));
    assert_eq!(kind("./a.mp4"), ("video/mp4", false));
    assert_eq!(kind("./a.php"), ("text/html; charset=utf-8", true));
    assert_eq!(kind("./a.tar.gz"), ("text/plain; charset=utf-8", false));
    assert_eq!(kind("./README"), ("text/plain; charset=utf-8", false));
    assert_eq!(kind("html"), ("text/html; charset=utf-8", false));
}

#[test]
fn directory_indexes() {
    assert_eq!(first_index_file(), "index.html");
    let (file, content) = directory_index(true);
    assert_eq!(file, "index.html");
    assert!(!content.execute);
    let (file, content) = directory_index(false);
    assert_eq!(file, "index.php");
    assert!(content.execute);
    assert!(matches!(content.content_type, ContentType::Html));
}

#[test]
fn ranges() {
    assert_eq!(requested_range(" bytes=0-3", 10), Some((0, 3)));
    assert_eq!(requested_range("bytes=-2", 10), Some((8, 10)));
    assert_eq!(requested_range("bytes=5-", 10), Some((5, 10)));
    assert_eq!(requested_range("bytes= 2 - 4 ", 10), Some((2, 4)));
    assert_eq!(requested_range("bytes=+2-4", 10), Some((2, 4)));
    assert_eq!(requested_range("bytes=2-4-9", 10), Some((2, 4)));
    assert_eq!(requested_range("bytes=0-10", 10), Some((0, 10)));
}

#[test]
fn ranges_that_cannot_be_served() {
    // the empty range at 0 cannot be announced
    assert_eq!(requested_range("bytes", 10), None);
    assert_eq!(requested_range("bytes=7", 10), None);
    assert_eq!(requested_range("bytes=-", 10), None);
    assert_eq!(requested_range("bytes=0-0", 10), None);
    // bounds that are not numbers
    assert_eq!(requested_range("bytes=a-3", 10), None);
    assert_eq!(requested_range("bytes=1-b", 10), None);
    assert_eq!(requested_range("bytes=-x", 10), None);
    assert_eq!(requested_range("bytes=1-99999999999999999999999", 10), None);
    // outside the body
    assert_eq!(requested_range("bytes=-20", 10), None);
    assert_eq!(requested_range("bytes=4-2", 10), None);
    assert_eq!(requested_range("bytes=0-11", 10), None);
    assert_eq!(requested_range("bytes=11-", 10), None);
}

#[test]
fn response_heads() {
    assert_eq!(
        head(None, ContentType::Html, 12),
        "HTTP/1.1 200 OK\r\nServer: CrocoServer\r\nAccess-Control-Allow-Origin: *\r\nContent-Type: text/html; charset=utf-8\r\nCache-Control: public\r\nContent-Length: 12\r\n\r\n"
    );
    assert_eq!(
        head(Some((8, 10)), ContentType::Mp4, 10),
        "HTTP/1.1 206 Partial Content\r\nServer: CrocoServer\r\nContent-Range: bytes 8-9/10\r\nAccess-Control-Allow-Origin: *\r\nContent-Type: video/mp4\r\nCache-Control: public\r\nContent-Length: 10\r\n\r\n"
    );
    assert_eq!(
        head(None, ContentType::PlainText, 0),
        "HTTP/1.1 200 OK\r\nServer: CrocoServer\r\nAccess-Control-Allow-Origin: *\r\nContent-Type: text/plain; charset=utf-8\r\nCache-Control: public\r\nContent-Length: 0\r\n\r\n"
    );
}

#[test]
fn not_found() {
    assert_eq!(not_found_response(), "HTTP/1.1 404 Not Found\r\nServer: CrocoServer\r\n\r\n");
}

#[test]
fn body_parts() {
    let body = b"0123456789";
    assert_eq!(body_part(body, 8, 10), b"89");
    assert_eq!(body_part(body, 0, 0), b"");
}
