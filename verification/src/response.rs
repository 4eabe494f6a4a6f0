use vstd::prelude::*;

use crate::text::{
    chars_eq, decimal, lower, parse_unsigned, parsed_unsigned, push_decimal, split, split_by,
    str_chars, lower_chars, trim, trim_chars, views, chars_to_string, lemma_split_char_concat,
    lemma_split_no_sep, lemma_split_pair, lemma_decimal_plain, lemma_decimal_parses, lemma_trim_plain,
    lemma_split_empty, all_ascii, ascii_lowercase,
};

verus! {

/// The kinds of content the server sends, by the `Content-Type` they are sent with.
#[derive(Clone, Copy, Debug)]
pub enum ContentType {
    Html,
    Png,
    Jpeg,
    Svg,
    Css,
    JavaScript,
    Mp4,
    PlainText,
}

/// The `Content-Type` value of each kind.
pub open spec fn content_type_value(t: ContentType) -> Seq<char> {
    match t {
        ContentType::Html => "text/html; charset=utf-8"@,
        ContentType::Png => "image/png"@,
        ContentType::Jpeg => "image/jpeg"@,
        ContentType::Svg => "image/svg+xml"@,
        ContentType::Css => "text/css; charset=utf-8"@,
        ContentType::JavaScript => "text/javascript; charset=utf-8"@,
        ContentType::Mp4 => "video/mp4"@,
        ContentType::PlainText => "text/plain; charset=utf-8"@,
    }
}

impl ContentType {
    /// The `Content-Type` header value.
    pub fn header_value(&self) -> (res: &'static str)
        ensures
            res@ == content_type_value(*self),
    {
        match self {
            ContentType::Html => "text/html; charset=utf-8",
            ContentType::Png => "image/png",
            ContentType::Jpeg => "image/jpeg",
            ContentType::Svg => "image/svg+xml",
            ContentType::Css => "text/css; charset=utf-8",
            ContentType::JavaScript => "text/javascript; charset=utf-8",
            ContentType::Mp4 => "video/mp4",
            ContentType::PlainText => "text/plain; charset=utf-8",
        }
    }
}

/// How a file is served: the kind of its content, and whether it is a PHP script to run
/// rather than a file to send.
#[derive(Clone, Copy, Debug)]
pub struct Content {
    pub content_type: ContentType,
    pub execute: bool,
}

/// What a lowered file extension is served as.
pub open spec fn extension_content(ext: Seq<char>) -> Content {
    if ext == "html"@ {
        Content { content_type: ContentType::Html, execute: false }
    } else if ext == "png"@ {
        Content { content_type: ContentType::Png, execute: false }
    } else if ext == "jpeg"@ || ext == "jpg"@ {
        Content { content_type: ContentType::Jpeg, execute: false }
    } else if ext == "xml"@ || ext == "svg"@ {
        Content { content_type: ContentType::Svg, execute: false }
    } else if ext == "css"@ {
        Content { content_type: ContentType::Css, execute: false }
    } else if ext == "js"@ {
        Content { content_type: ContentType::JavaScript, execute: false }
    } else if ext == "mp4"@ {
        Content { content_type: ContentType::Mp4, execute: false }
    } else if ext == "php"@ {
        Content { content_type: ContentType::Html, execute: true }
    } else {
        Content { content_type: ContentType::PlainText, execute: false }
    }
}

/// The extension of a path: what follows its last `.` (the whole path when it has none).
pub open spec fn file_extension(path: Seq<char>) -> Seq<char> {
    split(path, seq!['.']).last()
}

/// How the file at `path` is served, by its extension in any case.
pub open spec fn file_content(path: Seq<char>) -> Content {
    extension_content(lower(file_extension(path)))
}

/// How the file at `path` is served.
pub fn content_of_file(path: &str) -> (res: Content)
    ensures
        res == file_content(path@),
{
    let chars = str_chars(path);
    let dot = vec!['.'];
    assert(dot@ =~= seq!['.']);
    let pieces = split_by(&chars, &dot);
    let last = pieces.len() - 1;
    assert(views(pieces@).last() == pieces@[last as int]@);
    let e = lower_chars(&pieces[last]);
    if chars_eq(&e, &str_chars("html")) {
        Content { content_type: ContentType::Html, execute: false }
    } else if chars_eq(&e, &str_chars("png")) {
        Content { content_type: ContentType::Png, execute: false }
    } else if chars_eq(&e, &str_chars("jpeg")) || chars_eq(&e, &str_chars("jpg")) {
        Content { content_type: ContentType::Jpeg, execute: false }
    } else if chars_eq(&e, &str_chars("xml")) || chars_eq(&e, &str_chars("svg")) {
        Content { content_type: ContentType::Svg, execute: false }
    } else if chars_eq(&e, &str_chars("css")) {
        Content { content_type: ContentType::Css, execute: false }
    } else if chars_eq(&e, &str_chars("js")) {
        Content { content_type: ContentType::JavaScript, execute: false }
    } else if chars_eq(&e, &str_chars("mp4")) {
        Content { content_type: ContentType::Mp4, execute: false }
    } else if chars_eq(&e, &str_chars("php")) {
        Content { content_type: ContentType::Html, execute: true }
    } else {
        Content { content_type: ContentType::PlainText, execute: false }
    }
}

/// The first index file looked for in a directory.
pub fn first_index_file() -> (res: &'static str)
    ensures
        res@ == "index.html"@,
{
    "index.html"
}

/// The index file served for a directory, and whether it is a script to run: the HTML
/// index when it exists, else the PHP one.
pub fn directory_index(html_index_exists: bool) -> (res: (&'static str, Content))
    ensures
        html_index_exists ==> res.0@ == "index.html"@ && !res.1.execute,
        !html_index_exists ==> res.0@ == "index.php"@ && res.1.execute,
        res.1.content_type == ContentType::Html,
{
    if html_index_exists {
        ("index.html", Content { content_type: ContentType::Html, execute: false })
    } else {
        ("index.php", Content { content_type: ContentType::Html, execute: true })
    }
}

/// The answer to a request for a file that does not exist.
pub fn not_found_response() -> (res: &'static str)
    ensures
        res@ == "HTTP/1.1 404 Not Found\r\nServer: CrocoServer\r\n\r\n"@,
{
    "HTTP/1.1 404 Not Found\r\nServer: CrocoServer\r\n\r\n"
}


/// The byte range that a `Range` header value asks for, over a body of `len` bytes: the
/// value is read as `unit=first-last`. A missing `=` or `-`, or two empty bounds, give
/// the empty range at 0; an empty first bound asks for the last `last` bytes; an empty last
/// bound asks for everything from `first`. `None` when a bound is not a number.
pub open spec fn range_bounds(value: Seq<char>, len: nat) -> Option<(int, int)> {
    let parts = split(value, seq!['=']);
    if parts.len() < 2 {
        Some((0, 0))
    } else {
        let bounds = split(parts[1], seq!['-']);
        if bounds.len() < 2 {
            Some((0, 0))
        } else {
            let first = trim(bounds[0]);
            let last = trim(bounds[1]);
            if first.len() == 0 {
                if last.len() == 0 {
                    Some((0, 0))
                } else {
                    match parsed_unsigned(last, usize::MAX as nat) {
                        Some(n) => Some((len - n, len as int)),
                        None => None,
                    }
                }
            } else {
                match parsed_unsigned(first, usize::MAX as nat) {
                    None => None,
                    Some(start) => if last.len() == 0 {
                        Some((start as int, len as int))
                    } else {
                        match parsed_unsigned(last, usize::MAX as nat) {
                            Some(end) => Some((start as int, end as int)),
                            None => None,
                        }
                    },
                }
            }
        }
    }
}

/// A range that can be sent from a body of `len` bytes and announced: it lies within
/// the body and does not end at 0.
pub open spec fn servable(range: (int, int), len: nat) -> bool {
    0 <= range.0 <= range.1 <= len && 1 <= range.1
}

/// The range that the `Range` header `value` asks for in a body of `body_len` bytes,
/// when it can be served; `None` when a bound is not a number or the range cannot be served.
pub fn requested_range(value: &str, body_len: usize) -> (res: Option<(usize, usize)>)
    ensures
        match res {
            Some((start, end)) => range_bounds(value@, body_len as nat) == Some((start as int, end as int))
                && servable((start as int, end as int), body_len as nat),
            None => !(range_bounds(value@, body_len as nat) matches Some(r) && servable(r, body_len as nat)),
        },
{
    let chars = str_chars(value);
    let equals = vec!['='];
    assert(equals@ =~= seq!['=']);
    let parts = split_by(&chars, &equals);
    let bounds: (usize, usize) = if parts.len() < 2 {
        (0, 0)
    } else {
        assert(views(parts@)[1] == parts@[1]@);
        let dash = vec!['-'];
        assert(dash@ =~= seq!['-']);
        let pieces = split_by(&parts[1], &dash);
        if pieces.len() < 2 {
            (0, 0)
        } else {
            assert(views(pieces@)[0] == pieces@[0]@ && views(pieces@)[1] == pieces@[1]@);
            let first = trim_chars(&pieces[0]);
            let last = trim_chars(&pieces[1]);
            if first.len() == 0 {
                if last.len() == 0 {
                    (0, 0)
                } else {
                    match parse_unsigned(&last, usize::MAX) {
                        Some(n) => {
                            if n > body_len {
                                return None;
                            }
                            (body_len - n, body_len)
                        },
                        None => {
                            return None;
                        },
                    }
                }
            } else {
                match parse_unsigned(&first, usize::MAX) {
                    None => {
                        return None;
                    },
                    Some(start) => if last.len() == 0 {
                        (start, body_len)
                    } else {
                        match parse_unsigned(&last, usize::MAX) {
                            Some(end) => (start, end),
                            None => {
                                return None;
                            },
                        }
                    },
                }
            }
        }
    };
    assert(range_bounds(value@, body_len as nat) == Some((bounds.0 as int, bounds.1 as int)));
    if bounds.0 <= bounds.1 && bounds.1 <= body_len && 1 <= bounds.1 {
        Some(bounds)
    } else {
        None
    }
}

/// The head of a response carrying a body of `len` bytes of type `content_type`, of
/// which the bytes `start..end` are sent when `range` is `Some((start, end))`.
pub open spec fn response_head(range: Option<(nat, nat)>, content_type: ContentType, len: nat) -> Seq<char> {
    let status = match range {
        Some((start, end)) => "HTTP/1.1 206 Partial Content\r\nServer: CrocoServer\r\n"@ + "Content-Range: bytes "@
            + decimal(start) + "-"@ + decimal((end - 1) as nat) + "/"@ + decimal(len) + "\r\n"@,
        None => "HTTP/1.1 200 OK\r\nServer: CrocoServer\r\n"@,
    };
    status + "Access-Control-Allow-Origin: *\r\n"@ + "Content-Type: "@ + content_type_value(content_type) + "\r\n"@
        + "Cache-Control: public\r\n"@ + "Content-Length: "@ + decimal(len) + "\r\n\r\n"@
}

fn push_str(out: &mut Vec<char>, s: &str)
    ensures
        final(out)@ == old(out)@ + s@,
{
    let mut c = str_chars(s);
    out.append(&mut c);
}

/// The head of the response to a request for a body of `len` bytes of type
/// `content_type`: a partial one for `range`, when there is one.
pub fn head(range: Option<(usize, usize)>, content_type: ContentType, len: usize) -> (res: String)
    requires
        range matches Some(r) ==> 1 <= r.1,
    ensures
        res@ == response_head(
            match range {
                Some(r) => Some((r.0 as nat, r.1 as nat)),
                None => None,
            },
            content_type,
            len as nat,
        ),
{
    let mut out: Vec<char> = Vec::new();
    match range {
        Some((start, end)) => {
            push_str(&mut out, "HTTP/1.1 206 Partial Content\r\nServer: CrocoServer\r\n");
            push_str(&mut out, "Content-Range: bytes ");
            push_decimal(&mut out, start);
            push_str(&mut out, "-");
            push_decimal(&mut out, end - 1);
            push_str(&mut out, "/");
            push_decimal(&mut out, len);
            push_str(&mut out, "\r\n");
        },
        None => {
            push_str(&mut out, "HTTP/1.1 200 OK\r\nServer: CrocoServer\r\n");
        },
    }
    push_str(&mut out, "Access-Control-Allow-Origin: *\r\n");
    push_str(&mut out, "Content-Type: ");
    push_str(&mut out, content_type.header_value());
    push_str(&mut out, "\r\n");
    push_str(&mut out, "Cache-Control: public\r\n");
    push_str(&mut out, "Content-Length: ");
    push_decimal(&mut out, len);
    push_str(&mut out, "\r\n\r\n");
    let ghost r = match range {
        Some(r) => Some((r.0 as nat, r.1 as nat)),
        None => None,
    };
    assert(out@ =~= response_head(r, content_type, len as nat));
    chars_to_string(&out)
}

/// The bytes `start..end` of a body.
pub fn body_part(body: &[u8], start: usize, end: usize) -> (res: &[u8])
    requires
        start <= end <= body@.len(),
    ensures
        res@ == body@.subrange(start as int, end as int),
{
    &body[start..end]
}


/// What answers a request whose resource has a body of `len` bytes of type
/// `content_type`, given the request's `range` header, if any: the response head and the
/// bytes of the body to send; `None` when the range asked for cannot be served.
pub open spec fn reply(range_header: Option<Seq<char>>, content_type: ContentType, len: nat) -> Option<(Seq<char>, int, int)> {
    match range_header {
        None => Some((response_head(None, content_type, len), 0, len as int)),
        Some(value) => match range_bounds(value, len) {
            Some(r) => if servable(r, len) {
                Some((response_head(Some((r.0 as nat, r.1 as nat)), content_type, len), r.0, r.1))
            } else {
                None
            },
            None => None,
        },
    }
}

/// The head of the response and the part of the body to send, for a body of `len`
/// bytes of type `content_type` and the request's `range` header, if any; `None` when
/// the range asked for cannot be served.
pub fn answer(range_header: Option<&String>, content_type: ContentType, len: usize) -> (res: Option<(String, usize, usize)>)
    ensures
        match res {
            Some((h, start, end)) => reply(
                match range_header {
                    Some(v) => Some(v@),
                    None => None,
                },
                content_type,
                len as nat,
            ) == Some((h@, start as int, end as int)),
            None => reply(
                match range_header {
                    Some(v) => Some(v@),
                    None => None,
                },
                content_type,
                len as nat,
            ) is None,
        },
{
    match range_header {
        None => Some((head(None, content_type, len), 0, len)),
        Some(value) => match requested_range(value.as_str(), len) {
            Some((start, end)) => Some((head(Some((start, end)), content_type, len), start, end)),
            None => None,
        },
    }
}

/// The status line and first header of a partial response, up to its `Content-Range` value.
pub open spec fn partial_start() -> Seq<char> {
    "HTTP/1.1 206 Partial Content\r\nServer: CrocoServer\r\nContent-Range: bytes "@
}

/// The `Content-Range` value announcing bytes `start..end` of a body of `len` bytes.
pub open spec fn content_range(start: nat, end: nat, len: nat) -> Seq<char> {
    decimal(start) + "-"@ + decimal((end - 1) as nat) + "/"@ + decimal(len) + "\r\n"@
}

/// The last header of every response: the body's full length, then the blank line.
pub open spec fn length_end(len: nat) -> Seq<char> {
    "Content-Length: "@ + decimal(len) + "\r\n\r\n"@
}

/// A partial response starts by announcing the bytes `start` to `end - 1` of a body
/// whose full length it gives, and every response ends by giving that full length.
pub proof fn head_announces_range_and_length(range: Option<(nat, nat)>, content_type: ContentType, len: nat)
    ensures
        match range {
            Some((start, end)) => (partial_start() + content_range(start, end, len)).is_prefix_of(
                response_head(range, content_type, len),
            ),
            None => "HTTP/1.1 200 OK\r\n"@.is_prefix_of(response_head(range, content_type, len)),
        },
        length_end(len).is_suffix_of(response_head(range, content_type, len)),
{
    let h = response_head(range, content_type, len);
    match range {
        Some((start, end)) => {
            let p = partial_start() + content_range(start, end, len);
            assert(h =~= p + ("Access-Control-Allow-Origin: *\r\n"@ + "Content-Type: "@ + content_type_value(content_type)
                + "\r\n"@ + "Cache-Control: public\r\n"@ + length_end(len))) by {
                reveal_strlit("HTTP/1.1 206 Partial Content\r\nServer: CrocoServer\r\n");
                reveal_strlit("Content-Range: bytes ");
                reveal_strlit("HTTP/1.1 206 Partial Content\r\nServer: CrocoServer\r\nContent-Range: bytes ");
            }
            assert(h.subrange(0, p.len() as int) =~= p);
        },
        None => {
            reveal_strlit("HTTP/1.1 200 OK\r\nServer: CrocoServer\r\n");
            reveal_strlit("HTTP/1.1 200 OK\r\n");
            assert(h.subrange(0, 17) =~= "HTTP/1.1 200 OK\r\n"@);
        },
    }
    let e = length_end(len);
    assert(h.subrange(h.len() - e.len(), h.len() as int) =~= e);
}

/// The bytes sent are the ones the head announces: for a `range` header, a partial
/// response whose `Content-Range` gives exactly the part of the body sent, which lies within
/// the body; without one, a full response sending the whole body.
pub proof fn reply_sends_what_it_announces(range_header: Option<Seq<char>>, content_type: ContentType, len: nat)
    ensures
        reply(range_header, content_type, len) matches Some((h, start, end)) ==> {
            &&& 0 <= start <= end <= len
            &&& length_end(len).is_suffix_of(h)
            &&& match range_header {
                Some(_) => 1 <= end && (partial_start() + content_range(start as nat, end as nat, len)).is_prefix_of(h),
                None => start == 0 && end == len && "HTTP/1.1 200 OK\r\n"@.is_prefix_of(h),
            }
        },
{
    match range_header {
        None => head_announces_range_and_length(None, content_type, len),
        Some(v) => {
            if let Some(r) = range_bounds(v, len) {
                head_announces_range_and_length(Some((r.0 as nat, r.1 as nat)), content_type, len);
            }
        },
    }
}

/// `unit=` followed by `first-` asks for the bytes from `first` to the end, and a body
/// longer than `first` answers with exactly those bytes.
pub proof fn range_from_first_byte(unit: Seq<char>, first: nat, len: nat, content_type: ContentType)
    requires
        !unit.contains('='),
        first <= usize::MAX,
    ensures
        range_bounds(unit + seq!['='] + decimal(first) + seq!['-'], len) == Some((first as int, len as int)),
        first < len ==> (reply(Some(unit + seq!['='] + decimal(first) + seq!['-']), content_type, len) matches Some(
            (h, start, end),
        ) && start == first && end == len),
{
    let rest = decimal(first) + seq!['-'];
    lemma_decimal_plain(first);
    assert(!rest.contains('=')) by {
        if rest.contains('=') {
            let q = choose|q: int| 0 <= q < rest.len() && rest[q] == '=';
            if q < decimal(first).len() {
                assert(decimal(first)[q] == '=');
            }
        }
    }
    lemma_split_pair(unit, '=', rest);
    assert(unit + seq!['='] + decimal(first) + seq!['-'] =~= unit + seq!['='] + rest);
    lemma_split_pair(decimal(first), '-', Seq::<char>::empty());
    assert(decimal(first) + seq!['-'] + Seq::<char>::empty() =~= rest);
    lemma_trim_plain(Seq::<char>::empty());
    lemma_decimal_parses(first, usize::MAX as nat);
}

/// `unit=` followed by `first-last` asks for the bytes `first..last`, and a body holding
/// them answers with exactly those bytes.
pub proof fn range_between(unit: Seq<char>, first: nat, last: nat, len: nat, content_type: ContentType)
    requires
        !unit.contains('='),
        first <= usize::MAX,
        last <= usize::MAX,
    ensures
        range_bounds(unit + seq!['='] + decimal(first) + seq!['-'] + decimal(last), len) == Some(
            (first as int, last as int),
        ),
        first <= last <= len && 1 <= last ==> (reply(
            Some(unit + seq!['='] + decimal(first) + seq!['-'] + decimal(last)),
            content_type,
            len,
        ) matches Some((h, start, end)) && start == first && end == last),
{
    let rest = decimal(first) + seq!['-'] + decimal(last);
    lemma_decimal_plain(first);
    lemma_decimal_plain(last);
    assert(!rest.contains('=')) by {
        if rest.contains('=') {
            let q = choose|q: int| 0 <= q < rest.len() && rest[q] == '=';
            if q < decimal(first).len() {
                assert(decimal(first)[q] == '=');
            } else if q > decimal(first).len() {
                assert(decimal(last)[q - decimal(first).len() - 1] == '=');
            }
        }
    }
    lemma_split_pair(unit, '=', rest);
    assert(unit + seq!['='] + decimal(first) + seq!['-'] + decimal(last) =~= unit + seq!['='] + rest);
    lemma_split_pair(decimal(first), '-', decimal(last));
    lemma_decimal_parses(first, usize::MAX as nat);
    lemma_decimal_parses(last, usize::MAX as nat);
}

/// `unit=-n` asks for the last `n` bytes, and a body of at least `n` bytes answers with
/// exactly those.
pub proof fn range_of_last_bytes(unit: Seq<char>, n: nat, len: nat, content_type: ContentType)
    requires
        !unit.contains('='),
        n <= usize::MAX,
    ensures
        range_bounds(unit + seq!['=', '-'] + decimal(n), len) == Some((len - n, len as int)),
        1 <= n <= len ==> (reply(Some(unit + seq!['=', '-'] + decimal(n)), content_type, len) matches Some(
            (h, start, end),
        ) && start == len - n && end == len),
{
    let rest = seq!['-'] + decimal(n);
    lemma_decimal_plain(n);
    assert(!rest.contains('=')) by {
        if rest.contains('=') {
            let q = choose|q: int| 0 <= q < rest.len() && rest[q] == '=';
            if q > 0 {
                assert(decimal(n)[q - 1] == '=');
            }
        }
    }
    lemma_split_pair(unit, '=', rest);
    assert(unit + seq!['=', '-'] + decimal(n) =~= unit + seq!['='] + rest);
    lemma_split_pair(Seq::<char>::empty(), '-', decimal(n));
    assert(Seq::<char>::empty() + seq!['-'] + decimal(n) =~= rest);
    lemma_trim_plain(Seq::<char>::empty());
    lemma_decimal_parses(n, usize::MAX as nat);
}

/// A file is served by what follows the last `.` of its path, whatever dots come before:
/// a path ending in `.js` is JavaScript, in `.css` a style sheet, in `.php` a script to run.
pub proof fn extension_follows_last_dot(path: Seq<char>, ext: Seq<char>)
    requires
        !ext.contains('.'),
    ensures
        file_extension(path + seq!['.'] + ext) == ext,
        file_content(path + seq!['.'] + ext) == extension_content(lower(ext)),
        file_content(path + seq!['.'] + "js"@).content_type == ContentType::JavaScript,
        file_content(path + seq!['.'] + "css"@).content_type == ContentType::Css,
        file_content(path + seq!['.'] + "php"@).execute,
{
    lemma_extension(path, ext);
    reveal_strlit("js");
    reveal_strlit("css");
    reveal_strlit("php");
    reveal_strlit("html");
    reveal_strlit("png");
    reveal_strlit("jpeg");
    reveal_strlit("jpg");
    reveal_strlit("xml");
    reveal_strlit("svg");
    reveal_strlit("mp4");
    lemma_extension(path, "js"@);
    lemma_extension(path, "css"@);
    lemma_extension(path, "php"@);
    assert(ascii_lowercase("js"@) =~= "js"@);
    assert(ascii_lowercase("css"@) =~= "css"@);
    assert(ascii_lowercase("php"@) =~= "php"@);
    assert(lower("css"@) == "css"@);
    assert(lower("php"@) == "php"@);
    assert("css"@ != "html"@ && "css"@ != "png"@ && "css"@ != "jpeg"@ && "css"@ != "jpg"@) by {
        assert("css"@[0] != "png"@[0]);
        assert("css"@[0] != "jpg"@[0]);
    }
    assert("css"@ != "xml"@ && "css"@ != "svg"@) by {
        assert("css"@[0] != "xml"@[0]);
        assert("css"@[1] != "svg"@[1]);
    }
    assert("php"@ != "html"@ && "php"@ != "png"@ && "php"@ != "jpeg"@ && "php"@ != "jpg"@) by {
        assert("php"@[1] != "png"@[1]);
        assert("php"@[0] != "jpg"@[0]);
    }
    assert("php"@ != "xml"@ && "php"@ != "svg"@ && "php"@ != "css"@ && "php"@ != "js"@ && "php"@ != "mp4"@) by {
        assert("php"@[0] != "xml"@[0]);
        assert("php"@[0] != "svg"@[0]);
        assert("php"@[0] != "css"@[0]);
        assert("php"@[0] != "mp4"@[0]);
    }
}

/// Every extension the server knows is served as its own kind, whatever path leads to
/// it; any other extension, such as `txt`, is served as plain text.
pub proof fn extension_table(path: Seq<char>)
    ensures
        file_content(path + seq!['.'] + "html"@) == (Content { content_type: ContentType::Html, execute: false }),
        file_content(path + seq!['.'] + "png"@) == (Content { content_type: ContentType::Png, execute: false }),
        file_content(path + seq!['.'] + "jpeg"@) == (Content { content_type: ContentType::Jpeg, execute: false }),
        file_content(path + seq!['.'] + "jpg"@) == (Content { content_type: ContentType::Jpeg, execute: false }),
        file_content(path + seq!['.'] + "xml"@) == (Content { content_type: ContentType::Svg, execute: false }),
        file_content(path + seq!['.'] + "svg"@) == (Content { content_type: ContentType::Svg, execute: false }),
        file_content(path + seq!['.'] + "css"@) == (Content { content_type: ContentType::Css, execute: false }),
        file_content(path + seq!['.'] + "js"@) == (Content { content_type: ContentType::JavaScript, execute: false }),
        file_content(path + seq!['.'] + "mp4"@) == (Content { content_type: ContentType::Mp4, execute: false }),
        file_content(path + seq!['.'] + "php"@) == (Content { content_type: ContentType::Html, execute: true }),
        file_content(path + seq!['.'] + "txt"@) == (Content { content_type: ContentType::PlainText, execute: false }),
{
    reveal_strlit("html");
    reveal_strlit("png");
    reveal_strlit("jpeg");
    reveal_strlit("jpg");
    reveal_strlit("xml");
    reveal_strlit("svg");
    reveal_strlit("css");
    reveal_strlit("js");
    reveal_strlit("mp4");
    reveal_strlit("php");
    reveal_strlit("txt");
    lemma_extension(path, "html"@);
    assert(ascii_lowercase("html"@) =~= "html"@);
    assert(lower("html"@) == "html"@);
    assert("html"@[0] != "jpeg"@[0]);
    lemma_extension(path, "png"@);
    assert(ascii_lowercase("png"@) =~= "png"@);
    assert(lower("png"@) == "png"@);
    assert("png"@[0] != "jpg"@[0]);
    assert("png"@[0] != "xml"@[0]);
    assert("png"@[0] != "svg"@[0]);
    assert("png"@[0] != "css"@[0]);
    assert("png"@[0] != "mp4"@[0]);
    assert("png"@[1] != "php"@[1]);
    assert("png"@[0] != "txt"@[0]);
    lemma_extension(path, "jpeg"@);
    assert(ascii_lowercase("jpeg"@) =~= "jpeg"@);
    assert(lower("jpeg"@) == "jpeg"@);
    assert("jpeg"@[0] != "html"@[0]);
    lemma_extension(path, "jpg"@);
    assert(ascii_lowercase("jpg"@) =~= "jpg"@);
    assert(lower("jpg"@) == "jpg"@);
    assert("jpg"@[0] != "png"@[0]);
    assert("jpg"@[0] != "xml"@[0]);
    assert("jpg"@[0] != "svg"@[0]);
    assert("jpg"@[0] != "css"@[0]);
    assert("jpg"@[0] != "mp4"@[0]);
    assert("jpg"@[0] != "php"@[0]);
    assert("jpg"@[0] != "txt"@[0]);
    lemma_extension(path, "xml"@);
    assert(ascii_lowercase("xml"@) =~= "xml"@);
    assert(lower("xml"@) == "xml"@);
    assert("xml"@[0] != "png"@[0]);
    assert("xml"@[0] != "jpg"@[0]);
    assert("xml"@[0] != "svg"@[0]);
    assert("xml"@[0] != "css"@[0]);
    assert("xml"@[0] != "mp4"@[0]);
    assert("xml"@[0] != "php"@[0]);
    assert("xml"@[0] != "txt"@[0]);
    lemma_extension(path, "svg"@);
    assert(ascii_lowercase("svg"@) =~= "svg"@);
    assert(lower("svg"@) == "svg"@);
    assert("svg"@[0] != "png"@[0]);
    assert("svg"@[0] != "jpg"@[0]);
    assert("svg"@[0] != "xml"@[0]);
    assert("svg"@[0] != "css"@[0]);
    assert("svg"@[0] != "mp4"@[0]);
    assert("svg"@[0] != "php"@[0]);
    assert("svg"@[0] != "txt"@[0]);
    lemma_extension(path, "css"@);
    assert(ascii_lowercase("css"@) =~= "css"@);
    assert(lower("css"@) == "css"@);
    assert("css"@[0] != "png"@[0]);
    assert("css"@[0] != "jpg"@[0]);
    assert("css"@[0] != "xml"@[0]);
    assert("css"@[0] != "svg"@[0]);
    assert("css"@[0] != "mp4"@[0]);
    assert("css"@[0] != "php"@[0]);
    assert("css"@[0] != "txt"@[0]);
    lemma_extension(path, "js"@);
    assert(ascii_lowercase("js"@) =~= "js"@);
    assert(lower("js"@) == "js"@);
    lemma_extension(path, "mp4"@);
    assert(ascii_lowercase("mp4"@) =~= "mp4"@);
    assert(lower("mp4"@) == "mp4"@);
    assert("mp4"@[0] != "png"@[0]);
    assert("mp4"@[0] != "jpg"@[0]);
    assert("mp4"@[0] != "xml"@[0]);
    assert("mp4"@[0] != "svg"@[0]);
    assert("mp4"@[0] != "css"@[0]);
    assert("mp4"@[0] != "php"@[0]);
    assert("mp4"@[0] != "txt"@[0]);
    lemma_extension(path, "php"@);
    assert(ascii_lowercase("php"@) =~= "php"@);
    assert(lower("php"@) == "php"@);
    assert("php"@[1] != "png"@[1]);
    assert("php"@[0] != "jpg"@[0]);
    assert("php"@[0] != "xml"@[0]);
    assert("php"@[0] != "svg"@[0]);
    assert("php"@[0] != "css"@[0]);
    assert("php"@[0] != "mp4"@[0]);
    assert("php"@[0] != "txt"@[0]);
    lemma_extension(path, "txt"@);
    assert(ascii_lowercase("txt"@) =~= "txt"@);
    assert(lower("txt"@) == "txt"@);
    assert("txt"@[0] != "png"@[0]);
    assert("txt"@[0] != "jpg"@[0]);
    assert("txt"@[0] != "xml"@[0]);
    assert("txt"@[0] != "svg"@[0]);
    assert("txt"@[0] != "css"@[0]);
    assert("txt"@[0] != "mp4"@[0]);
    assert("txt"@[0] != "php"@[0]);
}

proof fn lemma_extension(path: Seq<char>, ext: Seq<char>)
    requires
        !ext.contains('.'),
    ensures
        file_extension(path + seq!['.'] + ext) == ext,
{
    lemma_split_char_concat(path, ext, '.', 0);
    assert forall|q: int| 0 <= q < ext.len() implies ext[q] != seq!['.'][0] by {
        if ext[q] == '.' {
            assert(ext.contains('.'));
        }
    }
    lemma_split_no_sep(ext, seq!['.']);
}

} // verus!
