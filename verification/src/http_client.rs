use vstd::prelude::*;
use vstd::utf8::{
    decode_utf8, encode_scalar, encode_utf8, encode_utf8_decode_utf8, encode_utf8_valid_utf8,
    has_width_1_encoding, last_continuation_byte, leading_byte_width_2, leading_byte_width_3,
    leading_byte_width_4, second_last_continuation_byte, third_last_continuation_byte, valid_utf8,
};

use crate::fields::Fields;
use crate::response::{answer, directory_index, content_of_file, file_content, reply, Content, ContentType};
use crate::text::{
    chars_eq, chars_to_string, find_from, first_match_from, lemma_first_match_from_bounds, lower,
    split, split_by, str_chars, sub_vec, lower_chars, trim, trim_chars, views,
    lemma_split_from_nonempty, lemma_split_lines_concat, lemma_split_past_prefix,
    lemma_first_match_past_prefix, is_white_space, first_non_space, end_non_space, all_ascii,
    ascii_lowercase, lemma_end_non_space_bounds, lemma_split_pair, lemma_split_cons, lemma_split_no_sep,
    lemma_split_empty, lemma_trim_plain,
};

verus! {

/// The request methods the server tells apart.
#[derive(Clone, Copy, Debug)]
pub enum HTTPMethod {
    Get,
    Post,
}

/// The line separator of an HTTP request.
pub open spec fn crlf() -> Seq<char> {
    seq!['\r', '\n']
}

/// The lines of a request.
pub open spec fn request_lines(text: Seq<char>) -> Seq<Seq<char>> {
    split(text, crlf())
}

/// The space-separated parts of the start line.
pub open spec fn start_line_parts(text: Seq<char>) -> Seq<Seq<char>> {
    split(request_lines(text)[0], seq![' '])
}

/// The request target as written on the start line, when the start line has one.
pub open spec fn request_target(text: Seq<char>) -> Option<Seq<char>> {
    if start_line_parts(text).len() > 1 {
        Some(start_line_parts(text)[1])
    } else {
        None
    }
}

/// The method named on the start line; any method but `POST` counts as `GET`.
pub open spec fn request_method(text: Seq<char>) -> HTTPMethod {
    if start_line_parts(text)[0] == "POST"@ {
        HTTPMethod::Post
    } else {
        HTTPMethod::Get
    }
}

/// Whether a line holds nothing but white space.
pub open spec fn is_blank(line: Seq<char>) -> bool {
    trim(line).len() == 0
}

/// The index of the first blank line at or after `i` (or the number of lines).
pub open spec fn header_end(lines: Seq<Seq<char>>, i: int) -> int
    decreases lines.len() - i,
{
    if i < 0 || i >= lines.len() {
        i
    } else if is_blank(lines[i]) {
        i
    } else {
        header_end(lines, i + 1)
    }
}

/// The header lines: those after the start line and before the first blank line.
pub open spec fn header_lines(text: Seq<char>) -> Seq<Seq<char>> {
    let lines = request_lines(text);
    lines.subrange(1, header_end(lines, 1))
}

/// The position of the first colon of a header line.
pub open spec fn colon(line: Seq<char>) -> int {
    first_match_from(line, seq![':'], 0)->0
}

/// The name of a header line, lowered.
pub open spec fn header_name(line: Seq<char>) -> Seq<char> {
    lower(line.take(colon(line)))
}

/// The value of a header line: everything after its first colon.
pub open spec fn header_value(line: Seq<char>) -> Seq<char> {
    line.skip(colon(line) + 1)
}

/// Every header line has a colon.
pub open spec fn headers_well_formed(text: Seq<char>) -> bool {
    forall|i: int| 0 <= i < header_lines(text).len() ==> first_match_from(#[trigger] header_lines(text)[i], seq![':'], 0) is Some
}

/// The map of the first `k` lines, each setting its name to its value.
pub open spec fn header_map_upto(lines: Seq<Seq<char>>, k: int) -> Map<Seq<char>, Seq<char>>
    decreases k,
{
    if k <= 0 || k > lines.len() {
        Map::empty()
    } else {
        header_map_upto(lines, k - 1).insert(header_name(lines[k - 1]), header_value(lines[k - 1]))
    }
}

/// The headers of a request: a later line with the same name wins.
pub open spec fn header_map(text: Seq<char>) -> Map<Seq<char>, Seq<char>> {
    header_map_upto(header_lines(text), header_lines(text).len() as int)
}

/// The path part of a decoded target: what comes before its first `?`.
pub open spec fn target_path(target: Seq<char>) -> Seq<char> {
    split(target, seq!['?'])[0]
}

/// The `&`-separated arguments of a decoded target (none when it has no `?`).
pub open spec fn target_args(target: Seq<char>) -> Seq<Seq<char>> {
    let pieces = split(target, seq!['?']);
    if pieces.len() > 1 {
        split(pieces[1], seq!['&'])
    } else {
        seq![]
    }
}

/// The map of the first `k` arguments: an argument `name=value` sets `name`
/// (to what comes before a second `=`, if any); an argument without `=` sets nothing.
pub open spec fn arg_map_upto(args: Seq<Seq<char>>, k: int) -> Map<Seq<char>, Seq<char>>
    decreases k,
{
    if k <= 0 || k > args.len() {
        Map::empty()
    } else {
        let parts = split(args[k - 1], seq!['=']);
        if parts.len() > 1 {
            arg_map_upto(args, k - 1).insert(parts[0], parts[1])
        } else {
            arg_map_upto(args, k - 1)
        }
    }
}

/// The query arguments of a decoded target.
pub open spec fn arg_map(target: Seq<char>) -> Map<Seq<char>, Seq<char>> {
    arg_map_upto(target_args(target), target_args(target).len() as int)
}

/// A request, as read from a client.
pub struct HTTPClient {
    /// The text of the request.
    pub request: String,
    pub method: HTTPMethod,
    /// The file system path the request names: the source directory followed by the target's path.
    pub path: String,
    /// The query arguments.
    pub args: Fields,
    /// The headers, by lowered name.
    pub headers: Fields,
}

/// `client` is the request `text`, whose target decodes to `target`, served from `source_directory`.
pub open spec fn describes(client: HTTPClient, text: Seq<char>, target: Seq<char>, source_directory: Seq<char>) -> bool {
    &&& client.request@ == text
    &&& client.method == request_method(text)
    &&& client.path@ == source_directory + target_path(target)
    &&& client.args@ == arg_map(target)
    &&& client.headers@ == header_map(text)
}

/// `client` is what reading the request `text` for files under `source_directory` gives:
/// the text has a target, the target decodes, and `client` describes both.
pub open spec fn reads_as(client: HTTPClient, text: Seq<char>, source_directory: Seq<char>) -> bool {
    &&& request_target(text) matches Some(t)
    &&& url_decoded(t) matches Some(d)
    &&& describes(client, text, d, source_directory)
}

proof fn lemma_header_end_bounds(lines: Seq<Seq<char>>, i: int)
    requires
        0 <= i <= lines.len(),
    ensures
        i <= header_end(lines, i) <= lines.len(),
    decreases lines.len() - i,
{
    if i < lines.len() && !is_blank(lines[i]) {
        lemma_header_end_bounds(lines, i + 1);
    }
}

/// The value of a hexadecimal digit byte.
pub open spec fn hex_digit(b: u8) -> Option<u8> {
    if 48 <= b <= 57 {
        Some((b - 48) as u8)
    } else if 65 <= b <= 70 {
        Some((b - 55) as u8)
    } else if 97 <= b <= 102 {
        Some((b - 87) as u8)
    } else {
        None
    }
}

/// Percent-decoding of bytes: each `%` followed by two hexadecimal digits becomes the
/// byte they spell; every other byte, a `%` not so followed among them, stays.
pub open spec fn percent_decode(b: Seq<u8>) -> Seq<u8>
    decreases b.len(),
{
    if b.len() == 0 {
        seq![]
    } else if b[0] == 37 && b.len() >= 3 && hex_digit(b[1]) is Some && hex_digit(b[2]) is Some {
        seq![(hex_digit(b[1])->0 * 16 + hex_digit(b[2])->0) as u8] + percent_decode(b.skip(3))
    } else {
        seq![b[0]] + percent_decode(b.skip(1))
    }
}

/// The percent-decoded form of a text: its UTF-8 bytes percent-decoded, read back as
/// UTF-8; nothing when the decoded bytes are not UTF-8.
pub open spec fn url_decoded(s: Seq<char>) -> Option<Seq<char>> {
    let bytes = percent_decode(encode_utf8(s));
    if valid_utf8(bytes) {
        Some(decode_utf8(bytes))
    } else {
        None
    }
}

proof fn lemma_scalar_has_no_percent(c: char)
    requires
        c != '%',
    ensures
        forall|i: int| 0 <= i < encode_scalar(c as u32).len() ==> #[trigger] encode_scalar(c as u32)[i] != 37,
{
    let v = c as u32;
    assert(v != 37) by {
        if v == 37 {
            assert(c == '%');
        }
    }
    if has_width_1_encoding(v) {
        assert((v & 0x7F) as u8 != 37u8) by (bit_vector)
            requires v <= 0x7F, v != 37;
    } else {
        assert(forall|y: u32| #![auto] (0xC0 | (y & 0x1F) as u8) != 37u8) by (bit_vector);
        assert(forall|y: u32| #![auto] (0xE0 | (y & 0x0F) as u8) != 37u8) by (bit_vector);
        assert(forall|y: u32| #![auto] (0xF0 | (y & 0x7) as u8) != 37u8) by (bit_vector);
        assert(forall|y: u32| #![auto] (0x80 | (y & 0x3F) as u8) != 37u8) by (bit_vector);
        assert(leading_byte_width_2(v) != 37);
        assert(leading_byte_width_3(v) != 37);
        assert(leading_byte_width_4(v) != 37);
        assert(last_continuation_byte(v) != 37);
        assert(second_last_continuation_byte(v) != 37);
        assert(third_last_continuation_byte(v) != 37);
    }
}

proof fn lemma_encoding_has_no_percent(s: Seq<char>)
    requires
        !s.contains('%'),
    ensures
        forall|i: int| 0 <= i < encode_utf8(s).len() ==> #[trigger] encode_utf8(s)[i] != 37,
    decreases s.len(),
{
    if s.len() > 0 {
        assert(s[0] != '%');
        lemma_scalar_has_no_percent(s[0]);
        assert(!s.drop_first().contains('%')) by {
            if s.drop_first().contains('%') {
                let j = choose|j: int| 0 <= j < s.drop_first().len() && s.drop_first()[j] == '%';
                assert(s[j + 1] == '%');
            }
        }
        lemma_encoding_has_no_percent(s.drop_first());
        let e = encode_scalar(s[0] as u32);
        let r = encode_utf8(s.drop_first());
        assert forall|i: int| 0 <= i < encode_utf8(s).len() implies #[trigger] encode_utf8(s)[i] != 37 by {
            if i < e.len() {
                assert(encode_utf8(s)[i] == e[i]);
            } else {
                assert(encode_utf8(s)[i] == r[i - e.len()]);
            }
        }
    }
}

proof fn lemma_percent_decode_plain(b: Seq<u8>)
    requires
        forall|i: int| 0 <= i < b.len() ==> #[trigger] b[i] != 37,
    ensures
        percent_decode(b) == b,
    decreases b.len(),
{
    if b.len() > 0 {
        lemma_percent_decode_plain(b.skip(1));
        assert(seq![b[0]] + b.skip(1) =~= b);
    }
}

/// A text without `%` decodes to itself.
pub proof fn plain_text_decodes_to_itself(s: Seq<char>)
    requires
        !s.contains('%'),
    ensures
        url_decoded(s) == Some(s),
{
    lemma_encoding_has_no_percent(s);
    lemma_percent_decode_plain(encode_utf8(s));
    encode_utf8_valid_utf8(s);
    encode_utf8_decode_utf8(s);
}

/// Calls `urlencoding::decode` and keeps an owned copy of what it gives. The crate
/// percent-decodes the text's bytes (`%` and two hexadecimal digits become one byte; no
/// other byte changes, `+` included) and reads the result as UTF-8, failing with
/// `FromUtf8Error` when it is not; that error becomes `None`.
#[verifier::external_body]
fn decode_url(s: &str) -> (res: Option<String>)
    ensures
        match res {
            Some(d) => url_decoded(s@) == Some(d@),
            None => url_decoded(s@) is None,
        },
{
    match urlencoding::decode(s) {
        Ok(decoded) => Some(decoded.into_owned()),
        Err(_) => None,
    }
}

/// Calls `std::str::from_utf8`: it succeeds exactly on well-formed UTF-8, and then gives
/// the characters that the bytes encode.
#[verifier::external_body]
fn utf8_text(bytes: &[u8]) -> (res: Option<&str>)
    ensures
        res is Some <==> valid_utf8(bytes@),
        res matches Some(t) ==> t@ == decode_utf8(bytes@),
{
    std::str::from_utf8(bytes).ok()
}

/// The requests that can be read without stopping the server: when the start line has a
/// target, the target decodes to UTF-8 and every header line has a colon (without a
/// target, the request is refused before its headers are looked at).
pub open spec fn readable(text: Seq<char>) -> bool {
    request_target(text) matches Some(t) ==> (url_decoded(t) is Some && headers_well_formed(text))
}

/// The target written on the start line of `text`, if there is one.
pub fn raw_target(text: &str) -> (res: Option<String>)
    ensures
        match res {
            Some(t) => request_target(text@) == Some(t@),
            None => request_target(text@) is None,
        },
{
    let chars = str_chars(text);
    let line_end = vec!['\r', '\n'];
    assert(line_end@ =~= crlf());
    let lines = split_by(&chars, &line_end);
    assert(views(lines@)[0] == lines@[0]@);
    let space = vec![' '];
    assert(space@ =~= seq![' ']);
    let parts = split_by(&lines[0], &space);
    if parts.len() > 1 {
        assert(views(parts@)[1] == parts@[1]@);
        Some(chars_to_string(&parts[1]))
    } else {
        None
    }
}

/// Whether every header line of `text` has a colon.
pub fn headers_have_colons(text: &str) -> (res: bool)
    ensures
        res == headers_well_formed(text@),
{
    let chars = str_chars(text);
    let line_end = vec!['\r', '\n'];
    assert(line_end@ =~= crlf());
    let lines = split_by(&chars, &line_end);
    let ghost lv = views(lines@);
    let ghost end = header_end(lv, 1);
    proof {
        lemma_header_end_bounds(lv, 1);
    }
    let ghost hl = lv.subrange(1, end);
    assert(hl == header_lines(text@));
    let colon_pat = vec![':'];
    assert(colon_pat@ =~= seq![':']);
    let mut i: usize = 1;
    while i < lines.len()
        invariant
            1 <= i <= lines@.len(),
            lv == views(lines@),
            hl == lv.subrange(1, end),
            i <= end <= lines@.len(),
            header_end(lv, i as int) == end,
            colon_pat@ == seq![':'],
            hl == header_lines(text@),
            forall|j: int| 0 <= j < i - 1 ==> first_match_from(#[trigger] hl[j], seq![':'], 0) is Some,
        ensures
            end == i,
            forall|j: int| 0 <= j < i - 1 ==> first_match_from(#[trigger] hl[j], seq![':'], 0) is Some,
        decreases lines@.len() - i,
    {
        assert(lv[i as int] == lines@[i as int]@);
        let trimmed = trim_chars(&lines[i]);
        if trimmed.len() == 0 {
            break;
        }
        assert(header_end(lv, i as int) == header_end(lv, i + 1));
        proof {
            lemma_header_end_bounds(lv, i + 1);
        }
        assert(hl[i - 1] == lines@[i as int]@);
        if find_from(&lines[i], &colon_pat, 0).is_none() {
            assert(first_match_from(header_lines(text@)[i - 1], seq![':'], 0) is None);
            assert(!headers_well_formed(text@));
            return false;
        }
        i = i + 1;
    }
    true
}

proof fn lemma_end_non_space_at_least(s: Seq<char>, j: int, lo: int, q: int)
    requires
        0 <= lo <= q < j <= s.len(),
        !is_white_space(s[q]),
    ensures
        end_non_space(s, j, lo) >= q + 1,
    decreases j,
{
    if is_white_space(s[j - 1]) {
        lemma_end_non_space_at_least(s, j - 1, lo, q);
    }
}

/// A line that starts with a character other than white space is not blank.
proof fn lemma_not_blank(s: Seq<char>)
    requires
        s.len() > 0,
        !is_white_space(s[0]),
    ensures
        !is_blank(s),
{
    assert(first_non_space(s, 0) == 0);
    lemma_end_non_space_at_least(s, s.len() as int, 0, 0);
    lemma_end_non_space_bounds(s, s.len() as int, 0);
    assert(trim(s).len() >= 1);
}

/// The header section of lines that begin with `prefix` runs past the end of `prefix`
/// when `prefix` has no blank line after its first.
proof fn lemma_header_end_past_prefix(lines: Seq<Seq<char>>, prefix: Seq<Seq<char>>, i: int)
    requires
        1 <= i <= prefix.len() <= lines.len(),
        forall|j: int| 0 <= j < prefix.len() ==> lines[j] == prefix[j],
        header_end(prefix, i) == prefix.len(),
    ensures
        header_end(lines, i) == header_end(lines, prefix.len() as int),
    decreases prefix.len() - i,
{
    if i < prefix.len() {
        assert(!is_blank(prefix[i]));
        lemma_header_end_past_prefix(lines, prefix, i + 1);
    }
}

proof fn lemma_header_map_upto_has(lines: Seq<Seq<char>>, k: int, j: int)
    requires
        0 <= j < k <= lines.len(),
    ensures
        header_map_upto(lines, k).contains_key(header_name(lines[j])),
    decreases k,
{
    if j < k - 1 {
        lemma_header_map_upto_has(lines, k - 1, j);
    }
}

/// A header line `name:...` that follows lines with no blank one among them (after the
/// start line) is among the headers, under `name` when the name is lowercase ASCII.
proof fn lemma_header_seen(head: Seq<char>, name: Seq<char>, tail: Seq<char>)
    requires
        header_end(request_lines(head), 1) == request_lines(head).len(),
        name.len() > 0,
        !is_white_space(name[0]),
        forall|q: int| 0 <= q < name.len() ==> name[q] != '\r' && name[q] != ':',
        all_ascii(name),
        ascii_lowercase(name) == name,
        tail.len() > 0,
        tail[0] == ':',
    ensures
        ({
            let text = head + crlf() + name + tail;
            let m = request_lines(head).len() as int;
            let t0 = split(tail, crlf())[0];
            &&& 1 <= m
            &&& t0.len() > 0 && t0[0] == ':'
            &&& request_lines(text) == request_lines(head) + split(tail, crlf()).update(0, name + t0)
            &&& m + 1 <= header_end(request_lines(text), m + 1) <= request_lines(text).len()
            &&& header_end(request_lines(text), 1) == header_end(request_lines(text), m + 1)
            &&& header_lines(text)[m - 1] == name + t0
            &&& header_name(name + t0) == name
            &&& first_match_from(name + t0, seq![':'], 0) is Some
            &&& header_map(text).contains_key(name)
        }),
{
    let text = head + crlf() + name + tail;
    let big_h = request_lines(head);
    let big_t = split(tail, crlf());
    assert(text =~= head + crlf() + (name + tail));
    lemma_split_lines_concat(head, name + tail, 0);
    lemma_split_past_prefix(name, tail, crlf());
    lemma_split_from_nonempty(head, crlf(), 0);
    lemma_split_from_nonempty(tail, crlf(), 0);
    lemma_first_match_from_bounds(tail, crlf(), 0);
    let t0 = big_t[0];
    assert(t0.len() > 0 && t0[0] == ':') by {
        if let Some(i) = first_match_from(tail, crlf(), 0) {
            if i == 0 {
                assert(tail.subrange(0, 2)[0] == tail[0]);
            }
        }
    }
    let lines = request_lines(text);
    let m = big_h.len() as int;
    assert(lines == big_h + big_t.update(0, name + t0));
    assert(lines[m] == name + t0);
    assert forall|j: int| 0 <= j < big_h.len() implies lines[j] == big_h[j] by {}
    lemma_header_end_past_prefix(lines, big_h, 1);
    assert((name + t0)[0] == name[0]);
    lemma_not_blank(name + t0);
    lemma_header_end_bounds(lines, m + 1);
    let end = header_end(lines, 1);
    let hl = lines.subrange(1, end);
    assert(hl == header_lines(text));
    assert(hl[m - 1] == name + t0);
    lemma_header_map_upto_has(hl, hl.len() as int, m - 1);
    lemma_first_match_past_prefix(name, t0, seq![':'], 0);
    assert((name + t0).subrange(name.len() as int, name.len() + 1int) =~= seq![':']);
    assert(colon(name + t0) == name.len());
    assert((name + t0).take(name.len() as int) =~= name);
    assert(header_end(lines, m) == header_end(lines, m + 1));
}

/// Lines that agree from `i` on have their header section end at the same place.
proof fn lemma_header_end_agree(a: Seq<Seq<char>>, b: Seq<Seq<char>>, i: int)
    requires
        1 <= i,
        a.len() == b.len(),
        forall|j: int| i <= j < a.len() ==> a[j] == b[j],
    ensures
        header_end(a, i) == header_end(b, i),
    decreases a.len() - i,
{
    if i < a.len() {
        lemma_header_end_agree(a, b, i + 1);
    }
}

proof fn lemma_header_map_upto_keys(lines: Seq<Seq<char>>, k: int, x: Seq<char>)
    requires
        0 <= k <= lines.len(),
        header_map_upto(lines, k).contains_key(x),
    ensures
        exists|j: int| 0 <= j < k && header_name(#[trigger] lines[j]) == x,
    decreases k,
{
    if k > 0 && header_name(lines[k - 1]) != x {
        lemma_header_map_upto_keys(lines, k - 1, x);
    }
}

/// A request forwarded after `mark_forwarded` is not forwarded again by the server that
/// gets it. Take a text holding, after lines none of which (past the start line) is blank,
/// a `redirect:` header line that is the first `redirect` in the text and the only header
/// line named `redirect`. Then the request has the `redirect` header; the marked text has
/// the `xxx-over` header (the one `is_recursive_redirect` looks for) and no `redirect`
/// header (so `is_redirect` gives nothing); and the marked text can be read whenever the
/// text can.
pub proof fn forwarded_request_is_marked(head: Seq<char>, tail: Seq<char>)
    requires
        header_end(request_lines(head), 1) == request_lines(head).len(),
        tail.len() > 0,
        tail[0] == ':',
        first_match_from(head + crlf() + "redirect"@ + tail, "redirect"@, 0) == Some(head.len() + 2int),
        forall|j: int|
            0 <= j < header_lines(head + crlf() + "redirect"@ + tail).len() && j != request_lines(head).len() - 1
                ==> header_name(#[trigger] header_lines(head + crlf() + "redirect"@ + tail)[j]) != "redirect"@,
    ensures
        header_map(head + crlf() + "redirect"@ + tail).contains_key("redirect"@),
        ({
            let text = head + crlf() + "redirect"@ + tail;
            let i = head.len() + 2int;
            let marked = text.take(i) + "xxx-over"@ + text.skip(i + "redirect"@.len());
            &&& header_map(marked).contains_key("xxx-over"@)
            &&& !header_map(marked).contains_key("redirect"@)
            &&& readable(text) ==> readable(marked)
        }),
{
    reveal_strlit("redirect");
    reveal_strlit("xxx-over");
    let r = "redirect"@;
    let x = "xxx-over"@;
    assert(ascii_lowercase(r) =~= r);
    assert(ascii_lowercase(x) =~= x);
    lemma_header_seen(head, r, tail);
    lemma_header_seen(head, x, tail);
    let text = head + crlf() + r + tail;
    let i = head.len() + 2int;
    let marked = head + crlf() + x + tail;
    assert(text.take(i) + x + text.skip(i + r.len()) =~= marked);
    let m = request_lines(head).len() as int;
    let t0 = split(tail, crlf())[0];
    let lr = request_lines(text);
    let lx = request_lines(marked);
    let big_h = request_lines(head);
    let big_t = split(tail, crlf());
    assert(lr == big_h + big_t.update(0, r + t0));
    assert(lx == big_h + big_t.update(0, x + t0));
    lemma_split_from_nonempty(tail, crlf(), 0);
    assert(lr.len() == lx.len());
    assert forall|j: int| m + 1 <= j < lr.len() implies lr[j] == lx[j] by {
        assert(lr[j] == big_t[j - m]);
        assert(lx[j] == big_t[j - m]);
    }
    lemma_header_end_agree(lr, lx, m + 1);
    let hr = header_lines(text);
    let hx = header_lines(marked);
    assert(hr.len() == hx.len());
    assert forall|j: int| 0 <= j < hr.len() && j != m - 1 implies hr[j] == hx[j] by {
        assert(hr[j] == lr[j + 1]);
        assert(hx[j] == lx[j + 1]);
    }
    if header_map(marked).contains_key(r) {
        lemma_header_map_upto_keys(hx, hx.len() as int, r);
        let j = choose|j: int| 0 <= j < hx.len() && header_name(#[trigger] hx[j]) == r;
        if j == m - 1 {
            assert(x[0] != r[0]);
        } else {
            assert(hr[j] == hx[j]);
        }
    }
    assert(lr[0] == lx[0]);
    assert(start_line_parts(text) == start_line_parts(marked));
    if readable(text) && request_target(text) is Some {
        assert forall|j: int| 0 <= j < hx.len() implies first_match_from(#[trigger] hx[j], seq![':'], 0) is Some by {
            if j != m - 1 {
                assert(hr[j] == hx[j]);
                assert(first_match_from(hr[j], seq![':'], 0) is Some);
            }
        }
    }
}

/// A request made of a start line `method target version` and one header line
/// `name:value`, then a blank line and a body, is read as it is written: the target is
/// the second word of the start line, the method is POST exactly when the first word is
/// `POST`, and the headers are that one header, under its lowered name, with everything
/// after the colon as its value, whatever the body holds.
pub proof fn simple_request_is_read(
    method: Seq<char>,
    target: Seq<char>,
    version: Seq<char>,
    name: Seq<char>,
    value: Seq<char>,
    body: Seq<char>,
)
    requires
        !method.contains(' ') && !method.contains('\r'),
        !target.contains(' ') && !target.contains('\r'),
        !version.contains('\r'),
        name.len() > 0 && !is_white_space(name[0]),
        !name.contains(':') && !name.contains('\r'),
        !value.contains('\r'),
    ensures
        ({
            let text = method + seq![' '] + target + seq![' '] + version + crlf() + name + seq![':'] + value + crlf()
                + crlf() + body;
            &&& request_target(text) == Some(target)
            &&& request_method(text) == (if method == "POST"@ {
                HTTPMethod::Post
            } else {
                HTTPMethod::Get
            })
            &&& header_map(text) == Map::<Seq<char>, Seq<char>>::empty().insert(lower(name), value)
            &&& headers_well_formed(text)
        }),
{
    let sp = seq![' '];
    let start = method + sp + target + sp + version;
    let line = name + seq![':'] + value;
    let text = method + seq![' '] + target + seq![' '] + version + crlf() + name + seq![':'] + value + crlf() + crlf() + body;
    let empty = Seq::<char>::empty();
    assert(text =~= start + crlf() + (line + crlf() + (empty + crlf() + body)));
    assert forall|q: int| 0 <= q < start.len() implies start[q] != crlf()[0] by {
        if q < method.len() {
            assert(start[q] == method[q]);
            if method[q] == '\r' { assert(method.contains('\r')); }
        } else if q == method.len() {
        } else if q < method.len() + 1 + target.len() {
            assert(start[q] == target[q - method.len() - 1]);
            if target[q - method.len() - 1] == '\r' { assert(target.contains('\r')); }
        } else if q == method.len() + 1 + target.len() {
        } else {
            assert(start[q] == version[q - method.len() - 2 - target.len()]);
            if version[q - method.len() - 2 - target.len()] == '\r' { assert(version.contains('\r')); }
        }
    }
    assert forall|q: int| 0 <= q < line.len() implies line[q] != crlf()[0] by {
        if q < name.len() {
            assert(line[q] == name[q]);
            if name[q] == '\r' { assert(name.contains('\r')); }
        } else if q == name.len() {
        } else {
            assert(line[q] == value[q - name.len() - 1]);
            if value[q - name.len() - 1] == '\r' { assert(value.contains('\r')); }
        }
    }
    lemma_split_lines_concat(start, line + crlf() + (empty + crlf() + body), 0);
    lemma_split_lines_concat(line, empty + crlf() + body, 0);
    lemma_split_lines_concat(empty, body, 0);
    lemma_split_no_sep(start, crlf());
    lemma_split_no_sep(line, crlf());
    lemma_split_empty(crlf());
    let rest = split(body, crlf());
    let lines = request_lines(text);
    assert(lines =~= seq![start, line, empty] + rest);
    // the start line
    lemma_split_cons(method, ' ', target + sp + version);
    lemma_split_cons(target, ' ', version);
    assert(start =~= method + sp + (target + sp + version));
    lemma_split_from_nonempty(version, sp, 0);
    assert(start_line_parts(text) =~= seq![method, target] + split(version, sp));
    // the header section
    assert(line[0] == name[0]);
    lemma_not_blank(line);
    lemma_trim_plain(empty);
    assert(is_blank(empty));
    assert(lines[1] == line && lines[2] == empty);
    assert(header_end(lines, 2) == 2);
    assert(header_end(lines, 1) == header_end(lines, 2));
    let hl = header_lines(text);
    assert(hl =~= seq![line]);
    assert forall|q: int| 0 <= q < name.len() implies name[q] != seq![':'][0] by {
        if name[q] == ':' { assert(name.contains(':')); }
    }
    lemma_first_match_past_prefix(name, seq![':'] + value, seq![':'], 0);
    assert(line =~= name + (seq![':'] + value));
    assert(line.subrange(name.len() as int, name.len() + 1int) =~= seq![':']);
    assert(colon(line) == name.len());
    assert(line.take(name.len() as int) =~= name);
    assert(line.skip(name.len() + 1int) =~= value);
    assert(header_map_upto(hl, 0) == Map::<Seq<char>, Seq<char>>::empty());
    assert(header_map(text) == header_map_upto(hl, 0).insert(lower(name), value));
}

/// The file a request names lies under the source directory: its path is the source
/// directory followed by the decoded target's path, which for a target without `%`, `?`
/// is the target itself.
pub proof fn requested_file_is_under_source_directory(client: HTTPClient, text: Seq<char>, source_directory: Seq<char>)
    requires
        reads_as(client, text, source_directory),
    ensures
        source_directory.is_prefix_of(client.path@),
        ({
            let t = request_target(text)->0;
            !t.contains('%') && !t.contains('?') ==> client.path@ == source_directory + t
        }),
{
    let t = request_target(text)->0;
    let d = url_decoded(t)->0;
    assert((source_directory + target_path(d)).subrange(0, source_directory.len() as int) =~= source_directory);
    if !t.contains('%') && !t.contains('?') {
        plain_text_decodes_to_itself(t);
        assert forall|q: int| 0 <= q < t.len() implies t[q] != seq!['?'][0] by {
            if t[q] == '?' {
                assert(t.contains('?'));
            }
        }
        lemma_split_no_sep(t, seq!['?']);
    }
}

/// Whether `s` holds none of the characters that delimit query arguments.
pub open spec fn plain_query_text(s: Seq<char>) -> bool {
    !s.contains('?') && !s.contains('&') && !s.contains('=')
}

proof fn lemma_no_char_in_concat(a: Seq<char>, b: Seq<char>, c: char)
    requires
        !a.contains(c),
        !b.contains(c),
    ensures
        !(a + b).contains(c),
{
    if (a + b).contains(c) {
        let q = choose|q: int| 0 <= q < (a + b).len() && (a + b)[q] == c;
        if q < a.len() {
            assert(a[q] == c);
        } else {
            assert(b[q - a.len()] == c);
        }
    }
}

/// The target `path?name=value` names the file `path` and passes the one argument
/// `name`, set to `value`, whatever `value` is, the empty text included.
pub proof fn query_argument_is_passed(path: Seq<char>, name: Seq<char>, value: Seq<char>)
    requires
        !path.contains('?'),
        plain_query_text(name),
        plain_query_text(value),
    ensures
        target_path(path + seq!['?'] + name + seq!['='] + value) == path,
        arg_map(path + seq!['?'] + name + seq!['='] + value) == Map::<Seq<char>, Seq<char>>::empty().insert(name, value),
{
    let arg = name + seq!['='] + value;
    assert(!seq!['='].contains('?') && !seq!['='].contains('&')) by {
        if seq!['='].contains('?') { let q = choose|q: int| 0 <= q < 1 && seq!['='][q] == '?'; }
        if seq!['='].contains('&') { let q = choose|q: int| 0 <= q < 1 && seq!['='][q] == '&'; }
    }
    lemma_no_char_in_concat(name, seq!['='], '?');
    lemma_no_char_in_concat(name + seq!['='], value, '?');
    lemma_no_char_in_concat(name, seq!['='], '&');
    lemma_no_char_in_concat(name + seq!['='], value, '&');
    let t = path + seq!['?'] + name + seq!['='] + value;
    assert(t =~= path + seq!['?'] + arg);
    lemma_split_pair(path, '?', arg);
    assert forall|q: int| 0 <= q < arg.len() implies arg[q] != seq!['&'][0] by {
        if arg[q] == '&' {
            assert(arg.contains('&'));
        }
    }
    lemma_split_no_sep(arg, seq!['&']);
    lemma_split_pair(name, '=', value);
    let args = target_args(t);
    assert(args == seq![arg]);
    assert(args[0] == arg);
    assert(split(args[0], seq!['=']) == seq![name, value]);
    assert(arg_map_upto(args, 0) == Map::<Seq<char>, Seq<char>>::empty());
    assert(arg_map_upto(args, 1) == arg_map_upto(args, 0).insert(name, value));
    assert(arg_map(t) =~= Map::<Seq<char>, Seq<char>>::empty().insert(name, value));
}

/// The target `path?n1=v1&n2=v2` passes both arguments, the second one winning when the
/// names are the same.
pub proof fn query_arguments_are_passed(path: Seq<char>, n1: Seq<char>, v1: Seq<char>, n2: Seq<char>, v2: Seq<char>)
    requires
        !path.contains('?'),
        plain_query_text(n1),
        plain_query_text(v1),
        plain_query_text(n2),
        plain_query_text(v2),
    ensures
        arg_map(path + seq!['?'] + n1 + seq!['='] + v1 + seq!['&'] + n2 + seq!['='] + v2)
            == Map::<Seq<char>, Seq<char>>::empty().insert(n1, v1).insert(n2, v2),
{
    let a1 = n1 + seq!['='] + v1;
    let a2 = n2 + seq!['='] + v2;
    let q = a1 + seq!['&'] + a2;
    assert(!seq!['='].contains('?') && !seq!['='].contains('&') && !seq!['&'].contains('?')) by {
        if seq!['='].contains('?') { let q = choose|q: int| 0 <= q < 1 && seq!['='][q] == '?'; }
        if seq!['='].contains('&') { let q = choose|q: int| 0 <= q < 1 && seq!['='][q] == '&'; }
        if seq!['&'].contains('?') { let q = choose|q: int| 0 <= q < 1 && seq!['&'][q] == '?'; }
    }
    lemma_no_char_in_concat(n1, seq!['='], '?');
    lemma_no_char_in_concat(n1 + seq!['='], v1, '?');
    lemma_no_char_in_concat(n1, seq!['='], '&');
    lemma_no_char_in_concat(n1 + seq!['='], v1, '&');
    lemma_no_char_in_concat(n2, seq!['='], '?');
    lemma_no_char_in_concat(n2 + seq!['='], v2, '?');
    lemma_no_char_in_concat(n2, seq!['='], '&');
    lemma_no_char_in_concat(n2 + seq!['='], v2, '&');
    lemma_no_char_in_concat(a1, seq!['&'], '?');
    lemma_no_char_in_concat(a1 + seq!['&'], a2, '?');
    let t = path + seq!['?'] + n1 + seq!['='] + v1 + seq!['&'] + n2 + seq!['='] + v2;
    assert(t =~= path + seq!['?'] + q);
    lemma_split_pair(path, '?', q);
    lemma_split_pair(a1, '&', a2);
    lemma_split_pair(n1, '=', v1);
    lemma_split_pair(n2, '=', v2);
    let args = target_args(t);
    assert(args == seq![a1, a2]);
    assert(args[0] == a1 && args[1] == a2);
    assert(split(args[0], seq!['=']) == seq![n1, v1]);
    assert(split(args[1], seq!['=']) == seq![n2, v2]);
    assert(arg_map_upto(args, 0) == Map::<Seq<char>, Seq<char>>::empty());
    assert(arg_map_upto(args, 2) == arg_map_upto(args, 1).insert(n2, v2));
    assert(arg_map_upto(args, 1) =~= Map::<Seq<char>, Seq<char>>::empty().insert(n1, v1));
    assert(arg_map(t) =~= Map::<Seq<char>, Seq<char>>::empty().insert(n1, v1).insert(n2, v2));
}

impl HTTPClient {
    /// The request `text`, whose target has been decoded to `target`, for files under `source_directory`.
    pub fn from_parts(text: &str, target: &str, source_directory: &str) -> (res: HTTPClient)
        requires
            headers_well_formed(text@),
        ensures
            describes(res, text@, target@, source_directory@),
    {
        let chars = str_chars(text);
        let line_end = vec!['\r', '\n'];
        assert(line_end@ =~= crlf());
        let lines = split_by(&chars, &line_end);
        let ghost lv = views(lines@);
        assert(lv == request_lines(text@));
        assert(lv[0] == lines@[0]@);
        let space = vec![' '];
        assert(space@ =~= seq![' ']);
        let start_parts = split_by(&lines[0], &space);
        assert(views(start_parts@) == start_line_parts(text@));
        assert(views(start_parts@)[0] == start_parts@[0]@);
        let method = if chars_eq(&start_parts[0], &str_chars("POST")) {
            HTTPMethod::Post
        } else {
            HTTPMethod::Get
        };

        let target_chars = str_chars(target);
        let question = vec!['?'];
        assert(question@ =~= seq!['?']);
        let pieces = split_by(&target_chars, &question);
        assert(views(pieces@)[0] == pieces@[0]@);
        let mut path_chars = str_chars(source_directory);
        let ghost dir = path_chars@;
        let mut i: usize = 0;
        while i < pieces[0].len()
            invariant
                pieces@.len() >= 1,
                i <= pieces@[0]@.len(),
                path_chars@ == dir + pieces@[0]@.take(i as int),
            decreases pieces@[0]@.len() - i,
        {
            path_chars.push(pieces[0][i]);
            i = i + 1;
            assert(path_chars@ =~= dir + pieces@[0]@.take(i as int));
        }
        assert(pieces@[0]@.take(pieces@[0]@.len() as int) =~= pieces@[0]@);
        let path = chars_to_string(&path_chars);

        let args = Self::parse_args(&pieces);

        let headers = Self::parse_headers(&lines, Ghost(text@));
        HTTPClient { request: String::from_str(text), method, path, args, headers }
    }

    /// Reads the request `text`, for files under `source_directory`. It is refused when
    /// its start line has no target.
    pub fn from_text(text: &str, source_directory: &str) -> (res: Result<HTTPClient, ()>)
        requires
            readable(text@),
        ensures
            match res {
                Ok(client) => reads_as(client, text@, source_directory@),
                Err(()) => request_target(text@) is None,
            },
    {
        match raw_target(text) {
            Some(target) => {
                let decoded = decode_url(target.as_str()).unwrap();
                Ok(Self::from_parts(text, decoded.as_str(), source_directory))
            },
            None => Err(()),
        }
    }

    /// Reads a request from the bytes a client sent, for files under `source_directory`.
    /// It is refused when the bytes are not UTF-8 or the start line has no target.
    pub fn new(request: &[u8], source_directory: &str) -> (res: Result<HTTPClient, ()>)
        requires
            valid_utf8(request@) ==> readable(decode_utf8(request@)),
        ensures
            match res {
                Ok(client) => valid_utf8(request@) && reads_as(client, decode_utf8(request@), source_directory@),
                Err(()) => !valid_utf8(request@) || request_target(decode_utf8(request@)) is None,
            },
    {
        match utf8_text(request) {
            Some(text) => Self::from_text(text, source_directory),
            None => Err(()),
        }
    }

    /// As `new`, but first checks that the request can be read: `None` when the bytes are
    /// UTF-8 but the request is not `readable`.
    pub fn try_new(request: &[u8], source_directory: &str) -> (res: Option<Result<HTTPClient, ()>>)
        ensures
            res is None <==> valid_utf8(request@) && !readable(decode_utf8(request@)),
            res matches Some(r) ==> match r {
                Ok(client) => valid_utf8(request@) && reads_as(client, decode_utf8(request@), source_directory@),
                Err(()) => !valid_utf8(request@) || request_target(decode_utf8(request@)) is None,
            },
    {
        match utf8_text(request) {
            Some(text) => {
                if let Some(target) = raw_target(text) {
                    if decode_url(target.as_str()).is_none() || !headers_have_colons(text) {
                        return None;
                    }
                }
                Some(Self::new(request, source_directory))
            },
            None => Some(Err(())),
        }
    }

    /// Takes the `redirect` header out of the request and gives its value: the host the
    /// request is to be forwarded to.
    pub fn is_redirect(&mut self) -> (res: Option<String>)
        ensures
            final(self).headers@ == old(self).headers@.remove("redirect"@),
            !final(self).headers@.contains_key("redirect"@),
            match res {
                Some(v) => old(self).headers@.contains_key("redirect"@) && v@ == old(self).headers@["redirect"@],
                None => !old(self).headers@.contains_key("redirect"@),
            },
            final(self).request == old(self).request,
            final(self).method == old(self).method,
            final(self).path == old(self).path,
            final(self).args == old(self).args,
    {
        self.headers.remove("redirect")
    }

    /// Takes the `xxx-over` header out of the request and tells whether it was there: the
    /// mark of a request that another server has already forwarded.
    pub fn is_recursive_redirect(&mut self) -> (res: bool)
        ensures
            res == old(self).headers@.contains_key("xxx-over"@),
            final(self).headers@ == old(self).headers@.remove("xxx-over"@),
            !final(self).headers@.contains_key("xxx-over"@),
            final(self).request == old(self).request,
            final(self).method == old(self).method,
            final(self).path == old(self).path,
            final(self).args == old(self).args,
    {
        if let Some(_) = self.headers.remove("xxx-over") {
            true
        } else {
            false
        }
    }

    /// Marks the request as forwarded before it is sent on: the first `redirect` in its
    /// text becomes `xxx-over`. Gives `false`, and changes nothing, when the text holds no
    /// `redirect`.
    pub fn mark_forwarded(&mut self) -> (res: bool)
        ensures
            res == first_match_from(old(self).request@, "redirect"@, 0) is Some,
            first_match_from(old(self).request@, "redirect"@, 0) matches Some(i) ==> final(self).request@
                == old(self).request@.take(i) + "xxx-over"@ + old(self).request@.skip(i + "redirect"@.len()),
            !res ==> final(self).request == old(self).request,
            final(self).method == old(self).method,
            final(self).path == old(self).path,
            final(self).args == old(self).args,
            final(self).headers == old(self).headers,
    {
        let chars = str_chars(self.request.as_str());
        let pat = str_chars("redirect");
        match find_from(&chars, &pat, 0) {
            Some(i) => {
                proof {
                    lemma_first_match_from_bounds(chars@, pat@, 0);
                }
                let n = chars.len();
                let mut out = sub_vec(&chars, 0, i);
                let mut mark = str_chars("xxx-over");
                out.append(&mut mark);
                let mut rest = sub_vec(&chars, i + pat.len(), n);
                out.append(&mut rest);
                self.request = chars_to_string(&out);
                true
            },
            None => false,
        }
    }

    /// The value of the `range` header, if the request has one.
    pub open spec fn range_header(&self) -> Option<Seq<char>> {
        if self.headers@.contains_key("range"@) {
            Some(self.headers@["range"@])
        } else {
            None
        }
    }

    /// How the requested resource is served: a directory by its HTML index when that
    /// exists, else by its PHP index, which is run; a file by its extension. For a
    /// directory, the index file to use is given too.
    pub fn resource(&self, is_directory: bool, html_index_exists: bool) -> (res: (Option<&'static str>, Content))
        ensures
            is_directory && html_index_exists ==> (res.0 matches Some(f) && f@ == "index.html"@ && !res.1.execute
                && res.1.content_type == ContentType::Html),
            is_directory && !html_index_exists ==> (res.0 matches Some(f) && f@ == "index.php"@ && res.1.execute
                && res.1.content_type == ContentType::Html),
            !is_directory ==> res.0 is None && res.1 == file_content(self.path@),
    {
        if is_directory {
            let (file, content) = directory_index(html_index_exists);
            (Some(file), content)
        } else {
            (None, content_of_file(self.path.as_str()))
        }
    }

    /// The head of the response to this request and the part of the body to send, for a
    /// body of `len` bytes of type `content_type`; `None` when the range the request asks
    /// for cannot be served.
    pub fn respond(&self, len: usize, content_type: ContentType) -> (res: Option<(String, usize, usize)>)
        ensures
            match res {
                Some((h, start, end)) => reply(self.range_header(), content_type, len as nat) == Some(
                    (h@, start as int, end as int),
                ),
                None => reply(self.range_header(), content_type, len as nat) is None,
            },
    {
        let range = self.headers.get("range");
        answer(range, content_type, len)
    }

    fn parse_args(pieces: &Vec<Vec<char>>) -> (res: Fields)
        requires
            pieces@.len() >= 1,
        ensures
            res@ == (if pieces@.len() > 1 {
                arg_map_upto(split(pieces@[1]@, seq!['&']), split(pieces@[1]@, seq!['&']).len() as int)
            } else {
                Map::empty()
            }),
    {
        let mut args = Fields::new();
        if pieces.len() > 1 {
            let amp = vec!['&'];
            assert(amp@ =~= seq!['&']);
            let list = split_by(&pieces[1], &amp);
            let ghost lv = views(list@);
            let equals = vec!['='];
            assert(equals@ =~= seq!['=']);
            let mut k: usize = 0;
            while k < list.len()
                invariant
                    k <= list@.len(),
                    lv == views(list@),
                    equals@ == seq!['='],
                    args@ == arg_map_upto(lv, k as int),
                decreases list@.len() - k,
            {
                assert(lv[k as int] == list@[k as int]@);
                let parts = split_by(&list[k], &equals);
                if parts.len() > 1 {
                    assert(views(parts@)[0] == parts@[0]@ && views(parts@)[1] == parts@[1]@);
                    let name = chars_to_string(&parts[0]);
                    let value = chars_to_string(&parts[1]);
                    args.insert(name, value);
                }
                k = k + 1;
            }
        }
        args
    }

    fn parse_headers(lines: &Vec<Vec<char>>, Ghost(text): Ghost<Seq<char>>) -> (res: Fields)
        requires
            views(lines@) == request_lines(text),
            lines@.len() >= 1,
            headers_well_formed(text),
        ensures
            res@ == header_map(text),
    {
        let ghost lv = views(lines@);
        let ghost end = header_end(lv, 1);
        proof {
            lemma_header_end_bounds(lv, 1);
        }
        let ghost hl = lv.subrange(1, end);
        assert(hl == header_lines(text));
        let mut headers = Fields::new();
        let colon_pat = vec![':'];
        assert(colon_pat@ =~= seq![':']);
        let mut i: usize = 1;
        while i < lines.len()
            invariant
                1 <= i <= lines@.len(),
                lv == views(lines@),
                hl == lv.subrange(1, end),
                i <= end <= lines@.len(),
                header_end(lv, i as int) == end,
                hl == header_lines(text),
                headers_well_formed(text),
                colon_pat@ == seq![':'],
                headers@ == header_map_upto(hl, i - 1),
            ensures
                end == i,
                headers@ == header_map_upto(hl, i - 1),
                hl == header_lines(text),
                hl == lv.subrange(1, end),
            decreases lines@.len() - i,
        {
            assert(lv[i as int] == lines@[i as int]@);
            let trimmed = trim_chars(&lines[i]);
            if trimmed.len() == 0 {
                assert(end == i);
                break;
            }
            assert(!is_blank(lv[i as int]));
            assert(header_end(lv, i as int) == header_end(lv, i + 1));
            proof {
                lemma_header_end_bounds(lv, i + 1);
            }
            assert(hl[i - 1] == lines@[i as int]@);
            let pos = find_from(&lines[i], &colon_pat, 0);
            assert(first_match_from(hl[i - 1], seq![':'], 0) is Some);
            let p = pos.unwrap();
            proof {
                lemma_first_match_from_bounds(lines@[i as int]@, seq![':'], 0);
            }
            let line_len = lines[i].len();
            assert(p + 1 <= line_len);
            let name_chars = sub_vec(&lines[i], 0, p);
            let value_chars = sub_vec(&lines[i], p + 1, line_len);
            assert(name_chars@ =~= hl[i - 1].take(colon(hl[i - 1])));
            assert(value_chars@ =~= header_value(hl[i - 1]));
            let name = chars_to_string(&lower_chars(&name_chars));
            let value = chars_to_string(&value_chars);
            headers.insert(name, value);
            assert(headers@ == header_map_upto(hl, i as int));
            i = i + 1;
        }
        headers
    }
}

} // verus!
