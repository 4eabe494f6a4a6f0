use vstd::prelude::*;

use crate::text::{
    find_from, first_match_from, lemma_first_match_from_bounds, parse_unsigned, parsed_unsigned,
    split, split_by, str_chars, sub_vec, trim, trim_chars, views, decimal, lemma_decimal_plain,
    lemma_decimal_parses, lemma_split_cons, lemma_split_no_sep, lemma_no_match,
    lemma_first_match_char_concat,
};

verus! {

/// What the address argument of the server tells it.
#[derive(Clone, Copy, Debug)]
pub enum ListenArg {
    /// Keep the default address and port.
    Default,
    /// Listen on the IPv4 address `a.b.c.d` and the port.
    Address(u8, u8, u8, u8, u16),
    /// A part of the argument is not a number that fits.
    Invalid,
}

/// The value of one dot-separated part of an address, blanks around it ignored.
pub open spec fn address_part(p: Seq<char>) -> Option<nat> {
    parsed_unsigned(trim(p), 255)
}

/// What `address:port` tells the server. Without a colon the default stays; every
/// dot-separated part of the address must be a byte; an address of four parts is taken,
/// with its port, which must then be a 16-bit number; any other count keeps the default.
pub open spec fn listen_arg(arg: Seq<char>) -> ListenArg {
    match first_match_from(arg, seq![':'], 0) {
        None => ListenArg::Default,
        Some(c) => {
            let parts = split(arg.take(c), seq!['.']);
            let port = arg.skip(c + 1);
            if exists|i: int| 0 <= i < parts.len() && address_part(#[trigger] parts[i]) is None {
                ListenArg::Invalid
            } else if parts.len() != 4 {
                ListenArg::Default
            } else {
                match parsed_unsigned(trim(port), 65535) {
                    None => ListenArg::Invalid,
                    Some(p) => ListenArg::Address(
                        address_part(parts[0])->0 as u8,
                        address_part(parts[1])->0 as u8,
                        address_part(parts[2])->0 as u8,
                        address_part(parts[3])->0 as u8,
                        p as u16,
                    ),
                }
            }
        },
    }
}

/// Reads the `address:port` argument.
pub fn parse_listen_arg(arg: &str) -> (res: ListenArg)
    ensures
        res == listen_arg(arg@),
{
    let chars = str_chars(arg);
    let colon = vec![':'];
    assert(colon@ =~= seq![':']);
    let c = match find_from(&chars, &colon, 0) {
        None => {
            return ListenArg::Default;
        },
        Some(c) => c,
    };
    proof {
        lemma_first_match_from_bounds(chars@, colon@, 0);
    }
    let n = chars.len();
    let address = sub_vec(&chars, 0, c);
    let port = sub_vec(&chars, c + 1, n);
    assert(address@ =~= chars@.take(c as int));
    assert(port@ =~= chars@.skip(c + 1));
    let dot = vec!['.'];
    assert(dot@ =~= seq!['.']);
    let parts = split_by(&address, &dot);
    let ghost pv = views(parts@);
    assert(pv == split(arg@.take(c as int), seq!['.']));
    let mut values: Vec<u8> = Vec::new();
    let mut i: usize = 0;
    while i < parts.len()
        invariant
            pv == views(parts@),
            pv == split(arg@.take(c as int), seq!['.']),
            first_match_from(arg@, seq![':'], 0) == Some(c as int),
            i <= parts@.len(),
            values@.len() == i,
            forall|j: int| 0 <= j < i ==> address_part(#[trigger] pv[j]) == Some(values@[j] as nat),
        decreases parts@.len() - i,
    {
        assert(pv[i as int] == parts@[i as int]@);
        let trimmed = trim_chars(&parts[i]);
        match parse_unsigned(&trimmed, 255) {
            Some(v) => {
                values.push(v as u8);
            },
            None => {
                assert(address_part(pv[i as int]) is None);
                return ListenArg::Invalid;
            },
        }
        i = i + 1;
    }
    if parts.len() != 4 {
        return ListenArg::Default;
    }
    let port_chars = trim_chars(&port);
    match parse_unsigned(&port_chars, 65535) {
        None => ListenArg::Invalid,
        Some(p) => {
            assert(address_part(pv[0]) == Some(values@[0] as nat));
            assert(address_part(pv[1]) == Some(values@[1] as nat));
            assert(address_part(pv[2]) == Some(values@[2] as nat));
            assert(address_part(pv[3]) == Some(values@[3] as nat));
            ListenArg::Address(values[0], values[1], values[2], values[3], p as u16)
        },
    }
}

/// Reads a count, such as a thread limit or a stack size, as `str::parse::<usize>` does.
pub fn parse_count(s: &str) -> (res: Option<usize>)
    ensures
        match res {
            Some(v) => parsed_unsigned(s@, usize::MAX as nat) == Some(v as nat),
            None => parsed_unsigned(s@, usize::MAX as nat) is None,
        },
{
    let chars = str_chars(s);
    parse_unsigned(&chars, usize::MAX)
}

proof fn lemma_no_char_in_concat(a: Seq<char>, b: Seq<char>, c: char)
    requires
        !a.contains(c),
        !b.contains(c),
    ensures
        !(a + b).contains(c),
{
    if (a + b).contains(c) {
        let q = choose|q: int| 0 <= q < (a + b).len() && (a + b)[q] == c;
        if q < a.len() {
            assert(a[q] == c);
        } else {
            assert(b[q - a.len()] == c);
        }
    }
}

/// `a.b.c.d:p`, written with bytes `a`..`d` and a 16-bit port `p`, tells the server to
/// listen on the IPv4 address `a.b.c.d` and the port `p`.
pub proof fn address_and_port_are_read(a: u8, b: u8, c: u8, d: u8, p: u16)
    ensures
        listen_arg(
            decimal(a as nat) + seq!['.'] + decimal(b as nat) + seq!['.'] + decimal(c as nat) + seq!['.'] + decimal(
                d as nat,
            ) + seq![':'] + decimal(p as nat),
        ) == ListenArg::Address(a, b, c, d, p),
{
    let da = decimal(a as nat);
    let db = decimal(b as nat);
    let dc = decimal(c as nat);
    let dd = decimal(d as nat);
    let dp = decimal(p as nat);
    lemma_decimal_plain(a as nat);
    lemma_decimal_plain(b as nat);
    lemma_decimal_plain(c as nat);
    lemma_decimal_plain(d as nat);
    lemma_decimal_plain(p as nat);
    let dot = seq!['.'];
    assert(!dot.contains(':')) by {
        if dot.contains(':') {
            let q = choose|q: int| 0 <= q < 1 && dot[q] == ':';
        }
    }
    let s3 = dc + dot + dd;
    let s2 = db + dot + s3;
    let address = da + dot + s2;
    lemma_no_char_in_concat(dc, dot, ':');
    lemma_no_char_in_concat(dc + dot, dd, ':');
    lemma_no_char_in_concat(db, dot, ':');
    lemma_no_char_in_concat(db + dot, s3, ':');
    lemma_no_char_in_concat(da, dot, ':');
    lemma_no_char_in_concat(da + dot, s2, ':');
    let arg = da + dot + db + dot + dc + dot + dd + seq![':'] + dp;
    assert(arg =~= address + seq![':'] + dp);
    lemma_no_match(address, ':', 0);
    lemma_first_match_char_concat(address, dp, ':', 0);
    assert(arg.take(address.len() as int) =~= address);
    assert(arg.skip(address.len() + 1int) =~= dp);
    lemma_split_cons(da, '.', s2);
    lemma_split_cons(db, '.', s3);
    lemma_split_cons(dc, '.', dd);
    assert forall|q: int| 0 <= q < dd.len() implies dd[q] != dot[0] by {
        if dd[q] == '.' {
            assert(dd.contains('.'));
        }
    }
    lemma_split_no_sep(dd, dot);
    let parts = split(address, dot);
    assert(parts =~= seq![da, db, dc, dd]);
    lemma_decimal_parses(a as nat, 255);
    lemma_decimal_parses(b as nat, 255);
    lemma_decimal_parses(c as nat, 255);
    lemma_decimal_parses(d as nat, 255);
    lemma_decimal_parses(p as nat, 65535);
    assert(address_part(parts[0]) == Some(a as nat));
    assert(address_part(parts[1]) == Some(b as nat));
    assert(address_part(parts[2]) == Some(c as nat));
    assert(address_part(parts[3]) == Some(d as nat));
    assert(!(exists|i: int| 0 <= i < parts.len() && address_part(#[trigger] parts[i]) is None));
}

} // verus!
