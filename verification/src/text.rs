use vstd::prelude::*;

verus! {

/// The position of the first occurrence of `pat` in `s` at or after `k`.
pub open spec fn first_match_from(s: Seq<char>, pat: Seq<char>, k: int) -> Option<int>
    decreases s.len() - k,
{
    if k < 0 || k + pat.len() > s.len() {
        None
    } else if s.subrange(k, k + pat.len()) == pat {
        Some(k)
    } else if k >= s.len() {
        None
    } else {
        first_match_from(s, pat, k + 1)
    }
}

/// Finds the first occurrence of `pat` in `s` at or after `from`.
pub fn find_from(s: &[char], pat: &[char], from: usize) -> (res: Option<usize>)
    ensures
        res matches Some(i) ==> first_match_from(s@, pat@, from as int) == Some(i as int),
        res is None ==> first_match_from(s@, pat@, from as int) is None,
{
    let mut k = from;
    while k <= s.len() && pat.len() <= s.len() - k
        invariant
            from <= k,
            first_match_from(s@, pat@, from as int) == first_match_from(s@, pat@, k as int),
        decreases s.len() + 1 - k,
    {
        let mut j: usize = 0;
        let mut same = true;
        while j < pat.len()
            invariant
                k + pat.len() <= s.len(),
                j <= pat.len(),
                same == (forall|m: int| 0 <= m < j ==> s@[k + m] == pat@[m]),
            decreases pat.len() - j,
        {
            if s[k + j] != pat[j] {
                same = false;
            }
            j = j + 1;
        }
        if same {
            assert(s@.subrange(k as int, k + pat.len()) =~= pat@);
            return Some(k);
        }
        assert(s@.subrange(k as int, k + pat.len()) != pat@) by {
            let m = choose|m: int| 0 <= m < pat.len() && s@[k + m] != pat@[m];
            assert(s@.subrange(k as int, k + pat.len())[m] == s@[k + m]);
        }
        k = k + 1;
    }
    None
}


/// Where the first occurrence found from `k` lies: at or after `k`, inside `s`, and matching.
pub proof fn lemma_first_match_from_bounds(s: Seq<char>, pat: Seq<char>, k: int)
    ensures
        first_match_from(s, pat, k) matches Some(i) ==> {
            &&& k <= i
            &&& i + pat.len() <= s.len()
            &&& s.subrange(i, i + pat.len()) == pat
        },
    decreases s.len() - k,
{
    if k < 0 || k + pat.len() > s.len() {
    } else if s.subrange(k, k + pat.len()) == pat {
    } else if k >= s.len() {
    } else {
        lemma_first_match_from_bounds(s, pat, k + 1);
    }
}

/// The pieces of `s[start..]` separated by the non-overlapping occurrences
/// of `pat`, searched from the left (the pieces that `str::split` yields).
pub open spec fn split_from(s: Seq<char>, pat: Seq<char>, start: int) -> Seq<Seq<char>>
    decreases s.len() - start,
{
    if pat.len() == 0 || start < 0 || start > s.len() {
        seq![]
    } else {
        match first_match_from(s, pat, start) {
            None => seq![s.subrange(start, s.len() as int)],
            Some(i) => if start <= i && i + pat.len() <= s.len() {
                seq![s.subrange(start, i)] + split_from(s, pat, i + pat.len())
            } else {
                seq![]
            },
        }
    }
}

/// The pieces of `s` separated by `pat`.
pub open spec fn split(s: Seq<char>, pat: Seq<char>) -> Seq<Seq<char>> {
    split_from(s, pat, 0)
}

/// Splitting by a non-empty pattern always yields at least one piece.
pub proof fn lemma_split_from_nonempty(s: Seq<char>, pat: Seq<char>, start: int)
    requires
        pat.len() > 0,
        0 <= start <= s.len(),
    ensures
        split_from(s, pat, start).len() >= 1,
        first_match_from(s, pat, start) is None ==> split_from(s, pat, start) == seq![s.subrange(start, s.len() as int)],
        first_match_from(s, pat, start) matches Some(i) ==> split_from(s, pat, start)[0] == s.subrange(start, i),
    decreases s.len() - start,
{
    lemma_first_match_from_bounds(s, pat, start);
}

/// Occurrences in `b` are found in `p + b` at the same place, moved by the length of `p`.
pub proof fn lemma_first_match_shift(p: Seq<char>, b: Seq<char>, pat: Seq<char>, k: int)
    requires
        0 <= k <= b.len(),
    ensures
        first_match_from(p + b, pat, p.len() + k) == match first_match_from(b, pat, k) {
            Some(j) => Some(p.len() + j),
            None => None,
        },
    decreases b.len() - k,
{
    let s = p + b;
    if k + pat.len() > b.len() {
    } else {
        assert(s.subrange(p.len() + k, p.len() + k + pat.len()) =~= b.subrange(k, k + pat.len()));
        if b.subrange(k, k + pat.len()) == pat {
        } else if k >= b.len() {
        } else {
            lemma_first_match_shift(p, b, pat, k + 1);
            assert(p.len() + k + 1 == p.len() + (k + 1));
        }
    }
}

/// Splitting `p + b` from a place in `b` gives what splitting `b` from there gives.
pub proof fn lemma_split_shift(p: Seq<char>, b: Seq<char>, pat: Seq<char>, k: int)
    requires
        pat.len() > 0,
        0 <= k <= b.len(),
    ensures
        split_from(p + b, pat, p.len() + k) == split_from(b, pat, k),
    decreases b.len() - k,
{
    let s = p + b;
    lemma_first_match_shift(p, b, pat, k);
    lemma_first_match_from_bounds(b, pat, k);
    match first_match_from(b, pat, k) {
        None => {
            assert(s.subrange(p.len() + k, s.len() as int) =~= b.subrange(k, b.len() as int));
        },
        Some(j) => {
            assert(s.subrange(p.len() + k, p.len() + j) =~= b.subrange(k, j));
            lemma_split_shift(p, b, pat, j + pat.len());
            assert(p.len() + j + pat.len() == p.len() + (j + pat.len()));
        },
    }
}

/// No occurrence of `pat` starts inside a prefix `w` that does not hold the first
/// character of `pat`.
pub proof fn lemma_first_match_past_prefix(w: Seq<char>, t: Seq<char>, pat: Seq<char>, k: int)
    requires
        pat.len() > 0,
        forall|q: int| 0 <= q < w.len() ==> w[q] != pat[0],
        0 <= k <= w.len(),
    ensures
        first_match_from(w + t, pat, k) == first_match_from(w + t, pat, w.len() as int),
    decreases w.len() - k,
{
    let s = w + t;
    if k < w.len() {
        if k + pat.len() > s.len() {
            assert(w.len() + pat.len() > s.len());
        } else {
            assert(s.subrange(k, k + pat.len())[0] == w[k]);
            assert(s.subrange(k, k + pat.len()) != pat);
            lemma_first_match_past_prefix(w, t, pat, k + 1);
        }
    }
}

/// Splitting `a + crlf + b` by `crlf` splits `a` and `b` apart (a `\r` at the end of `a`
/// cannot make an earlier separator).
pub proof fn lemma_split_lines_concat(a: Seq<char>, b: Seq<char>, k: int)
    requires
        0 <= k <= a.len(),
    ensures
        split_from(a + seq!['\r', '\n'] + b, seq!['\r', '\n'], k) == split_from(a, seq!['\r', '\n'], k) + split(b, seq!['\r', '\n']),
    decreases a.len() - k,
{
    let pat = seq!['\r', '\n'];
    let s = a + pat + b;
    lemma_first_match_from_bounds(a, pat, k);
    if k + 2 <= a.len() {
        assert(s.subrange(k, k + 2) =~= a.subrange(k, k + 2));
    }
    match first_match_from(a, pat, k) {
        Some(j) => {
            lemma_first_match_lines_concat(a, b, k);
            assert(s.subrange(k, j) =~= a.subrange(k, j));
            lemma_split_lines_concat(a, b, j + 2);
            assert(split_from(s, pat, k) =~= seq![a.subrange(k, j)] + split_from(a, pat, j + 2) + split(b, pat));
        },
        None => {
            lemma_first_match_lines_concat(a, b, k);
            assert(s.subrange(k, a.len() as int) =~= a.subrange(k, a.len() as int));
            lemma_split_shift(a + pat, b, pat, 0);
            assert((a + pat).len() + 0 == a.len() + 2);
        },
    }
}

/// Where the first line separator of `a + crlf + b`, searched from inside `a`, lies.
pub proof fn lemma_first_match_lines_concat(a: Seq<char>, b: Seq<char>, k: int)
    requires
        0 <= k <= a.len(),
    ensures
        first_match_from(a + seq!['\r', '\n'] + b, seq!['\r', '\n'], k) == match first_match_from(a, seq!['\r', '\n'], k) {
            Some(j) => Some(j),
            None => Some(a.len() as int),
        },
    decreases a.len() - k,
{
    let pat = seq!['\r', '\n'];
    let s = a + pat + b;
    if k == a.len() {
        assert(s.subrange(k, k + 2) =~= pat);
    } else if k + 1 == a.len() {
        assert(s.subrange(k, k + 2)[1] == '\r');
        assert(s.subrange(k, k + 2) != pat);
        lemma_first_match_lines_concat(a, b, k + 1);
    } else {
        assert(s.subrange(k, k + 2) =~= a.subrange(k, k + 2));
        lemma_first_match_lines_concat(a, b, k + 1);
    }
}

/// Splitting `w + t` by a separator whose first character `w` lacks: the first piece
/// is `w` followed by the first piece of `t`, the rest are those of `t`.
pub proof fn lemma_split_past_prefix(w: Seq<char>, t: Seq<char>, pat: Seq<char>)
    requires
        pat.len() > 0,
        forall|q: int| 0 <= q < w.len() ==> w[q] != pat[0],
    ensures
        split(w + t, pat) == split(t, pat).update(0, w + split(t, pat)[0]),
{
    let s = w + t;
    lemma_first_match_past_prefix(w, t, pat, 0);
    lemma_first_match_shift(w, t, pat, 0);
    lemma_first_match_from_bounds(t, pat, 0);
    lemma_split_from_nonempty(t, pat, 0);
    match first_match_from(t, pat, 0) {
        None => {
            assert(s.subrange(0, s.len() as int) =~= w + t.subrange(0, t.len() as int));
            assert(split(w + t, pat) =~= split(t, pat).update(0, w + split(t, pat)[0]));
        },
        Some(j) => {
            assert(s.subrange(0, w.len() + j) =~= w + t.subrange(0, j));
            lemma_split_shift(w, t, pat, j + pat.len());
            assert(w.len() + j + pat.len() == w.len() + (j + pat.len()));
            assert(split(w + t, pat) =~= split(t, pat).update(0, w + split(t, pat)[0]));
        },
    }
}

/// A text without `c` has no occurrence of it.
pub proof fn lemma_no_match(s: Seq<char>, c: char, k: int)
    requires
        !s.contains(c),
        0 <= k,
    ensures
        first_match_from(s, seq![c], k) is None,
    decreases s.len() - k,
{
    if k + 1 <= s.len() {
        if s.subrange(k, k + 1) == seq![c] {
            assert(s.subrange(k, k + 1)[0] == s[k]);
            assert(s.contains(c));
        }
        lemma_no_match(s, c, k + 1);
    }
}

/// Splitting the empty text gives one empty piece.
pub proof fn lemma_split_empty(pat: Seq<char>)
    requires
        pat.len() > 0,
    ensures
        split(Seq::<char>::empty(), pat) == seq![Seq::<char>::empty()],
{
    assert(Seq::<char>::empty().subrange(0, 0) =~= Seq::<char>::empty());
}

/// A text without the separator's first character is one piece.
pub proof fn lemma_split_no_sep(s: Seq<char>, pat: Seq<char>)
    requires
        pat.len() > 0,
        forall|q: int| 0 <= q < s.len() ==> s[q] != pat[0],
    ensures
        split(s, pat) == seq![s],
{
    lemma_split_empty(pat);
    lemma_split_past_prefix(s, Seq::<char>::empty(), pat);
    assert(s + Seq::<char>::empty() =~= s);
    assert(seq![Seq::<char>::empty()].update(0, s + Seq::<char>::empty()) =~= seq![s]);
}

/// Where the first `c` of `a + [c] + b`, searched from inside `a`, lies.
pub proof fn lemma_first_match_char_concat(a: Seq<char>, b: Seq<char>, c: char, k: int)
    requires
        0 <= k <= a.len(),
    ensures
        first_match_from(a + seq![c] + b, seq![c], k) == match first_match_from(a, seq![c], k) {
            Some(j) => Some(j),
            None => Some(a.len() as int),
        },
    decreases a.len() - k,
{
    let s = a + seq![c] + b;
    if k == a.len() {
        assert(s.subrange(k, k + 1) =~= seq![c]);
    } else {
        assert(s.subrange(k, k + 1) =~= a.subrange(k, k + 1));
        lemma_first_match_char_concat(a, b, c, k + 1);
    }
}

/// Splitting `a + [c] + b` by `c` splits `a` and `b` apart.
pub proof fn lemma_split_char_concat(a: Seq<char>, b: Seq<char>, c: char, k: int)
    requires
        0 <= k <= a.len(),
    ensures
        split_from(a + seq![c] + b, seq![c], k) == split_from(a, seq![c], k) + split(b, seq![c]),
    decreases a.len() - k,
{
    let pat = seq![c];
    let s = a + pat + b;
    lemma_first_match_from_bounds(a, pat, k);
    lemma_first_match_char_concat(a, b, c, k);
    match first_match_from(a, pat, k) {
        Some(j) => {
            assert(s.subrange(k, j) =~= a.subrange(k, j));
            lemma_split_char_concat(a, b, c, j + 1);
            assert(split_from(s, pat, k) =~= seq![a.subrange(k, j)] + split_from(a, pat, j + 1) + split(b, pat));
        },
        None => {
            assert(s.subrange(k, a.len() as int) =~= a.subrange(k, a.len() as int));
            lemma_split_shift(a + pat, b, pat, 0);
            assert((a + pat).len() + 0 == a.len() + 1);
        },
    }
}

/// `a + [c] + b` splits by `c` into `a` and the pieces of `b`, when `a` has no `c`.
pub proof fn lemma_split_cons(a: Seq<char>, c: char, b: Seq<char>)
    requires
        !a.contains(c),
    ensures
        split(a + seq![c] + b, seq![c]) == seq![a] + split(b, seq![c]),
{
    lemma_split_char_concat(a, b, c, 0);
    assert forall|q: int| 0 <= q < a.len() implies a[q] != seq![c][0] by {
        if a[q] == c {
            assert(a.contains(c));
        }
    }
    lemma_split_no_sep(a, seq![c]);
}

/// `a + [c] + b` splits by `c` into `a` and `b`, when neither has a `c`.
pub proof fn lemma_split_pair(a: Seq<char>, c: char, b: Seq<char>)
    requires
        !a.contains(c),
        !b.contains(c),
    ensures
        split(a + seq![c] + b, seq![c]) == seq![a, b],
{
    lemma_split_cons(a, c, b);
    assert forall|q: int| 0 <= q < b.len() implies b[q] != seq![c][0] by {
        if b[q] == c {
            assert(b.contains(c));
        }
    }
    lemma_split_no_sep(b, seq![c]);
    assert(seq![a] + seq![b] =~= seq![a, b]);
}

/// A text without white space is its own trim.
pub proof fn lemma_trim_plain(s: Seq<char>)
    requires
        forall|q: int| 0 <= q < s.len() ==> !is_white_space(#[trigger] s[q]),
    ensures
        trim(s) == s,
{
    if s.len() > 0 {
        assert(first_non_space(s, 0) == 0);
        assert(end_non_space(s, s.len() as int, 0) == s.len());
    }
    assert(s.subrange(0, s.len() as int) =~= s);
}

/// The views of a vector of character vectors.
pub open spec fn views(v: Seq<Vec<char>>) -> Seq<Seq<char>> {
    v.map_values(|x: Vec<char>| x@)
}

/// Copies `s[a..b]` into a new vector.
pub fn sub_vec(s: &[char], a: usize, b: usize) -> (res: Vec<char>)
    requires
        a <= b <= s@.len(),
    ensures
        res@ == s@.subrange(a as int, b as int),
{
    let mut res: Vec<char> = Vec::new();
    let mut i = a;
    while i < b
        invariant
            a <= i <= b <= s@.len(),
            res@ == s@.subrange(a as int, i as int),
        decreases b - i,
    {
        res.push(s[i]);
        i = i + 1;
        assert(res@ =~= s@.subrange(a as int, i as int));
    }
    res
}

/// Splits `s` by the non-empty pattern `pat`, as `str::split` does.
pub fn split_by(s: &[char], pat: &[char]) -> (res: Vec<Vec<char>>)
    requires
        pat@.len() > 0,
    ensures
        views(res@) == split(s@, pat@),
        res@.len() >= 1,
{
    let mut out: Vec<Vec<char>> = Vec::new();
    let mut start: usize = 0;
    loop
        invariant
            pat@.len() > 0,
            start <= s@.len(),
            views(out@) + split_from(s@, pat@, start as int) == split(s@, pat@),
        decreases s@.len() - start,
    {
        proof {
            lemma_first_match_from_bounds(s@, pat@, start as int);
        }
        match find_from(s, pat, start) {
            None => {
                let piece = sub_vec(s, start, s.len());
                let ghost prev = out@;
                out.push(piece);
                assert(views(out@) =~= views(prev) + seq![s@.subrange(start as int, s@.len() as int)]);
                return out;
            },
            Some(i) => {
                assert(start <= i && i + pat@.len() <= s@.len());
                let piece = sub_vec(s, start, i);
                let ghost prev = out@;
                out.push(piece);
                assert(views(out@) =~= views(prev) + seq![s@.subrange(start as int, i as int)]);
                let ghost rest = split_from(s@, pat@, (i + pat.len()) as int);
                assert(split_from(s@, pat@, start as int) == seq![s@.subrange(start as int, i as int)] + rest);
                assert(views(out@) + rest =~= views(prev) + split_from(s@, pat@, start as int));
                let total = s.len();
                assert(i + pat.len() <= total);
                start = i + pat.len();
            },
        }
    }
}


/// The characters with the Unicode `White_Space` property.
pub open spec fn is_white_space(c: char) -> bool {
    let u = c as u32;
    ||| 0x9 <= u <= 0xd
    ||| u == 0x20
    ||| u == 0x85
    ||| u == 0xa0
    ||| u == 0x1680
    ||| 0x2000 <= u <= 0x200a
    ||| u == 0x2028
    ||| u == 0x2029
    ||| u == 0x202f
    ||| u == 0x205f
    ||| u == 0x3000
}

/// Whether `c` has the Unicode `White_Space` property (what `char::is_whitespace` tests).
pub fn white_space(c: char) -> (res: bool)
    ensures
        res == is_white_space(c),
{
    let u = c as u32;
    (0x9 <= u && u <= 0xd) || u == 0x20 || u == 0x85 || u == 0xa0 || u == 0x1680 || (0x2000 <= u
        && u <= 0x200a) || u == 0x2028 || u == 0x2029 || u == 0x202f || u == 0x205f || u == 0x3000
}

/// The index of the first character at or after `i` that is not white space.
pub open spec fn first_non_space(s: Seq<char>, i: int) -> int
    decreases s.len() - i,
{
    if i < 0 || i >= s.len() {
        i
    } else if !is_white_space(s[i]) {
        i
    } else {
        first_non_space(s, i + 1)
    }
}

/// The end of the last character before `j`, and not before `lo`, that is not white space.
pub open spec fn end_non_space(s: Seq<char>, j: int, lo: int) -> int
    decreases j,
{
    if j <= lo || j <= 0 || j > s.len() {
        lo
    } else if !is_white_space(s[j - 1]) {
        j
    } else {
        end_non_space(s, j - 1, lo)
    }
}

/// `s` without leading and trailing white space (what `str::trim` gives).
pub open spec fn trim(s: Seq<char>) -> Seq<char> {
    let a = first_non_space(s, 0);
    s.subrange(a, end_non_space(s, s.len() as int, a))
}

pub proof fn lemma_end_non_space_bounds(s: Seq<char>, j: int, lo: int)
    requires
        0 <= lo <= j <= s.len(),
    ensures
        lo <= end_non_space(s, j, lo) <= j,
    decreases j,
{
    if j > lo && j > 0 && is_white_space(s[j - 1]) {
        lemma_end_non_space_bounds(s, j - 1, lo);
    }
}

/// Removes leading and trailing white space.
pub fn trim_chars(s: &[char]) -> (res: Vec<char>)
    ensures
        res@ == trim(s@),
{
    let n = s.len();
    let mut a: usize = 0;
    while a < n && white_space(s[a])
        invariant
            n == s@.len(),
            a <= n,
            first_non_space(s@, 0) == first_non_space(s@, a as int),
        decreases n - a,
    {
        a = a + 1;
    }
    let mut b: usize = n;
    while b > a && white_space(s[b - 1])
        invariant
            n == s@.len(),
            a <= b <= n,
            a == first_non_space(s@, 0),
            end_non_space(s@, n as int, a as int) == end_non_space(s@, b as int, a as int),
        decreases b,
    {
        b = b - 1;
    }
    sub_vec(s, a, b)
}

/// Whether two character sequences are equal.
pub fn chars_eq(a: &[char], b: &[char]) -> (res: bool)
    ensures
        res == (a@ == b@),
{
    if a.len() != b.len() {
        return false;
    }
    let mut i: usize = 0;
    while i < a.len()
        invariant
            a@.len() == b@.len(),
            i <= a@.len(),
            forall|k: int| 0 <= k < i ==> a@[k] == b@[k],
        decreases a@.len() - i,
    {
        if a[i] != b[i] {
            return false;
        }
        i = i + 1;
    }
    assert(a@ =~= b@);
    true
}

/// Whether `c` is an ASCII decimal digit.
pub open spec fn is_digit(c: char) -> bool {
    '0' <= c <= '9'
}

/// The value of a digit character.
pub open spec fn digit_value(c: char) -> nat {
    (c as u32 - '0' as u32) as nat
}

/// The value of a sequence of decimal digits (0 for the empty sequence).
pub open spec fn digits_value(d: Seq<char>) -> nat
    decreases d.len(),
{
    if d.len() == 0 {
        0
    } else {
        digits_value(d.drop_last()) * 10 + digit_value(d.last())
    }
}

/// The digits of a number written with an optional leading `+`.
pub open spec fn unsigned_digits(s: Seq<char>) -> Seq<char> {
    if s.len() > 0 && s[0] == '+' {
        s.drop_first()
    } else {
        s
    }
}

/// What `str::parse` gives for an unsigned integer type whose largest value is `max`:
/// an optional `+`, then one or more decimal digits, and a value that fits.
pub open spec fn parsed_unsigned(s: Seq<char>, max: nat) -> Option<nat> {
    let d = unsigned_digits(s);
    if d.len() == 0 || !(forall|i: int| 0 <= i < d.len() ==> is_digit(#[trigger] d[i])) || digits_value(d) > max {
        None
    } else {
        Some(digits_value(d))
    }
}

proof fn lemma_digits_value_prefix(d: Seq<char>, i: int)
    requires
        0 <= i <= d.len(),
    ensures
        digits_value(d.take(i)) <= digits_value(d),
    decreases d.len() - i,
{
    if i < d.len() {
        lemma_digits_value_prefix(d, i + 1);
        assert(d.take(i + 1).drop_last() =~= d.take(i));
    } else {
        assert(d.take(i) =~= d);
    }
}

/// Parses an unsigned decimal number no larger than `max`, as `str::parse` does.
pub fn parse_unsigned(s: &[char], max: usize) -> (res: Option<usize>)
    ensures
        match res {
            Some(v) => parsed_unsigned(s@, max as nat) == Some(v as nat),
            None => parsed_unsigned(s@, max as nat) is None,
        },
{
    let n = s.len();
    let start: usize = if n > 0 && s[0] == '+' { 1 } else { 0 };
    let ghost d = unsigned_digits(s@);
    assert(d =~= s@.subrange(start as int, n as int));
    if start == n {
        return None;
    }
    let mut i = start;
    while i < n
        invariant
            n == s@.len(),
            start <= i <= n,
            d == s@.subrange(start as int, n as int),
            d == unsigned_digits(s@),
            forall|k: int| start <= k < i ==> is_digit(#[trigger] s@[k]),
        decreases n - i,
    {
        if !('0' <= s[i] && s[i] <= '9') {
            assert(d[i - start] == s@[i as int]);
            assert(!is_digit(d[i - start]));
            return None;
        }
        i = i + 1;
    }
    assert(forall|k: int| 0 <= k < d.len() ==> is_digit(#[trigger] d[k])) by {
        assert forall|k: int| 0 <= k < d.len() implies is_digit(#[trigger] d[k]) by {
            assert(d[k] == s@[start + k]);
        }
    }
    let mut value: usize = 0;
    let mut j = start;
    while j < n
        invariant
            n == s@.len(),
            start <= j <= n,
            d == s@.subrange(start as int, n as int),
            d == unsigned_digits(s@),
            forall|k: int| 0 <= k < d.len() ==> is_digit(#[trigger] d[k]),
            value as nat == digits_value(d.take(j - start)),
            value <= max,
        decreases n - j,
    {
        assert(d[j - start] == s@[j as int]);
        assert(is_digit(d[j - start]));
        let digit = (s[j] as u32 - '0' as u32) as usize;
        assert(d.take(j - start + 1).drop_last() =~= d.take(j - start));
        if digit > max || value > (max - digit) / 10 {
            proof {
                assert(value * 10 + digit > max) by (nonlinear_arith)
                    requires digit > max || value > (max - digit) / 10, digit <= 9;
                lemma_digits_value_prefix(d, j - start + 1);
            }
            return None;
        }
        proof {
            assert(value * 10 + digit <= max) by (nonlinear_arith)
                requires value <= (max - digit) / 10, digit <= max;
        }
        value = value * 10 + digit;
        j = j + 1;
    }
    assert(d.take(n - start) =~= d);
    Some(value)
}


/// The character of a decimal digit.
pub open spec fn digit_char(d: nat) -> char {
    ((48 + d) as u8) as char
}

/// The decimal representation of `n`, without sign or leading zeros.
pub open spec fn decimal(n: nat) -> Seq<char>
    decreases n,
{
    if n < 10 {
        seq![digit_char(n)]
    } else {
        decimal(n / 10).push(digit_char(n % 10))
    }
}

/// Appends the decimal representation of `n` to `out`.
pub fn push_decimal(out: &mut Vec<char>, n: usize)
    ensures
        final(out)@ == old(out)@ + decimal(n as nat),
    decreases n,
{
    if n >= 10 {
        push_decimal(out, n / 10);
    }
    let d = (n % 10) as u8;
    out.push((48u8 + d) as char);
    assert(out@ =~= old(out)@ + decimal(n as nat));
}

/// The decimal representation of `n`.
pub fn decimal_chars(n: usize) -> (res: Vec<char>)
    ensures
        res@ == decimal(n as nat),
{
    let mut out: Vec<char> = Vec::new();
    push_decimal(&mut out, n);
    assert(out@ =~= decimal(n as nat));
    out
}

/// A decimal representation is a non-empty run of digits worth the number it represents.
pub proof fn lemma_decimal_digits(n: nat)
    ensures
        decimal(n).len() >= 1,
        forall|i: int| 0 <= i < decimal(n).len() ==> is_digit(#[trigger] decimal(n)[i]),
        digits_value(decimal(n)) == n,
    decreases n,
{
    if n < 10 {
        assert(digit_value(digit_char(n)) == n);
        assert(decimal(n).drop_last() =~= Seq::<char>::empty());
        assert(digits_value(Seq::<char>::empty()) == 0);
        assert(decimal(n).last() == digit_char(n));
        assert(digits_value(decimal(n)) == digits_value(decimal(n).drop_last()) * 10 + digit_value(decimal(n).last()));
    }
    if n >= 10 {
        lemma_decimal_digits(n / 10);
        let d = decimal(n);
        assert(d.drop_last() =~= decimal(n / 10));
        assert(digit_value(digit_char(n % 10)) == n % 10);
        assert(n == (n / 10) * 10 + n % 10);
        assert(d.last() == digit_char(n % 10));
        assert(digits_value(d) == digits_value(d.drop_last()) * 10 + digit_value(d.last()));
        assert(digits_value(d) == (n / 10) * 10 + n % 10);
        assert forall|i: int| 0 <= i < d.len() implies is_digit(#[trigger] d[i]) by {
            if i < d.len() - 1 {
                assert(d[i] == decimal(n / 10)[i]);
            }
        }
    }
}

/// Writing a number in decimal and parsing it back gives the number.
pub proof fn lemma_decimal_parses(n: nat, max: nat)
    requires
        n <= max,
    ensures
        parsed_unsigned(decimal(n), max) == Some(n),
{
    lemma_decimal_digits(n);
    assert(is_digit(decimal(n)[0]));
    assert(unsigned_digits(decimal(n)) == decimal(n));
}

/// The characters of a string.
pub fn str_chars(s: &str) -> (res: Vec<char>)
    ensures
        res@ == s@,
{
    broadcast use vstd::string::group_string_axioms;

    let mut res: Vec<char> = Vec::new();
    for c in it: s.chars()
        invariant
            res@ == it.seq().take(it.index() as int),
    {
        res.push(c);
        assert(res@ =~= it.seq().take(it.index() + 1));
    }
    assert(res@ =~= s@);
    res
}

/// A string made of the given characters.
#[verifier::external_body]
pub(crate) fn chars_to_string(c: &[char]) -> (res: String)
    ensures
        res@ == c@,
{
    String::from_iter(c)
}

/// The lowercase form of a string, by the Unicode case mapping that `str::to_lowercase` applies.
pub uninterp spec fn lowercase(s: Seq<char>) -> Seq<char>;

/// Whether every character is ASCII.
pub open spec fn all_ascii(s: Seq<char>) -> bool {
    forall|i: int| 0 <= i < s.len() ==> (#[trigger] s[i] as u32) < 128
}

/// The ASCII lowercase form of a character: `A`..`Z` become `a`..`z`, the rest stays.
pub open spec fn ascii_lower_char(c: char) -> char {
    if 'A' <= c <= 'Z' {
        ((c as u32) + 32) as char
    } else {
        c
    }
}

/// `s` with ASCII letters lowered.
pub open spec fn ascii_lowercase(s: Seq<char>) -> Seq<char> {
    s.map_values(|c: char| ascii_lower_char(c))
}

/// Calls `str::to_lowercase`; its result is named `lowercase`.
#[verifier::external_body]
fn to_lowercase(s: &str) -> (res: String)
    ensures
        res@ == lowercase(s@),
{
    s.to_lowercase()
}

/// The lowercase form of a text: ASCII text has its letters `A`..`Z` lowered and keeps
/// every other character; other text follows the Unicode case mapping.
pub open spec fn lower(s: Seq<char>) -> Seq<char> {
    if all_ascii(s) {
        ascii_lowercase(s)
    } else {
        lowercase(s)
    }
}

/// The lowercase form of a text.
pub fn lower_chars(s: &[char]) -> (res: Vec<char>)
    ensures
        res@ == lower(s@),
{
    let mut out: Vec<char> = Vec::new();
    let mut i: usize = 0;
    while i < s.len()
        invariant
            i <= s@.len(),
            out@ == ascii_lowercase(s@.take(i as int)),
            forall|k: int| 0 <= k < i ==> (#[trigger] s@[k] as u32) < 128,
        decreases s@.len() - i,
    {
        let c = s[i];
        if (c as u32) >= 128 {
            let text = chars_to_string(s);
            let lowered = to_lowercase(text.as_str());
            assert(!all_ascii(s@));
            return str_chars(lowered.as_str());
        }
        let l = if 'A' <= c && c <= 'Z' {
            ((c as u32) + 32) as u8 as char
        } else {
            c
        };
        out.push(l);
        i = i + 1;
        assert(out@ =~= ascii_lowercase(s@.take(i as int)));
    }
    assert(s@.take(i as int) =~= s@);
    out
}

/// The decimal representation of a number holds only digits: no white space and none of
/// the separators `.`, `-`, `:`, `=`, `&`, `?`, `%`.
pub proof fn lemma_decimal_plain(n: nat)
    ensures
        forall|q: int| 0 <= q < decimal(n).len() ==> !is_white_space(#[trigger] decimal(n)[q]),
        !decimal(n).contains('.') && !decimal(n).contains('-') && !decimal(n).contains(':'),
        !decimal(n).contains('=') && !decimal(n).contains('&') && !decimal(n).contains('?'),
        trim(decimal(n)) == decimal(n),
        decimal(n).len() > 0,
{
    lemma_decimal_digits(n);
    let d = decimal(n);
    assert forall|q: int| 0 <= q < d.len() implies !is_white_space(#[trigger] d[q]) by {
        assert(is_digit(d[q]));
    }
    assert forall|ch: char| (ch == '.' || ch == '-' || ch == ':' || ch == '=' || ch == '&' || ch == '?') implies !d.contains(ch) by {
        if d.contains(ch) {
            let q = choose|q: int| 0 <= q < d.len() && d[q] == ch;
            assert(is_digit(d[q]));
        }
    }
    lemma_trim_plain(d);
}

} // verus!
