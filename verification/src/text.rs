//! Text as sequences of characters: conversion, trimming, splitting, decimal integers.
use vstd::prelude::*;

verus! {

broadcast use vstd::string::group_string_axioms;

/// The characters of a text, in order.
pub fn chars_of(s: &str) -> (res: Vec<char>)
    ensures
        res@ == s@,
{
    let mut out: Vec<char> = Vec::new();
    for c in it: s.chars()
        invariant
            out@ == it.history(),
    {
        out.push(c);
    }
    out
}

/// `String::push`: appends one character at the end.
#[verifier::external_body]
pub(crate) fn push_str_char(s: &mut String, c: char)
    ensures
        final(s)@ == old(s)@.push(c),
{
    s.push(c);
}

/// `char::is_whitespace`: the characters with the Unicode `White_Space` property.
pub open spec fn is_white_space(c: char) -> bool {
    let u = c as u32;
    ||| 0x9 <= u <= 0xd
    ||| u == 0x20
    ||| u == 0x85
    ||| u == 0xa0
    ||| u == 0x1680
    ||| 0x2000 <= u <= 0x200a
    ||| u == 0x2028
    ||| u == 0x2029
    ||| u == 0x202f
    ||| u == 0x205f
    ||| u == 0x3000
}

/// The classes of characters that the parsers strip from the ends of a text.
#[derive(Clone, Copy, Debug, PartialEq, Eq)]
pub enum CharClass {
    WhiteSpace,
    Exactly(char),
    Bracket,
}

pub open spec fn in_class(k: CharClass, c: char) -> bool {
    match k {
        CharClass::WhiteSpace => is_white_space(c),
        CharClass::Exactly(x) => c == x,
        CharClass::Bracket => c == '[' || c == ']',
    }
}

pub fn class_has(k: CharClass, c: char) -> (res: bool)
    ensures
        res == in_class(k, c),
{
    match k {
        CharClass::WhiteSpace => {
            let u = c as u32;
            (0x9 <= u && u <= 0xd) || u == 0x20 || u == 0x85 || u == 0xa0 || u == 0x1680 || (0x2000
                <= u && u <= 0x200a) || u == 0x2028 || u == 0x2029 || u == 0x202f || u == 0x205f
                || u == 0x3000
        },
        CharClass::Exactly(x) => c == x,
        CharClass::Bracket => c == '[' || c == ']',
    }
}

/// The text without its leading characters of class `k`.
pub open spec fn strip_front(s: Seq<char>, k: CharClass) -> Seq<char>
    decreases s.len(),
{
    if s.len() > 0 && in_class(k, s[0]) {
        strip_front(s.drop_first(), k)
    } else {
        s
    }
}

/// The text without its trailing characters of class `k`.
pub open spec fn strip_back(s: Seq<char>, k: CharClass) -> Seq<char>
    decreases s.len(),
{
    if s.len() > 0 && in_class(k, s.last()) {
        strip_back(s.drop_last(), k)
    } else {
        s
    }
}

/// `str::trim`: the text without leading and trailing white space.
pub open spec fn trim(s: Seq<char>) -> Seq<char> {
    strip_back(strip_front(s, CharClass::WhiteSpace), CharClass::WhiteSpace)
}

/// The characters `cs[lo..hi]`.
pub fn slice_chars(cs: &Vec<char>, lo: usize, hi: usize) -> (res: Vec<char>)
    requires
        lo <= hi <= cs@.len(),
    ensures
        res@ == cs@.subrange(lo as int, hi as int),
{
    let mut out: Vec<char> = Vec::new();
    let mut i = lo;
    while i < hi
        invariant
            lo <= i <= hi <= cs@.len(),
            out@ == cs@.subrange(lo as int, i as int),
        decreases hi - i,
    {
        out.push(cs[i]);
        assert(cs@.subrange(lo as int, i + 1) == cs@.subrange(lo as int, i as int).push(cs@[i as int]));
        i = i + 1;
    }
    out
}

/// `trim_start_matches`: drops the leading characters of class `k`.
pub fn trim_front(cs: &Vec<char>, k: CharClass) -> (res: Vec<char>)
    ensures
        res@ == strip_front(cs@, k),
{
    let n = cs.len();
    let mut i: usize = 0;
    assert(cs@.subrange(0, n as int) == cs@);
    while i < n && class_has(k, cs[i])
        invariant
            i <= n == cs@.len(),
            strip_front(cs@, k) == strip_front(cs@.subrange(i as int, n as int), k),
        decreases n - i,
    {
        assert(cs@.subrange(i as int, n as int).drop_first() == cs@.subrange(i + 1, n as int));
        i = i + 1;
    }
    assert(cs@.subrange(0, n as int) == cs@);
    slice_chars(cs, i, n)
}

/// `trim_end_matches`: drops the trailing characters of class `k`.
pub fn trim_back(cs: &Vec<char>, k: CharClass) -> (res: Vec<char>)
    ensures
        res@ == strip_back(cs@, k),
{
    let mut j: usize = cs.len();
    assert(cs@.subrange(0, j as int) == cs@);
    while j > 0 && class_has(k, cs[j - 1])
        invariant
            j <= cs@.len(),
            strip_back(cs@, k) == strip_back(cs@.subrange(0, j as int), k),
        decreases j,
    {
        assert(cs@.subrange(0, j as int).drop_last() == cs@.subrange(0, j - 1));
        j = j - 1;
    }
    slice_chars(cs, 0, j)
}

/// `str::trim`.
pub fn trim_chars(cs: &Vec<char>) -> (res: Vec<char>)
    ensures
        res@ == trim(cs@),
{
    let front = trim_front(cs, CharClass::WhiteSpace);
    trim_back(&front, CharClass::WhiteSpace)
}

/// `sep` occurs in `s` at position `i`.
pub open spec fn matches_at(s: Seq<char>, sep: Seq<char>, i: int) -> bool {
    0 <= i && i + sep.len() <= s.len() && s.subrange(i, i + sep.len()) == sep
}

/// The pieces of `s[start..]` between the occurrences of `sep`, scanning from position `i`.
pub open spec fn split_from(s: Seq<char>, sep: Seq<char>, start: int, i: int) -> Seq<Seq<char>>
    decreases s.len() - i,
{
    if sep.len() == 0 || i + sep.len() > s.len() {
        seq![s.subrange(start, s.len() as int)]
    } else if matches_at(s, sep, i) {
        seq![s.subrange(start, i)] + split_from(s, sep, i + sep.len(), i + sep.len())
    } else {
        split_from(s, sep, start, i + 1)
    }
}

/// `str::split` with a non-empty pattern: the pieces between the occurrences of `sep`,
/// found left to right without overlap.
pub open spec fn split(s: Seq<char>, sep: Seq<char>) -> Seq<Seq<char>> {
    split_from(s, sep, 0, 0)
}

fn matches_at_exec(cs: &Vec<char>, sep: &Vec<char>, i: usize) -> (res: bool)
    requires
        i + sep@.len() <= cs@.len(),
    ensures
        res == matches_at(cs@, sep@, i as int),
{
    let mut k: usize = 0;
    assert(cs@.len() == cs.len());
    while k < sep.len()
        invariant
            i + sep@.len() <= cs@.len(),
            cs@.len() <= usize::MAX,
            k <= sep@.len(),
            forall|j: int| 0 <= j < k ==> cs@[i + j] == sep@[j],
        decreases sep@.len() - k,
    {
        if cs[i + k] != sep[k] {
            assert(cs@.subrange(i as int, i + sep@.len())[k as int] != sep@[k as int]);
            return false;
        }
        k = k + 1;
    }
    assert(cs@.subrange(i as int, i + sep@.len()) == sep@);
    true
}

/// `str::split`, collected.
pub fn split_chars(cs: &Vec<char>, sep: &Vec<char>) -> (res: Vec<Vec<char>>)
    requires
        sep@.len() > 0,
    ensures
        res@.map_values(|p: Vec<char>| p@) == split(cs@, sep@),
{
    let n = cs.len();
    let m = sep.len();
    let mut out: Vec<Vec<char>> = Vec::new();
    let mut start: usize = 0;
    let mut i: usize = 0;
    while i <= n && m <= n - i
        invariant
            n == cs@.len(),
            m == sep@.len() > 0,
            start <= i,
            i <= n,
            out@.map_values(|p: Vec<char>| p@) + split_from(cs@, sep@, start as int, i as int)
                == split(cs@, sep@),
        decreases n - i,
    {
        if matches_at_exec(cs, sep, i) {
            let piece = slice_chars(cs, start, i);
            let ghost before = out@.map_values(|p: Vec<char>| p@);
            out.push(piece);
            assert(out@.map_values(|p: Vec<char>| p@) == before.push(piece@));
            assert(before + split_from(cs@, sep@, start as int, i as int) == before.push(piece@)
                + split_from(cs@, sep@, (i + m) as int, (i + m) as int));
            i = i + m;
            start = i;
        } else {
            i = i + 1;
        }
    }
    let last = slice_chars(cs, start, n);
    let ghost before = out@.map_values(|p: Vec<char>| p@);
    out.push(last);
    assert(out@.map_values(|p: Vec<char>| p@) == before.push(last@));
    out
}


/// Appends the characters to the text.
pub fn append_chars(out: &mut String, cs: &Vec<char>)
    ensures
        final(out)@ == old(out)@ + cs@,
{
    let mut i: usize = 0;
    while i < cs.len()
        invariant
            i <= cs@.len(),
            out@ == old(out)@ + cs@.take(i as int),
        decreases cs@.len() - i,
    {
        push_str_char(out, cs[i]);
        assert(cs@.take(i + 1) == cs@.take(i as int).push(cs@[i as int]));
        i = i + 1;
    }
    assert(cs@.take(cs@.len() as int) == cs@);
}

/// The two character sequences are equal.
pub fn same_chars(a: &Vec<char>, b: &Vec<char>) -> (res: bool)
    ensures
        res == (a@ == b@),
{
    if a.len() != b.len() {
        return false;
    }
    let mut i: usize = 0;
    while i < a.len()
        invariant
            a@.len() == b@.len(),
            i <= a@.len(),
            forall|j: int| 0 <= j < i ==> a@[j] == b@[j],
        decreases a@.len() - i,
    {
        if a[i] != b[i] {
            return false;
        }
        i = i + 1;
    }
    assert(a@ =~= b@);
    true
}


/// `[..].join(sep)`: the pieces with `sep` between each two.
pub open spec fn join(ps: Seq<Seq<char>>, sep: Seq<char>) -> Seq<char>
    decreases ps.len(),
{
    if ps.len() == 0 {
        seq![]
    } else if ps.len() == 1 {
        ps[0]
    } else {
        join(ps.drop_last(), sep) + sep + ps.last()
    }
}

/// The first piece, the separator, then the other pieces joined.
pub proof fn lemma_join_front(ps: Seq<Seq<char>>, sep: Seq<char>)
    requires
        ps.len() >= 2,
    ensures
        join(ps, sep) == ps[0] + sep + join(ps.drop_first(), sep),
    decreases ps.len(),
{
    if ps.len() > 2 {
        lemma_join_front(ps.drop_last(), sep);
        assert(ps.drop_last().drop_first() == ps.drop_first().drop_last());
        assert(ps.drop_first().last() == ps.last());
        assert(ps.drop_last()[0] == ps[0]);
        assert(join(ps.drop_first(), sep) == join(ps.drop_first().drop_last(), sep) + sep
            + ps.drop_first().last());
        assert(join(ps, sep) =~= ps[0] + sep + join(ps.drop_first(), sep));
    } else {
        assert(ps.drop_first() == seq![ps[1]]);
        assert(ps.drop_last() == seq![ps[0]]);
        assert(join(ps.drop_last(), sep) == ps[0]);
        assert(join(ps.drop_first(), sep) == ps[1]);
        assert(ps.last() == ps[1]);
    }
}


/// With no character that starts `sep` from position `i` on, the rest is one piece.
pub proof fn lemma_split_no_match(s: Seq<char>, sep: Seq<char>, start: int, i: int)
    requires
        sep.len() > 0,
        0 <= start <= i,
        forall|j: int| i <= j < s.len() ==> s[j] != sep[0],
    ensures
        split_from(s, sep, start, i) == seq![s.subrange(start, s.len() as int)],
    decreases s.len() - i,
{
    if i + sep.len() <= s.len() {
        assert(s.subrange(i, i + sep.len())[0] == s[i]);
        lemma_split_no_match(s, sep, start, i + 1);
    }
}

/// Scanning from `i` finds the first occurrence of `sep` at `k`.
pub proof fn lemma_split_to_match(s: Seq<char>, sep: Seq<char>, start: int, i: int, k: int)
    requires
        sep.len() > 0,
        0 <= start <= i <= k,
        forall|j: int| i <= j < k ==> s[j] != sep[0],
        matches_at(s, sep, k),
    ensures
        split_from(s, sep, start, i) == seq![s.subrange(start, k)] + split_from(
            s,
            sep,
            k + sep.len(),
            k + sep.len(),
        ),
    decreases k - i,
{
    if i < k {
        assert(s.subrange(i, i + sep.len())[0] == s[i]);
        lemma_split_to_match(s, sep, start, i + 1, k);
    }
}

/// Splitting does not look at what stands before the start.
pub proof fn lemma_split_shift(x: Seq<char>, y: Seq<char>, sep: Seq<char>, a: int, b: int)
    requires
        0 <= a <= b <= y.len(),
    ensures
        split_from(x + y, sep, x.len() + a, x.len() + b) == split_from(y, sep, a, b),
    decreases y.len() - b,
{
    let s = x + y;
    let n = x.len();
    if sep.len() == 0 || b + sep.len() > y.len() {
        assert(s.subrange(n + a, s.len() as int) =~= y.subrange(a, y.len() as int));
    } else {
        assert(s.subrange(n + b, n + b + sep.len()) =~= y.subrange(b, b + sep.len()));
        if matches_at(y, sep, b) {
            assert(s.subrange(n + a, n + b) =~= y.subrange(a, b));
            lemma_split_shift(x, y, sep, b + sep.len(), b + sep.len());
        } else {
            lemma_split_shift(x, y, sep, a, b + 1);
        }
    }
}

/// Pieces that never hold the first character of the separator split back from their join.
pub proof fn lemma_split_join(ps: Seq<Seq<char>>, sep: Seq<char>)
    requires
        sep.len() > 0,
        ps.len() > 0,
        forall|i: int, j: int| 0 <= i < ps.len() && 0 <= j < ps[i].len() ==> #[trigger] ps[i][j] != sep[0],
    ensures
        split(join(ps, sep), sep) == ps,
    decreases ps.len(),
{
    if ps.len() == 1 {
        lemma_split_no_match(ps[0], sep, 0, 0);
        assert(ps[0].subrange(0, ps[0].len() as int) == ps[0]);
        assert(ps =~= seq![ps[0]]);
    } else {
        lemma_join_front(ps, sep);
        let p = ps[0];
        let rest = ps.drop_first();
        let r = join(rest, sep);
        let s = p + sep + r;
        assert forall|j: int| 0 <= j < p.len() implies s[j] != sep[0] by {
            assert(s[j] == ps[0][j]);
        }
        assert(s.subrange(p.len() as int, (p.len() + sep.len()) as int) =~= sep);
        lemma_split_to_match(s, sep, 0, 0, p.len() as int);
        assert(s.subrange(0, p.len() as int) =~= p);
        assert forall|i: int, j: int| 0 <= i < rest.len() && 0 <= j < rest[i].len() implies #[trigger] rest[i][j] != sep[0] by {
            assert(rest[i] == ps[i + 1]);
        }
        lemma_split_join(rest, sep);
        lemma_split_shift(p + sep, r, sep, 0, 0);
        assert(s == (p + sep) + r);
        assert(seq![p] + rest =~= ps);
    }
}

/// The non-empty join starts with the first piece's first character.
pub proof fn lemma_join_first(ps: Seq<Seq<char>>, sep: Seq<char>)
    requires
        ps.len() > 0,
        ps[0].len() > 0,
    ensures
        join(ps, sep).len() > 0,
        join(ps, sep)[0] == ps[0][0],
    decreases ps.len(),
{
    if ps.len() > 1 {
        lemma_join_first(ps.drop_last(), sep);
    }
}

/// The join ends with the last piece's last character.
pub proof fn lemma_join_last(ps: Seq<Seq<char>>, sep: Seq<char>)
    requires
        ps.len() > 0,
        ps.last().len() > 0,
    ensures
        join(ps, sep).len() > 0,
        join(ps, sep).last() == ps.last().last(),
{
}

/// Each piece but the first gets `pre` in front.
pub open spec fn prefixed(ps: Seq<Seq<char>>, pre: Seq<char>) -> Seq<Seq<char>> {
    Seq::new(ps.len(), |i: int| if i == 0 { ps[0] } else { pre + ps[i] })
}

/// Joining with `sep + pre` is joining with `sep` the pieces that carry `pre` in front.
pub proof fn lemma_join_prefixed(ps: Seq<Seq<char>>, sep: Seq<char>, pre: Seq<char>)
    ensures
        join(ps, sep + pre) == join(prefixed(ps, pre), sep),
    decreases ps.len(),
{
    if ps.len() >= 2 {
        lemma_join_prefixed(ps.drop_last(), sep, pre);
        assert(prefixed(ps, pre).drop_last() =~= prefixed(ps.drop_last(), pre));
        assert((join(ps.drop_last(), sep) + (sep + pre)) + ps.last() =~= (join(ps.drop_last(), sep) + sep) + (pre + ps.last()));
    } else if ps.len() == 1 {
        assert(prefixed(ps, pre).len() == 1);
    } else {
        assert(prefixed(ps, pre).len() == 0);
    }
}

/// A text with no white space at its ends is its own trim.
pub proof fn lemma_trim_plain(s: Seq<char>)
    requires
        s.len() > 0,
        !is_white_space(s[0]),
        !is_white_space(s.last()),
    ensures
        trim(s) == s,
{
}

/// Dropping one leading character of the class, then stripping, is stripping.
pub proof fn lemma_strip_front_cons(c: char, s: Seq<char>, k: CharClass)
    requires
        in_class(k, c),
    ensures
        strip_front(seq![c] + s, k) == strip_front(s, k),
{
    assert((seq![c] + s).drop_first() =~= s);
}

/// Dropping one trailing character of the class, then stripping, is stripping.
pub proof fn lemma_strip_back_snoc(s: Seq<char>, c: char, k: CharClass)
    requires
        in_class(k, c),
    ensures
        strip_back(s + seq![c], k) == strip_back(s, k),
{
    assert((s + seq![c]).drop_last() =~= s);
}

} // verus!
