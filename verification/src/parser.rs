//! Reading the data of a problem back from its text: a vector of integers, a map of booleans.
use vstd::prelude::*;
use crate::decimal::{parse_i64, parse_i64_chars, IntErrorKind};
use crate::runner::{is_fault, ServiceError};
use crate::grid::grid_view;
use crate::text::{
    append_chars, same_chars, chars_of, split, split_chars, strip_back, strip_front, trim, trim_back, trim_chars,
    trim_front, CharClass,
};

verus! {

broadcast use vstd::string::group_string_axioms;

/// The message of a failed integer parse, as `ParseIntError` displays it.
pub open spec fn int_error_text(k: IntErrorKind) -> Seq<char> {
    match k {
        IntErrorKind::Empty => "cannot parse integer from empty string"@,
        IntErrorKind::InvalidDigit => "invalid digit found in string"@,
        IntErrorKind::PosOverflow => "number too large to fit in target type"@,
        IntErrorKind::NegOverflow => "number too small to fit in target type"@,
    }
}

pub fn int_error_message(k: IntErrorKind) -> (res: String)
    ensures
        res@ == int_error_text(k),
{
    match k {
        IntErrorKind::Empty => "cannot parse integer from empty string".to_string(),
        IntErrorKind::InvalidDigit => "invalid digit found in string".to_string(),
        IntErrorKind::PosOverflow => "number too large to fit in target type".to_string(),
        IntErrorKind::NegOverflow => "number too small to fit in target type".to_string(),
    }
}

/// The inside of a bracketed list: leading `[` and trailing `]` removed.
pub open spec fn vector_body(s: Seq<char>) -> Seq<char> {
    strip_back(strip_front(s, CharClass::Exactly('[')), CharClass::Exactly(']'))
}

/// Each piece, trimmed, read as an `i64`; the first failure, left to right, wins.
pub open spec fn parse_items(ps: Seq<Seq<char>>) -> Result<Seq<i64>, IntErrorKind>
    decreases ps.len(),
{
    if ps.len() == 0 {
        Ok(seq![])
    } else {
        match parse_items(ps.drop_last()) {
            Err(e) => Err(e),
            Ok(v) => match parse_i64(trim(ps.last())) {
                Ok(x) => Ok(v.push(x)),
                Err(e) => Err(e),
            },
        }
    }
}

/// A list such as `[7,6,1,-2]`: the integers between the commas.
pub open spec fn parse_vector_spec(s: Seq<char>) -> Result<Seq<i64>, IntErrorKind> {
    parse_items(split(vector_body(s), seq![',']))
}

/// Reads a list of integers such as `[7, 6, 1, -2]`. A piece that is not an integer is a
/// fault of the solver, with the message of the integer parse.
pub fn parse_vector(input: String) -> (res: Result<Vec<i64>, ServiceError>)
    ensures
        match parse_vector_spec(input@) {
            Ok(v) => res matches Ok(r) && r@ == v,
            Err(k) => res matches Err(e) && is_fault(e, "solver"@, int_error_text(k)),
        },
{
    let cs = chars_of(input.as_str());
    let front = trim_front(&cs, CharClass::Exactly('['));
    let body = trim_back(&front, CharClass::Exactly(']'));
    let comma = vec![','];
    let pieces = split_chars(&body, &comma);
    let ghost ps = pieces@.map_values(|p: Vec<char>| p@);
    assert(comma@ == seq![',']);
    assert(ps == split(vector_body(input@), seq![',']));
    let mut out: Vec<i64> = Vec::new();
    let mut i: usize = 0;
    assert(ps.take(0) =~= Seq::<Seq<char>>::empty());
    while i < pieces.len()
        invariant
            ps == pieces@.map_values(|p: Vec<char>| p@),
            ps == split(vector_body(input@), seq![',']),
            i <= ps.len(),
            parse_items(ps.take(i as int)) == Ok::<Seq<i64>, IntErrorKind>(out@),
        decreases ps.len() - i,
    {
        let piece = trim_chars(&pieces[i]);
        assert(ps.take(i + 1).drop_last() == ps.take(i as int));
        assert(ps.take(i + 1).last() == pieces@[i as int]@);
        match parse_i64_chars(&piece) {
            Ok(x) => {
                out.push(x);
            },
            Err(k) => {
                proof {
                    lemma_parse_items_error_sticks(ps, (i + 1) as int, k);
                }
                return Err(ServiceError::fault("solver", int_error_message(k)));
            },
        }
        i = i + 1;
    }
    assert(ps.take(ps.len() as int) == ps);
    Ok(out)
}

proof fn lemma_parse_items_error_sticks(ps: Seq<Seq<char>>, k: int, e: IntErrorKind)
    requires
        0 <= k <= ps.len(),
        parse_items(ps.take(k)) == Err::<Seq<i64>, IntErrorKind>(e),
    ensures
        parse_items(ps) == Err::<Seq<i64>, IntErrorKind>(e),
    decreases ps.len() - k,
{
    if k < ps.len() {
        assert(ps.take(k + 1).drop_last() == ps.take(k));
        lemma_parse_items_error_sticks(ps, k + 1, e);
    } else {
        assert(ps.take(k) == ps);
    }
}


/// The text between two rows of a written map.
pub open spec fn row_separator() -> Seq<char> {
    seq![']', ',', ' ', '[']
}

/// The inside of a written map: trimmed, then leading `[` and trailing `]` removed.
pub open spec fn grid_body(s: Seq<char>) -> Seq<char> {
    strip_back(strip_front(trim(s), CharClass::Exactly('[')), CharClass::Exactly(']'))
}

/// `1` and `true` are land, `0` and `false` water; anything else is refused with its text.
pub open spec fn parse_bool_item(t: Seq<char>) -> Result<bool, Seq<char>> {
    if t == seq!['1'] || t == seq!['t', 'r', 'u', 'e'] {
        Ok(true)
    } else if t == seq!['0'] || t == seq!['f', 'a', 'l', 's', 'e'] {
        Ok(false)
    } else {
        Err("invalid bool: "@ + t)
    }
}

/// Each piece, trimmed, read as a boolean; the first failure, left to right, wins.
pub open spec fn parse_bool_items(ps: Seq<Seq<char>>) -> Result<Seq<bool>, Seq<char>>
    decreases ps.len(),
{
    if ps.len() == 0 {
        Ok(seq![])
    } else {
        match parse_bool_items(ps.drop_last()) {
            Err(e) => Err(e),
            Ok(v) => match parse_bool_item(trim(ps.last())) {
                Ok(x) => Ok(v.push(x)),
                Err(e) => Err(e),
            },
        }
    }
}

/// One row: brackets stripped from both ends, then the booleans between the commas.
pub open spec fn parse_bool_row(r: Seq<char>) -> Result<Seq<bool>, Seq<char>> {
    parse_bool_items(
        split(strip_back(strip_front(r, CharClass::Bracket), CharClass::Bracket), seq![',']),
    )
}

/// Each row read in turn; the first failure wins.
pub open spec fn parse_bool_rows(rs: Seq<Seq<char>>) -> Result<Seq<Seq<bool>>, Seq<char>>
    decreases rs.len(),
{
    if rs.len() == 0 {
        Ok(seq![])
    } else {
        match parse_bool_rows(rs.drop_last()) {
            Err(e) => Err(e),
            Ok(g) => match parse_bool_row(rs.last()) {
                Ok(row) => Ok(g.push(row)),
                Err(e) => Err(e),
            },
        }
    }
}

/// A map such as `[[1,0], [0,1]]`: rows between `], [`, booleans between commas.
pub open spec fn parse_bool_grid_spec(s: Seq<char>) -> Result<Seq<Seq<bool>>, Seq<char>> {
    parse_bool_rows(split(grid_body(s), row_separator()))
}

fn parse_bool_item_exec(t: &Vec<char>) -> (res: Result<bool, String>)
    ensures
        match parse_bool_item(t@) {
            Ok(b) => res == Ok::<bool, String>(b),
            Err(m) => res matches Err(e) && e@ == m,
        },
{
    let one = vec!['1'];
    let yes = vec!['t', 'r', 'u', 'e'];
    let zero = vec!['0'];
    let no = vec!['f', 'a', 'l', 's', 'e'];
    assert(one@ == seq!['1']);
    assert(yes@ == seq!['t', 'r', 'u', 'e']);
    assert(zero@ == seq!['0']);
    assert(no@ == seq!['f', 'a', 'l', 's', 'e']);
    if same_chars(t, &one) || same_chars(t, &yes) {
        Ok(true)
    } else if same_chars(t, &zero) || same_chars(t, &no) {
        Ok(false)
    } else {
        let mut msg = "invalid bool: ".to_string();
        append_chars(&mut msg, t);
        Err(msg)
    }
}

proof fn lemma_parse_bool_items_error_sticks(ps: Seq<Seq<char>>, k: int, e: Seq<char>)
    requires
        0 <= k <= ps.len(),
        parse_bool_items(ps.take(k)) == Err::<Seq<bool>, Seq<char>>(e),
    ensures
        parse_bool_items(ps) == Err::<Seq<bool>, Seq<char>>(e),
    decreases ps.len() - k,
{
    if k < ps.len() {
        assert(ps.take(k + 1).drop_last() == ps.take(k));
        lemma_parse_bool_items_error_sticks(ps, k + 1, e);
    } else {
        assert(ps.take(k) == ps);
    }
}

proof fn lemma_parse_bool_rows_error_sticks(rs: Seq<Seq<char>>, k: int, e: Seq<char>)
    requires
        0 <= k <= rs.len(),
        parse_bool_rows(rs.take(k)) == Err::<Seq<Seq<bool>>, Seq<char>>(e),
    ensures
        parse_bool_rows(rs) == Err::<Seq<Seq<bool>>, Seq<char>>(e),
    decreases rs.len() - k,
{
    if k < rs.len() {
        assert(rs.take(k + 1).drop_last() == rs.take(k));
        lemma_parse_bool_rows_error_sticks(rs, k + 1, e);
    } else {
        assert(rs.take(k) == rs);
    }
}

fn parse_bool_row_exec(r: &Vec<char>) -> (res: Result<Vec<bool>, String>)
    ensures
        match parse_bool_row(r@) {
            Ok(row) => res matches Ok(v) && v@ == row,
            Err(m) => res matches Err(e) && e@ == m,
        },
{
    let front = trim_front(r, CharClass::Bracket);
    let inner = trim_back(&front, CharClass::Bracket);
    let comma = vec![','];
    let pieces = split_chars(&inner, &comma);
    let ghost ps = pieces@.map_values(|p: Vec<char>| p@);
    assert(comma@ == seq![',']);
    let mut out: Vec<bool> = Vec::new();
    let mut i: usize = 0;
    assert(ps.take(0) =~= Seq::<Seq<char>>::empty());
    while i < pieces.len()
        invariant
            ps == pieces@.map_values(|p: Vec<char>| p@),
            ps == split(strip_back(strip_front(r@, CharClass::Bracket), CharClass::Bracket), seq![',']),
            i <= ps.len(),
            parse_bool_items(ps.take(i as int)) == Ok::<Seq<bool>, Seq<char>>(out@),
        decreases ps.len() - i,
    {
        let item = trim_chars(&pieces[i]);
        assert(ps.take(i + 1).drop_last() == ps.take(i as int));
        assert(ps.take(i + 1).last() == pieces@[i as int]@);
        match parse_bool_item_exec(&item) {
            Ok(b) => {
                out.push(b);
            },
            Err(m) => {
                proof {
                    lemma_parse_bool_items_error_sticks(ps, (i + 1) as int, m@);
                }
                return Err(m);
            },
        }
        i = i + 1;
    }
    assert(ps.take(ps.len() as int) == ps);
    Ok(out)
}

/// Reads a map of booleans such as `[[1,0,1], [0,1,0]]`. A cell that is neither `0`, `1`,
/// `true` nor `false` is a fault of the solver naming that cell's text.
pub fn parse_bool_grid(input: String) -> (res: Result<Vec<Vec<bool>>, ServiceError>)
    ensures
        match parse_bool_grid_spec(input@) {
            Ok(g) => res matches Ok(r) && grid_view(&r) == g,
            Err(m) => res matches Err(e) && is_fault(e, "solver"@, m),
        },
{
    let cs = chars_of(input.as_str());
    let trimmed = trim_chars(&cs);
    let front = trim_front(&trimmed, CharClass::Exactly('['));
    let body = trim_back(&front, CharClass::Exactly(']'));
    let sep = vec![']', ',', ' ', '['];
    let rows = split_chars(&body, &sep);
    let ghost rs = rows@.map_values(|p: Vec<char>| p@);
    assert(sep@ == row_separator());
    let mut out: Vec<Vec<bool>> = Vec::new();
    let mut i: usize = 0;
    assert(rs.take(0) =~= Seq::<Seq<char>>::empty());
    assert(grid_view(&out) =~= Seq::<Seq<bool>>::empty());
    while i < rows.len()
        invariant
            rs == rows@.map_values(|p: Vec<char>| p@),
            rs == split(grid_body(input@), row_separator()),
            i <= rs.len(),
            parse_bool_rows(rs.take(i as int)) == Ok::<Seq<Seq<bool>>, Seq<char>>(grid_view(&out)),
        decreases rs.len() - i,
    {
        assert(rs.take(i + 1).drop_last() == rs.take(i as int));
        assert(rs.take(i + 1).last() == rows@[i as int]@);
        match parse_bool_row_exec(&rows[i]) {
            Ok(row) => {
                let ghost before = grid_view(&out);
                out.push(row);
                assert(grid_view(&out) =~= before.push(row@));
            },
            Err(m) => {
                proof {
                    lemma_parse_bool_rows_error_sticks(rs, (i + 1) as int, m@);
                }
                return Err(ServiceError::fault("solver", m));
            },
        }
        i = i + 1;
    }
    assert(rs.take(rs.len() as int) == rs);
    Ok(out)
}

} // verus!
