//! Decimal integers as text: the formatting of `i64`/`usize` values and the parsing of `i64`.
use vstd::prelude::*;

verus! {

pub open spec fn is_digit(c: char) -> bool {
    48 <= (c as u32) <= 57
}

pub open spec fn digit_value(c: char) -> int {
    (c as u32) - 48
}

pub open spec fn digit_char(d: int) -> char {
    ((d + 48) as u32) as char
}

/// Decimal digits of `n`, without leading zeros.
pub open spec fn decimal_text(n: nat) -> Seq<char>
    decreases n,
{
    if n < 10 {
        seq![digit_char(n as int)]
    } else {
        decimal_text(n / 10).push(digit_char((n % 10) as int))
    }
}

/// How `i64` values are written: a minus sign for negative values, then the digits.
pub open spec fn i64_text(v: int) -> Seq<char> {
    if v < 0 {
        seq!['-'] + decimal_text((-v) as nat)
    } else {
        decimal_text(v as nat)
    }
}

/// Why a text is not an `i64`, as `core::num::IntErrorKind` says it.
#[derive(Clone, Copy, Debug, PartialEq, Eq)]
pub enum IntErrorKind {
    Empty,
    InvalidDigit,
    PosOverflow,
    NegOverflow,
}

/// Value of a digit string read left to right, checking each character before the next:
/// `Err(true)` at the first non-digit, `Err(false)` when the value read so far exceeds `limit`.
pub open spec fn digits_magnitude(d: Seq<char>, limit: nat) -> Result<nat, bool>
    decreases d.len(),
{
    if d.len() == 0 {
        Ok(0)
    } else {
        match digits_magnitude(d.drop_last(), limit) {
            Err(e) => Err(e),
            Ok(m) => if !is_digit(d.last()) {
                Err(true)
            } else if m * 10 + digit_value(d.last()) > limit {
                Err(false)
            } else {
                Ok((m * 10 + digit_value(d.last())) as nat)
            },
        }
    }
}

/// `<i64 as FromStr>::from_str`: an optional sign, then at least one decimal digit.
pub open spec fn parse_i64(s: Seq<char>) -> Result<i64, IntErrorKind> {
    if s.len() == 0 {
        Err(IntErrorKind::Empty)
    } else if (s[0] == '+' || s[0] == '-') && s.len() == 1 {
        Err(IntErrorKind::InvalidDigit)
    } else {
        let neg = s[0] == '-';
        let digits = if s[0] == '+' || s[0] == '-' {
            s.drop_first()
        } else {
            s
        };
        let limit: nat = if neg {
            0x8000_0000_0000_0000
        } else {
            0x7fff_ffff_ffff_ffff
        };
        match digits_magnitude(digits, limit) {
            Ok(m) => Ok(
                if neg {
                    (-m) as i64
                } else {
                    m as i64
                },
            ),
            Err(true) => Err(IntErrorKind::InvalidDigit),
            Err(false) => Err(
                if neg {
                    IntErrorKind::NegOverflow
                } else {
                    IntErrorKind::PosOverflow
                },
            ),
        }
    }
}

/// Parses a decimal `i64` as `str::parse::<i64>` does.
pub fn parse_i64_chars(s: &Vec<char>) -> (res: Result<i64, IntErrorKind>)
    ensures
        res == parse_i64(s@),
{
    let n = s.len();
    if n == 0 {
        return Err(IntErrorKind::Empty);
    }
    let first = s[0];
    if (first == '+' || first == '-') && n == 1 {
        return Err(IntErrorKind::InvalidDigit);
    }
    let neg = first == '-';
    let start: usize = if first == '+' || first == '-' {
        1
    } else {
        0
    };
    let limit: u128 = if neg {
        0x8000_0000_0000_0000
    } else {
        0x7fff_ffff_ffff_ffff
    };
    let ghost digits = if first == '+' || first == '-' {
        s@.drop_first()
    } else {
        s@
    };
    assert(digits == s@.subrange(start as int, n as int));
    let mut m: u128 = 0;
    let mut i: usize = start;
    assert(digits.take(0) =~= Seq::<char>::empty());
    while i < n
        invariant
            n == s@.len(),
            start <= i <= n,
            digits == s@.subrange(start as int, n as int),
            n > 0,
            neg == (s@[0] == '-'),
            !((s@[0] == '+' || s@[0] == '-') && n == 1),
            digits == if s@[0] == '+' || s@[0] == '-' {
                s@.drop_first()
            } else {
                s@
            },
            limit == if neg {
                0x8000_0000_0000_0000u128
            } else {
                0x7fff_ffff_ffff_ffffu128
            },
            m <= limit,
            limit <= 0x8000_0000_0000_0000,
            digits_magnitude(digits.take(i - start), limit as nat) == Ok::<nat, bool>(m as nat),
        decreases n - i,
    {
        let c = s[i];
        assert(digits.take(i - start + 1).drop_last() == digits.take(i - start));
        assert(digits.take(i - start + 1).last() == c);
        let u = c as u32;
        if u < 48 || u > 57 {
            assert(digits_magnitude(digits.take(i - start + 1), limit as nat) == Err::<nat, bool>(true));
            proof {
                lemma_magnitude_error_sticks(digits, (i - start + 1) as int, limit as nat, true);
            }
            assert(digits.take(digits.len() as int) == digits);
            return Err(IntErrorKind::InvalidDigit);
        }
        let next = m * 10 + ((u - 48) as u128);
        if next > limit {
            assert(digits_magnitude(digits.take(i - start + 1), limit as nat) == Err::<nat, bool>(false));
            proof {
                lemma_magnitude_error_sticks(digits, (i - start + 1) as int, limit as nat, false);
            }
            assert(digits.take(digits.len() as int) == digits);
            return if neg {
                Err(IntErrorKind::NegOverflow)
            } else {
                Err(IntErrorKind::PosOverflow)
            };
        }
        assert(digits_magnitude(digits.take(i - start + 1), limit as nat) == Ok::<nat, bool>(next as nat));
        m = next;
        i = i + 1;
    }
    assert(digits.take(digits.len() as int) == digits);
    if neg {
        Ok((0 - (m as i128)) as i64)
    } else {
        Ok(m as i64)
    }
}

/// Once a prefix of a digit string fails, the whole string fails the same way.
proof fn lemma_magnitude_error_sticks(d: Seq<char>, k: int, limit: nat, e: bool)
    requires
        0 <= k <= d.len(),
        digits_magnitude(d.take(k), limit) == Err::<nat, bool>(e),
    ensures
        digits_magnitude(d, limit) == Err::<nat, bool>(e),
    decreases d.len() - k,
{
    if k < d.len() {
        assert(d.take(k + 1).drop_last() == d.take(k));
        lemma_magnitude_error_sticks(d, k + 1, limit, e);
    } else {
        assert(d.take(k) == d);
    }
}

fn digit_to_char(d: u64) -> (c: char)
    requires
        d < 10,
    ensures
        c == digit_char(d as int),
{
    let b: u8 = (d as u8) + 48;
    b as char
}

/// Appends the decimal digits of `n`.
pub fn push_decimal(out: &mut String, n: u64)
    ensures
        final(out)@ == old(out)@ + decimal_text(n as nat),
    decreases n,
{
    if n >= 10 {
        push_decimal(out, n / 10);
    }
    let c = digit_to_char(n % 10);
    crate::text::push_str_char(out, c);
    assert(decimal_text(n as nat) == if n < 10 {
        seq![digit_char(n as int)]
    } else {
        decimal_text((n / 10) as nat).push(digit_char((n % 10) as int))
    });
}

/// `i64::to_string`.
pub fn i64_to_text(v: i64) -> (res: String)
    ensures
        res@ == i64_text(v as int),
{
    let mut out = String::new();
    if v < 0 {
        crate::text::push_str_char(&mut out, '-');
        let magnitude: u64 = (0 - (v as i128)) as u64;
        push_decimal(&mut out, magnitude);
    } else {
        push_decimal(&mut out, v as u64);
    }
    out
}

/// `usize::to_string`.
pub fn usize_to_text(v: usize) -> (res: String)
    ensures
        res@ == decimal_text(v as nat),
{
    let mut out = String::new();
    push_decimal(&mut out, v as u64);
    out
}

proof fn lemma_decimal_text_digits(n: nat)
    ensures
        decimal_text(n).len() > 0,
        forall|i: int| 0 <= i < decimal_text(n).len() ==> #[trigger] is_digit(decimal_text(n)[i]),
        forall|limit: nat| n <= limit ==> digits_magnitude(decimal_text(n), limit) == Ok::<nat, bool>(n),
    decreases n,
{
    if n >= 10 {
        lemma_decimal_text_digits(n / 10);
        let d = n % 10;
        assert(digit_value(digit_char(d as int)) == d);
        assert(decimal_text(n).drop_last() == decimal_text(n / 10));
        assert forall|limit: nat| n <= limit implies digits_magnitude(decimal_text(n), limit)
            == Ok::<nat, bool>(n) by {
            assert(digits_magnitude(decimal_text(n / 10), limit) == Ok::<nat, bool>(n / 10));
        }
    } else {
        assert(digit_value(digit_char(n as int)) == n);
        assert(decimal_text(n).drop_last() =~= Seq::<char>::empty());
        assert forall|limit: nat| n <= limit implies digits_magnitude(decimal_text(n), limit)
            == Ok::<nat, bool>(n) by {
            assert(digits_magnitude(decimal_text(n).drop_last(), limit) == Ok::<nat, bool>(0));
        }
    }
}

/// An `i64` written out reads back as itself.
pub proof fn lemma_i64_text_parses(v: i64)
    ensures
        parse_i64(i64_text(v as int)) == Ok::<i64, IntErrorKind>(v),
{
    if v < 0 {
        let m = (-v) as nat;
        lemma_decimal_text_digits(m);
        let s = i64_text(v as int);
        assert(s.drop_first() == decimal_text(m));
        assert(s.len() >= 2);
    } else {
        lemma_decimal_text_digits(v as nat);
        let s = decimal_text(v as nat);
        assert(is_digit(s[0]));
    }
}

/// Written `i64` values are never empty and hold neither white space nor the separators
/// `,`, `[` and `]`.
pub proof fn lemma_i64_text_chars(v: i64)
    ensures
        i64_text(v as int).len() > 0,
        forall|i: int|
            0 <= i < i64_text(v as int).len() ==> {
                let c = #[trigger] i64_text(v as int)[i];
                c == '-' || is_digit(c)
            },
{
    if v < 0 {
        lemma_decimal_text_digits((-v) as nat);
        assert forall|i: int| 0 <= i < i64_text(v as int).len() implies {
            let c = #[trigger] i64_text(v as int)[i];
            c == '-' || is_digit(c)
        } by {
            if i > 0 {
                assert(i64_text(v as int)[i] == decimal_text((-v) as nat)[i - 1]);
            }
        }
    } else {
        lemma_decimal_text_digits(v as nat);
    }
}

} // verus!
