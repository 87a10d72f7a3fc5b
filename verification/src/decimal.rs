//! Decimal text: what a string of digits denotes, and how a `u64` is read
//! from an argument.

use crate::chars::chars_of;
use vstd::prelude::*;

verus! {

/// Why a string is not the decimal text of a `u64`.
#[derive(Clone, Copy, Debug, PartialEq, Eq, Structural)]
pub enum DecimalError {
    /// The string is empty.
    Empty,
    /// A character that is no digit, or a sign with nothing after it.
    InvalidDigit,
    /// The digits denote more than `u64::MAX`.
    PosOverflow,
}

/// One of the digits `0` to `9`.
pub open spec fn is_digit(c: char) -> bool {
    '0' <= c && c <= '9'
}

/// Nothing but digits.
pub open spec fn all_digits(s: Seq<char>) -> bool {
    forall|i: int| 0 <= i < s.len() ==> is_digit(#[trigger] s[i])
}

/// The number that a digit denotes.
pub open spec fn digit_value(c: char) -> nat
    recommends
        is_digit(c),
{
    (c as int - '0' as int) as nat
}

/// The digit that denotes a number below ten.
pub open spec fn digit_char(d: nat) -> char
    recommends
        d < 10,
{
    (d + 48) as char
}

/// The number that a string of digits denotes, most significant digit first.
pub open spec fn decimal_value(s: Seq<char>) -> nat
    decreases s.len(),
{
    if s.len() == 0 {
        0
    } else {
        decimal_value(s.drop_last()) * 10 + digit_value(s.last())
    }
}

/// The shortest string of digits that denotes `n`.
pub open spec fn to_decimal(n: nat) -> Seq<char>
    decreases n,
{
    if n < 10 {
        seq![digit_char(n)]
    } else {
        to_decimal(n / 10).push(digit_char(n % 10))
    }
}

/// A string of digits with no needless leading zero.
pub open spec fn is_canonical(s: Seq<char>) -> bool {
    &&& s.len() > 0
    &&& all_digits(s)
    &&& (s.len() > 1 ==> s[0] != '0')
}

/// The decimal text of a number has no needless zero and denotes the
/// number.
pub proof fn lemma_to_decimal_canonical(n: nat)
    ensures
        is_canonical(to_decimal(n)),
        decimal_value(to_decimal(n)) == n,
    decreases n,
{
    if n < 10 {
        let s = to_decimal(n);
        assert(s.drop_last() =~= Seq::<char>::empty());
        assert(decimal_value(s.drop_last()) == 0);
    } else {
        lemma_to_decimal_canonical(n / 10);
        let p = to_decimal(n / 10);
        let s = to_decimal(n);
        assert(s.drop_last() =~= p);
        assert(s.last() == digit_char(n % 10));
        assert(s[0] == p[0]);
        if p.len() == 1 {
            assert(p.drop_last() =~= Seq::<char>::empty());
            assert(decimal_value(p.drop_last()) == 0);
            assert(digit_value(p[0]) == n / 10);
        }
    }
}

/// A string of digits without a needless zero is the decimal text of the
/// number it denotes.
pub proof fn lemma_canonical_is_to_decimal(s: Seq<char>)
    requires
        is_canonical(s),
    ensures
        to_decimal(decimal_value(s)) == s,
    decreases s.len(),
{
    let p = s.drop_last();
    let d = digit_value(s.last());
    assert(is_digit(s.last()));
    assert(digit_char(d) == s.last());
    if s.len() == 1 {
        assert(p =~= Seq::<char>::empty());
        assert(decimal_value(p) == 0);
        assert(to_decimal(d) =~= s);
    } else {
        assert(is_canonical(p));
        lemma_canonical_is_to_decimal(p);
        lemma_canonical_positive(p, s.len() >= 3);
        let v = decimal_value(p);
        let n = v * 10 + d;
        assert(n / 10 == v && n % 10 == d);
        if s.len() == 2 {
            assert(p.drop_last() =~= Seq::<char>::empty());
            assert(decimal_value(p.drop_last()) == 0);
            assert(v == digit_value(p[0]));
            assert(v >= 1);
        }
        assert(n >= 10);
        assert(to_decimal(n) =~= s);
    }
}

/// A canonical string of two or more digits denotes at least 10; any
/// canonical string of one or more digits whose first is not zero denotes at
/// least 1.
proof fn lemma_canonical_positive(s: Seq<char>, long: bool)
    requires
        is_canonical(s),
        long ==> s.len() >= 2,
    ensures
        long ==> decimal_value(s) >= 10,
        s[0] != '0' ==> decimal_value(s) >= 1,
    decreases s.len(),
{
    if s.len() == 1 {
        assert(s.drop_last() =~= Seq::<char>::empty());
        assert(decimal_value(s.drop_last()) == 0);
    } else {
        let p = s.drop_last();
        assert(is_canonical(p));
        assert(p[0] == s[0]);
        lemma_canonical_positive(p, false);
    }
}

/// For strings of digits, a prefix denotes no more than the whole.
pub proof fn lemma_prefix_value_monotonic(s: Seq<char>, j: int, k: int)
    requires
        0 <= j <= k <= s.len(),
    ensures
        decimal_value(s.take(j)) <= decimal_value(s.take(k)),
    decreases k - j,
{
    if j < k {
        lemma_prefix_value_monotonic(s, j, k - 1);
        assert(s.take(k).drop_last() =~= s.take(k - 1));
    }
}

/// The digits of an unsigned number: the string without one leading `+`.
pub open spec fn unsigned_digits(s: Seq<char>) -> Seq<char> {
    if s.len() > 0 && s[0] == '+' {
        s.drop_first()
    } else {
        s
    }
}

/// Some run of digits at the start of `d` already denotes more than
/// `u64::MAX`.
pub open spec fn overflows_in_digits(d: Seq<char>) -> bool {
    exists|k: int|
        0 <= k <= d.len() && all_digits(#[trigger] d.take(k)) && decimal_value(d.take(k))
            > u64::MAX
}

/// How a `u64` is read from text: an optional `+`, then one or more digits
/// that denote at most `u64::MAX`. Of the reasons to refuse, the one met
/// first when reading from the left is reported.
pub open spec fn parse_u64_spec(s: Seq<char>) -> Result<u64, DecimalError> {
    let d = unsigned_digits(s);
    if s.len() == 0 {
        Err(DecimalError::Empty)
    } else if d.len() == 0 {
        Err(DecimalError::InvalidDigit)
    } else if overflows_in_digits(d) {
        Err(DecimalError::PosOverflow)
    } else if all_digits(d) {
        Ok(decimal_value(d) as u64)
    } else {
        Err(DecimalError::InvalidDigit)
    }
}

/// Reads a `u64` from its decimal text.
pub fn parse_u64(s: &str) -> (r: Result<u64, DecimalError>)
    ensures
        r == parse_u64_spec(s@),
{
    let chars = chars_of(s);
    let n = chars.len();
    if n == 0 {
        return Err(DecimalError::Empty);
    }
    let start: usize = if chars[0] == '+' {
        1
    } else {
        0
    };
    let ghost d = unsigned_digits(s@);
    assert(d =~= chars@.subrange(start as int, n as int));
    if start == n {
        return Err(DecimalError::InvalidDigit);
    }
    let mut acc: u64 = 0;
    let mut i: usize = start;
    assert(d.take(0) =~= Seq::<char>::empty());
    while i < n
        invariant
            start <= i <= n,
            n == chars.len(),
            d == chars@.subrange(start as int, n as int),
            d == unsigned_digits(s@),
            s@.len() > 0,
            d.len() > 0,
            all_digits(d.take(i - start)),
            acc == decimal_value(d.take(i - start)),
        decreases n - i,
    {
        let c = chars[i];
        let ghost j = i - start;
        assert(d[j] == c);
        if !('0' <= c && c <= '9') {
            proof {
                assert(!all_digits(d));
                assert forall|k: int|
                    0 <= k <= d.len() && all_digits(#[trigger] d.take(k)) implies decimal_value(
                    d.take(k),
                ) <= u64::MAX by {
                    if k > j {
                        assert(d.take(k)[j] == d[j]);
                    }
                    lemma_prefix_value_monotonic(d.take(j), k, j);
                    assert(d.take(j).take(k) =~= d.take(k));
                    assert(d.take(j).take(j) =~= d.take(j));
                }
            }
            return Err(DecimalError::InvalidDigit);
        }
        let v: u64 = (c as u32 - '0' as u32) as u64;
        proof {
            assert(d.take(j + 1).drop_last() =~= d.take(j));
            assert(d.take(j + 1).last() == c);
            assert(v == digit_value(c));
            assert forall|m: int| 0 <= m < d.take(j + 1).len() implies is_digit(
                #[trigger] d.take(j + 1)[m],
            ) by {
                if m < j {
                    assert(d.take(j)[m] == d.take(j + 1)[m]);
                }
            }
        }
        if acc > (u64::MAX - v) / 10 {
            assert(all_digits(d.take(j + 1)) && decimal_value(d.take(j + 1)) > u64::MAX);
            return Err(DecimalError::PosOverflow);
        }
        acc = acc * 10 + v;
        i += 1;
    }
    proof {
        assert(d.take(n - start) =~= d);
        assert forall|k: int|
            0 <= k <= d.len() && all_digits(#[trigger] d.take(k)) implies decimal_value(d.take(k))
            <= u64::MAX by {
            lemma_prefix_value_monotonic(d, k, d.len() as int);
        }
    }
    Ok(acc)
}

/// A `usize` in decimal text, or `None` where `parse_u64` refuses the text
/// or the number does not fit.
pub open spec fn parse_usize_spec(s: Seq<char>) -> Option<usize> {
    match parse_u64_spec(s) {
        Ok(v) => if v <= usize::MAX {
            Some(v as usize)
        } else {
            None
        },
        Err(_) => None,
    }
}

/// Reads a `usize` from its decimal text.
pub fn parse_usize(s: &str) -> (r: Option<usize>)
    ensures
        r == parse_usize_spec(s@),
{
    match parse_u64(s) {
        Ok(v) => if v <= usize::MAX as u64 {
            Some(v as usize)
        } else {
            None
        },
        Err(_) => None,
    }
}

} // verus!
