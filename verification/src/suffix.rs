//! The suffixes that tell the output files of one run apart: lower-case
//! letters counted upwards from `aa`, or decimal numbers counted from `0`.

use crate::chars::{chars_of, string_of};
use crate::decimal::{
    all_digits, decimal_value, digit_value, is_canonical, is_digit,
    lemma_canonical_is_to_decimal, lemma_to_decimal_canonical, to_decimal,
};
use vstd::prelude::*;

verus! {

/// One of the letters `a` to `z`.
pub open spec fn is_lower(c: char) -> bool {
    'a' <= c && c <= 'z'
}

/// An alphabetic suffix: one or more lower-case letters.
pub open spec fn is_alpha_suffix(s: Seq<char>) -> bool {
    &&& s.len() > 0
    &&& forall|i: int| 0 <= i < s.len() ==> is_lower(#[trigger] s[i])
}

/// A numeric suffix: one or more digits.
pub open spec fn is_numeric_suffix(s: Seq<char>) -> bool {
    s.len() > 0 && all_digits(s)
}

/// A suffix of the kind asked for.
pub open spec fn valid_suffix(s: Seq<char>, numeric: bool) -> bool {
    if numeric {
        is_numeric_suffix(s)
    } else {
        is_alpha_suffix(s)
    }
}

/// `n` times the character `c`.
pub open spec fn repeat(c: char, n: nat) -> Seq<char> {
    Seq::new(n, |i: int| c)
}

/// How many times `c` stands at the end of `s`.
pub open spec fn trailing(s: Seq<char>, c: char) -> nat
    decreases s.len(),
{
    if s.len() > 0 && s.last() == c {
        1 + trailing(s.drop_last(), c)
    } else {
        0
    }
}

/// The character that follows `c`.
pub open spec fn char_after(c: char) -> char {
    (c as int + 1) as char
}

/// The suffix after `s` in alphabetic order. The last letter that is not `z`
/// moves one letter on and every `z` behind it becomes `a`. Where every
/// letter is `z`, all become `a` and the suffix grows by `aa`.
pub open spec fn next_alpha(s: Seq<char>) -> Seq<char> {
    let k = trailing(s, 'z');
    if k == s.len() {
        repeat('a', s.len() + 2)
    } else {
        let p = s.len() - k - 1;
        s.take(p).push(char_after(s[p])) + repeat('a', k)
    }
}

/// The suffix after `s` in numeric order: the number it denotes, plus one,
/// written without leading zeros.
pub open spec fn next_numeric(s: Seq<char>) -> Seq<char> {
    to_decimal(decimal_value(s) + 1)
}

/// The suffix after `s`, of the kind asked for.
pub open spec fn next_suffix(s: Seq<char>, numeric: bool) -> Seq<char> {
    if numeric {
        next_numeric(s)
    } else {
        next_alpha(s)
    }
}

/// The suffix of the first file of a run.
pub open spec fn first_suffix(numeric: bool) -> Seq<char> {
    if numeric {
        seq!['0']
    } else {
        seq!['a', 'a']
    }
}

/// The suffix of file number `k` of a run, counted from zero.
pub open spec fn suffix_at(k: nat, numeric: bool) -> Seq<char>
    decreases k,
{
    if k == 0 {
        first_suffix(numeric)
    } else {
        next_suffix(suffix_at((k - 1) as nat, numeric), numeric)
    }
}

/// `s` ends in exactly `k` times `c`.
proof fn lemma_trailing(s: Seq<char>, c: char, k: nat)
    requires
        k <= s.len(),
        forall|i: int| s.len() - k <= i < s.len() ==> s[i] == c,
        k < s.len() ==> s[s.len() - k - 1] != c,
    ensures
        trailing(s, c) == k,
    decreases k,
{
    if k > 0 {
        let t = s.drop_last();
        assert forall|i: int| t.len() - (k - 1) <= i < t.len() implies t[i] == c by {
            assert(t[i] == s[i]);
        }
        lemma_trailing(t, c, (k - 1) as nat);
    }
}

/// The suffix of the first file of a run.
pub fn first_suffix_text(numeric: bool) -> (r: String)
    ensures
        r@ == first_suffix(numeric),
        valid_suffix(r@, numeric),
{
    proof {
        reveal_strlit("0");
        reveal_strlit("aa");
    }
    if numeric {
        let r = String::from_str("0");
        assert(r@ =~= seq!['0']);
        r
    } else {
        let r = String::from_str("aa");
        assert(r@ =~= seq!['a', 'a']);
        r
    }
}

fn next_alpha_chars(chars: Vec<char>) -> (out: Vec<char>)
    requires
        is_alpha_suffix(chars@),
    ensures
        out@ == next_alpha(chars@),
{
    let ghost s = chars@;
    let n = chars.len();
    let mut out = chars;
    let mut i: usize = n;
    let mut carry = true;
    while i > 0 && carry
        invariant
            i <= n,
            n == s.len(),
            out.len() == n,
            is_alpha_suffix(s),
            forall|j: int| 0 <= j < i ==> #[trigger] out[j] == s[j],
            !carry ==> i < n && s[i as int] != 'z' && out[i as int] == char_after(s[i as int]),
            forall|j: int| i <= j < n && (carry || i < j) ==> #[trigger] s[j] == 'z',
            forall|j: int| i <= j < n && (carry || i < j) ==> #[trigger] out[j] == 'a',
        decreases i,
    {
        i -= 1;
        let c = out[i];
        assert(is_lower(s[i as int]));
        if c == 'z' {
            out[i] = 'a';
        } else {
            out[i] = ((c as u8) + 1) as char;
            carry = false;
        }
    }
    if carry {
        out.push('a');
        out.push('a');
        proof {
            lemma_trailing(s, 'z', n as nat);
            assert(out@ =~= repeat('a', s.len() + 2));
        }
    } else {
        proof {
            let k = (n - i - 1) as nat;
            lemma_trailing(s, 'z', k);
            assert(out@ =~= s.take(i as int).push(char_after(s[i as int])) + repeat('a', k));
        }
    }
    out
}

/// A digit behind a string of digits: ten times what the string denotes, plus
/// the digit.
proof fn lemma_value_push(t: Seq<char>, c: char)
    ensures
        decimal_value(t.push(c)) == decimal_value(t) * 10 + digit_value(c),
{
    assert(t.push(c).drop_last() =~= t);
}

/// Zeros in front of a string of digits do not change what it denotes.
proof fn lemma_leading_zeros(z: nat, s: Seq<char>)
    ensures
        decimal_value(repeat('0', z) + s) == decimal_value(s),
    decreases s.len(), z,
{
    let w = repeat('0', z) + s;
    if s.len() > 0 {
        assert(w.drop_last() =~= repeat('0', z) + s.drop_last());
        lemma_leading_zeros(z, s.drop_last());
    } else if z > 0 {
        assert(w.drop_last() =~= repeat('0', (z - 1) as nat) + s);
        lemma_leading_zeros((z - 1) as nat, s);
    }
}

/// Adding one to a number that ends in `k` nines: the digit before them
/// moves one on and the nines become zeros.
proof fn lemma_carry_value(t: Seq<char>, d: char, k: nat)
    requires
        is_digit(d),
        d != '9',
    ensures
        decimal_value(t.push(d) + repeat('9', k)) + 1 == decimal_value(
            t.push(char_after(d)) + repeat('0', k),
        ),
    decreases k,
{
    let x = t.push(d) + repeat('9', k);
    let y = t.push(char_after(d)) + repeat('0', k);
    if k == 0 {
        assert(x =~= t.push(d));
        assert(y =~= t.push(char_after(d)));
        lemma_value_push(t, d);
        lemma_value_push(t, char_after(d));
    } else {
        let j = (k - 1) as nat;
        lemma_carry_value(t, d, j);
        assert(x =~= (t.push(d) + repeat('9', j)).push('9'));
        assert(y =~= (t.push(char_after(d)) + repeat('0', j)).push('0'));
        lemma_value_push(t.push(d) + repeat('9', j), '9');
        lemma_value_push(t.push(char_after(d)) + repeat('0', j), '0');
    }
}

fn next_numeric_chars(chars: Vec<char>) -> (out: Vec<char>)
    requires
        is_numeric_suffix(chars@),
    ensures
        out@ == next_numeric(chars@),
{
    let ghost s = chars@;
    let n = chars.len();
    let mut out = chars;
    let mut i: usize = n;
    let mut carry = true;
    while i > 0 && carry
        invariant
            i <= n,
            n == s.len(),
            out.len() == n,
            all_digits(s),
            all_digits(out@),
            forall|j: int| 0 <= j < i ==> #[trigger] out[j] == s[j],
            !carry ==> i < n && s[i as int] != '9' && out[i as int] == char_after(s[i as int]),
            forall|j: int| i <= j < n && (carry || i < j) ==> #[trigger] s[j] == '9',
            forall|j: int| i <= j < n && (carry || i < j) ==> #[trigger] out[j] == '0',
        decreases i,
    {
        i -= 1;
        let c = out[i];
        assert(is_digit(s[i as int]));
        if c == '9' {
            out[i] = '0';
        } else {
            out[i] = ((c as u8) + 1) as char;
            carry = false;
        }
    }
    if carry {
        out.insert(0, '1');
        proof {
            let empty = Seq::<char>::empty();
            lemma_carry_value(empty, '0', n as nat);
            lemma_leading_zeros(1, s);
            assert(empty.push('0') + repeat('9', n as nat) =~= repeat('0', 1) + s);
            assert(empty.push(char_after('0')) + repeat('0', n as nat) =~= out@);
            assert(is_canonical(out@));
            lemma_canonical_is_to_decimal(out@);
        }
        out
    } else {
        proof {
            let k = (n - i - 1) as nat;
            let t = s.take(i as int);
            lemma_carry_value(t, s[i as int], k);
            assert(t.push(s[i as int]) + repeat('9', k) =~= s);
            assert(t.push(char_after(s[i as int])) + repeat('0', k) =~= out@);
        }
        let mut z: usize = 0;
        while z + 1 < n && out[z] == '0'
            invariant
                z < n,
                n == out.len(),
                forall|j: int| 0 <= j < z ==> #[trigger] out[j] == '0',
            decreases n - z,
        {
            z += 1;
        }
        let ghost whole = out@;
        let rest = out.split_off(z);
        proof {
            assert(whole =~= repeat('0', z as nat) + rest@);
            lemma_leading_zeros(z as nat, rest@);
            assert forall|j: int| 0 <= j < rest@.len() implies is_digit(#[trigger] rest@[j]) by {
                assert(rest@[j] == whole[j + z]);
            }
            assert(rest@[0] == whole[z as int]);
            assert(is_canonical(rest@));
            lemma_canonical_is_to_decimal(rest@);
        }
        rest
    }
}

/// The suffix that follows `current_suffix`: the next string of letters, or
/// the next number where `is_numerical_suffix` is set.
pub fn get_next_suffix(current_suffix: &str, is_numerical_suffix: bool) -> (r: String)
    requires
        valid_suffix(current_suffix@, is_numerical_suffix),
    ensures
        r@ == next_suffix(current_suffix@, is_numerical_suffix),
        valid_suffix(r@, is_numerical_suffix),
{
    let chars = chars_of(current_suffix);
    let next = if is_numerical_suffix {
        next_numeric_chars(chars)
    } else {
        next_alpha_chars(chars)
    };
    proof {
        lemma_next_suffix_valid(current_suffix@, is_numerical_suffix);
    }
    string_of(&next)
}

/// The successor of a suffix is a suffix of the same kind.
pub proof fn lemma_next_suffix_valid(s: Seq<char>, numeric: bool)
    requires
        valid_suffix(s, numeric),
    ensures
        valid_suffix(next_suffix(s, numeric), numeric),
{
    if numeric {
        lemma_to_decimal_canonical(decimal_value(s) + 1);
    } else {
        let k = trailing(s, 'z');
        lemma_trailing_bound(s, 'z');
        if k < s.len() {
            let p = s.len() - k - 1;
            assert(is_lower(s[p]));
            let r = next_alpha(s);
            assert forall|i: int| 0 <= i < r.len() implies is_lower(#[trigger] r[i]) by {
                if i < p {
                    assert(r[i] == s[i]);
                    assert(is_lower(s[i]));
                }
            }
        }
    }
}

/// `trailing` counts characters of `s`, and the one before them differs.
proof fn lemma_trailing_bound(s: Seq<char>, c: char)
    ensures
        trailing(s, c) <= s.len(),
        forall|i: int| s.len() - trailing(s, c) <= i < s.len() ==> s[i] == c,
        trailing(s, c) < s.len() ==> s[s.len() - trailing(s, c) - 1] != c,
    decreases s.len(),
{
    if s.len() > 0 && s.last() == c {
        let t = s.drop_last();
        lemma_trailing_bound(t, c);
        assert forall|i: int| s.len() - trailing(s, c) <= i < s.len() implies s[i] == c by {
            if i < t.len() {
                assert(t[i] == s[i]);
            }
        }
        if trailing(s, c) < s.len() {
            assert(t[t.len() - trailing(t, c) - 1] == s[s.len() - trailing(s, c) - 1]);
        }
    }
}

/// What a string of lower-case letters denotes when `a` to `z` are read as
/// the digits 0 to 25.
pub open spec fn alpha_value(s: Seq<char>) -> nat
    decreases s.len(),
{
    if s.len() == 0 {
        0
    } else {
        alpha_value(s.drop_last()) * 26 + (s.last() as int - 'a' as int) as nat
    }
}

/// The order in which a run hands out its suffixes. Numbers go by what they
/// denote; strings of letters go by length first, then by what they denote.
pub open spec fn suffix_precedes(a: Seq<char>, b: Seq<char>, numeric: bool) -> bool {
    if numeric {
        decimal_value(a) < decimal_value(b)
    } else {
        a.len() < b.len() || (a.len() == b.len() && alpha_value(a) < alpha_value(b))
    }
}

proof fn lemma_alpha_push(t: Seq<char>, c: char)
    ensures
        alpha_value(t.push(c)) == alpha_value(t) * 26 + (c as int - 'a' as int) as nat,
{
    assert(t.push(c).drop_last() =~= t);
}

proof fn lemma_alpha_carry(t: Seq<char>, d: char, k: nat)
    requires
        is_lower(d),
        d != 'z',
    ensures
        alpha_value(t.push(d) + repeat('z', k)) + 1 == alpha_value(
            t.push(char_after(d)) + repeat('a', k),
        ),
    decreases k,
{
    let x = t.push(d) + repeat('z', k);
    let y = t.push(char_after(d)) + repeat('a', k);
    if k == 0 {
        assert(x =~= t.push(d));
        assert(y =~= t.push(char_after(d)));
        lemma_alpha_push(t, d);
        lemma_alpha_push(t, char_after(d));
    } else {
        let j = (k - 1) as nat;
        lemma_alpha_carry(t, d, j);
        assert(x =~= (t.push(d) + repeat('z', j)).push('z'));
        assert(y =~= (t.push(char_after(d)) + repeat('a', j)).push('a'));
        lemma_alpha_push(t.push(d) + repeat('z', j), 'z');
        lemma_alpha_push(t.push(char_after(d)) + repeat('a', j), 'a');
    }
}

/// Every suffix comes before its successor: a number grows by exactly one; a
/// string of letters keeps its length and denotes one more, or, where all its
/// letters are `z`, grows by two letters.
pub proof fn lemma_next_suffix_greater(s: Seq<char>, numeric: bool)
    requires
        valid_suffix(s, numeric),
    ensures
        suffix_precedes(s, next_suffix(s, numeric), numeric),
        numeric ==> decimal_value(next_suffix(s, numeric)) == decimal_value(s) + 1,
        !numeric && trailing(s, 'z') < s.len() ==> next_suffix(s, numeric).len() == s.len()
            && alpha_value(next_suffix(s, numeric)) == alpha_value(s) + 1,
        !numeric && trailing(s, 'z') == s.len() ==> next_suffix(s, numeric).len() == s.len() + 2,
{
    if numeric {
        lemma_to_decimal_canonical(decimal_value(s) + 1);
    } else {
        let k = trailing(s, 'z');
        lemma_trailing_bound(s, 'z');
        if k < s.len() {
            let p = s.len() - k - 1;
            let t = s.take(p);
            assert(is_lower(s[p]));
            lemma_alpha_carry(t, s[p], k);
            assert(t.push(s[p]) + repeat('z', k) =~= s);
        }
    }
}

/// A suffix made of `z` alone is followed by one that is two letters longer
/// and made of `a` alone.
pub proof fn lemma_all_z_grows(len: nat)
    ensures
        next_alpha(repeat('z', len)) == repeat('a', len + 2),
{
    lemma_trailing(repeat('z', len), 'z', len);
}

/// Every suffix of a run is a suffix of the kind the run uses.
pub proof fn lemma_suffix_at_valid(k: nat, numeric: bool)
    ensures
        valid_suffix(suffix_at(k, numeric), numeric),
    decreases k,
{
    if k > 0 {
        lemma_suffix_at_valid((k - 1) as nat, numeric);
        lemma_next_suffix_valid(suffix_at((k - 1) as nat, numeric), numeric);
    }
}

/// A run never hands out a suffix twice: an earlier file's suffix comes
/// strictly before a later file's.
pub proof fn lemma_suffixes_increase(i: nat, j: nat, numeric: bool)
    requires
        i < j,
    ensures
        suffix_precedes(suffix_at(i, numeric), suffix_at(j, numeric), numeric),
        suffix_at(i, numeric) != suffix_at(j, numeric),
    decreases j,
{
    let before = suffix_at((j - 1) as nat, numeric);
    lemma_suffix_at_valid((j - 1) as nat, numeric);
    lemma_next_suffix_greater(before, numeric);
    if i < j - 1 {
        lemma_suffixes_increase(i, (j - 1) as nat, numeric);
    }
}

/// The numeric suffixes of a run are the numbers 0, 1, 2 and so on, in
/// decimal and with none left out.
pub proof fn lemma_numeric_suffix_at(k: nat)
    ensures
        suffix_at(k, true) == to_decimal(k),
    decreases k,
{
    if k > 0 {
        lemma_numeric_suffix_at((k - 1) as nat);
        lemma_to_decimal_canonical((k - 1) as nat);
    } else {
        assert(to_decimal(0) =~= seq!['0']);
    }
}

} // verus!
