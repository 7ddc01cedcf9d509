//! Signed decimal literals: their shape, their value, conversion to `i32`,
//! and rendering back to text.

use vstd::prelude::*;
use vstd::arithmetic::div_mod::lemma_fundamental_div_mod;
use vstd::string::StringExecFns;
use crate::grammar::is_digit;
use crate::text::push_char;

verus! {

/// Numeric value of a digit character.
pub open spec fn digit_val(c: char) -> int {
    c as u32 - 48
}

/// Value of a run of digit characters, most significant first.
pub open spec fn digits_val(t: Seq<char>) -> int
    decreases t.len(),
{
    if t.len() == 0 {
        0
    } else {
        digits_val(t.drop_last()) * 10 + digit_val(t.last())
    }
}

/// The lexical shape of a signed decimal literal: an optional leading `-`,
/// then one or more digits.
pub open spec fn is_int_literal(t: Seq<char>) -> bool {
    if t.len() > 0 && t[0] == '-' {
        t.len() > 1 && forall|i: int| 1 <= i < t.len() ==> is_digit(t[i])
    } else {
        t.len() > 0 && forall|i: int| 0 <= i < t.len() ==> is_digit(t[i])
    }
}

/// The integer a literal denotes.
pub open spec fn lit_val(t: Seq<char>) -> int {
    if t.len() > 0 && t[0] == '-' {
        -digits_val(t.drop_first())
    } else {
        digits_val(t)
    }
}

/// Why a list element could not be converted to an integer.
#[derive(Clone, Copy, Debug, PartialEq, Eq, Structural)]
pub enum ConversionReason {
    /// The element is not a decimal literal at all.
    NotANumber,
    /// The literal's value does not fit in 32 bits.
    OutOfRange,
}

/// An element that denotes a representable 32-bit integer.
pub open spec fn convertible(t: Seq<char>) -> bool {
    is_int_literal(t) && i32::MIN <= lit_val(t) <= i32::MAX
}

/// The reason reported for an element that fails conversion.
pub open spec fn reason_of(t: Seq<char>) -> ConversionReason {
    if !is_int_literal(t) {
        ConversionReason::NotANumber
    } else {
        ConversionReason::OutOfRange
    }
}

pub proof fn lemma_digits_val_nonneg(t: Seq<char>)
    requires
        forall|i: int| 0 <= i < t.len() ==> is_digit(t[i]),
    ensures
        digits_val(t) >= 0,
    decreases t.len(),
{
    if t.len() > 0 {
        lemma_digits_val_nonneg(t.drop_last());
    }
}

/// Extending a digit run can only grow its value.
pub proof fn lemma_digits_val_prefix(t: Seq<char>, i: int)
    requires
        forall|k: int| 0 <= k < t.len() ==> is_digit(t[k]),
        0 <= i <= t.len(),
    ensures
        digits_val(t.take(i)) <= digits_val(t),
    decreases t.len(),
{
    if i < t.len() {
        assert(t.take(i) =~= t.drop_last().take(i));
        lemma_digits_val_prefix(t.drop_last(), i);
        lemma_digits_val_nonneg(t.drop_last());
    } else {
        assert(t.take(i) =~= t);
    }
}

/// Convert one list element to a 32-bit integer, or say why it cannot be.
pub fn convert_elem(t: &Vec<char>) -> (r: Result<i32, ConversionReason>)
    ensures
        match r {
            Ok(v) => convertible(t@) && v as int == lit_val(t@),
            Err(e) => !convertible(t@) && e == reason_of(t@),
        },
{
    let n = t.len();
    let neg = n > 0 && t[0] == '-';
    let start: usize = if neg { 1 } else { 0 };
    if n == start {
        return Err(ConversionReason::NotANumber);
    }
    let mut i: usize = start;
    while i < n
        invariant
            start <= i <= n,
            n == t@.len(),
            neg ==> start == 1 && t@[0] == '-',
            !neg ==> start == 0 && t@[0] != '-',
            n > start,
            forall|k: int| start <= k < i ==> is_digit(t@[k]),
        decreases n - i,
    {
        let u = t[i] as u32;
        if !(48 <= u && u <= 57) {
            assert(!is_digit(t@[i as int]));
            assert(!is_int_literal(t@));
            return Err(ConversionReason::NotANumber);
        }
        i = i + 1;
    }
    assert(is_int_literal(t@));
    let ghost digits: Seq<char> = t@.subrange(start as int, n as int);
    proof {
        if neg {
            assert(digits =~= t@.drop_first());
        } else {
            assert(digits =~= t@);
        }
        assert(forall|k: int| 0 <= k < digits.len() ==> is_digit(digits[k]));
    }
    let mut acc: u64 = 0;
    let mut j: usize = start;
    while j < n
        invariant
            start <= j <= n,
            n == t@.len(),
            digits == t@.subrange(start as int, n as int),
            forall|k: int| 0 <= k < digits.len() ==> is_digit(digits[k]),
            forall|k: int| start <= k < n ==> is_digit(t@[k]),
            acc == digits_val(digits.take(j - start)),
            acc <= 2147483648,
            is_int_literal(t@),
            neg ==> start == 1 && t@[0] == '-',
            !neg ==> start == 0 && t@[0] != '-',
            n > start,
        decreases n - j,
    {
        let d = (t[j] as u32 - 48) as u64;
        acc = acc * 10 + d;
        proof {
            let p = digits.take(j - start + 1);
            assert(p.drop_last() =~= digits.take(j - start));
            assert(p.last() == t@[j as int]);
        }
        if acc > 2147483648 {
            proof {
                lemma_digits_val_prefix(digits, j - start + 1);
                lemma_digits_val_nonneg(digits);
                assert(digits =~= digits.take(digits.len() as int));
                if neg {
                    assert(digits =~= t@.drop_first());
                    assert(lit_val(t@) == -digits_val(digits));
                } else {
                    assert(digits =~= t@);
                    assert(lit_val(t@) == digits_val(digits));
                }
            }
            return Err(ConversionReason::OutOfRange);
        }
        j = j + 1;
    }
    proof {
        assert(digits.take(n - start) =~= digits);
        if neg {
            assert(digits =~= t@.drop_first());
            assert(lit_val(t@) == -digits_val(digits));
        } else {
            assert(digits =~= t@);
            assert(lit_val(t@) == digits_val(digits));
        }
    }
    if neg {
        let v: i64 = -(acc as i64);
        assert(v as int == lit_val(t@));
        Ok(v as i32)
    } else {
        if acc > 2147483647 {
            return Err(ConversionReason::OutOfRange);
        }
        Ok(acc as i32)
    }
}

/// Digit character for a value between 0 and 9.
pub open spec fn digit_char(d: int) -> char {
    if d == 0 {
        '0'
    } else if d == 1 {
        '1'
    } else if d == 2 {
        '2'
    } else if d == 3 {
        '3'
    } else if d == 4 {
        '4'
    } else if d == 5 {
        '5'
    } else if d == 6 {
        '6'
    } else if d == 7 {
        '7'
    } else if d == 8 {
        '8'
    } else {
        '9'
    }
}

/// Decimal rendering of a non-negative integer, without sign or padding.
pub open spec fn dec_digits(n: int) -> Seq<char>
    decreases n
        when n >= 0
{
    if n < 10 {
        seq![digit_char(n)]
    } else {
        dec_digits(n / 10).push(digit_char(n % 10))
    }
}

/// Decimal rendering of an integer, with a `-` sign when negative.
pub open spec fn dec_of(v: int) -> Seq<char> {
    if v < 0 {
        seq!['-'] + dec_digits(-v)
    } else {
        dec_digits(v)
    }
}

pub proof fn lemma_dec_digits_are_digits(n: int)
    requires
        n >= 0,
    ensures
        dec_digits(n).len() >= 1,
        forall|i: int| 0 <= i < dec_digits(n).len() ==> is_digit(#[trigger] dec_digits(n)[i]),
    decreases n,
{
    if n >= 10 {
        lemma_fundamental_div_mod(n, 10);
        lemma_dec_digits_are_digits(n / 10);
    }
}

/// Rendering then reading a non-negative integer gives it back.
pub proof fn lemma_digit_char_val(d: int)
    requires
        0 <= d <= 9,
    ensures
        is_digit(digit_char(d)),
        digit_val(digit_char(d)) == d,
{
}

pub proof fn lemma_digits_val_dec_digits(n: int)
    requires
        n >= 0,
    ensures
        digits_val(dec_digits(n)) == n,
    decreases n,
{
    if n < 10 {
        lemma_digit_char_val(n);
        assert(dec_digits(n).drop_last() =~= Seq::<char>::empty());
        assert(digits_val(Seq::<char>::empty()) == 0);
    } else {
        lemma_fundamental_div_mod(n, 10);
        lemma_digit_char_val(n % 10);
        lemma_digits_val_dec_digits(n / 10);
        assert(dec_digits(n).drop_last() =~= dec_digits(n / 10));
    }
}

/// Rendering an integer yields a literal that denotes it.
pub proof fn lemma_dec_of_round_trip(v: int)
    ensures
        is_int_literal(dec_of(v)),
        lit_val(dec_of(v)) == v,
        dec_of(v).len() >= 1,
        !is_digit('-') && dec_of(v)[0] == '-' ==> v < 0,
{
    if v < 0 {
        lemma_dec_digits_are_digits(-v);
        lemma_digits_val_dec_digits(-v);
        assert(dec_of(v).drop_first() =~= dec_digits(-v));
        assert(dec_of(v)[0] == '-');
    } else {
        lemma_dec_digits_are_digits(v);
        lemma_digits_val_dec_digits(v);
        assert(dec_of(v)[0] == dec_digits(v)[0]);
        assert(is_digit(dec_of(v)[0]));
        assert(dec_of(v)[0] != '-');
    }
}

/// Render a non-negative number in decimal.
pub fn render_u64(n: u64) -> (s: String)
    ensures
        s@ == dec_digits(n as int),
{
    let mut rev: Vec<char> = Vec::new();
    let mut m: u64 = n;
    let d0 = digit_char_exec(m % 10);
    rev.push(d0);
    proof {
        if n >= 10 {
            lemma_fundamental_div_mod(n as int, 10);
            assert(dec_digits(n as int) == dec_digits(n as int / 10).push(digit_char(n as int % 10)));
            assert(dec_digits(n as int) =~= dec_digits(n as int / 10) + rev@.reverse());
        } else {
            assert(rev@.reverse() =~= seq![digit_char(n as int)]);
        }
    }
    m = m / 10;
    while m > 0
        invariant
            m == 0 ==> dec_digits(n as int) == rev@.reverse(),
            m > 0 ==> dec_digits(n as int) == dec_digits(m as int) + rev@.reverse(),
        decreases m,
    {
        let d = digit_char_exec(m % 10);
        proof {
            lemma_fundamental_div_mod(m as int, 10);
            if m >= 10 {
                assert(dec_digits(m as int) == dec_digits(m as int / 10).push(
                    digit_char(m as int % 10),
                ));
                assert(dec_digits(m as int / 10).push(digit_char(m as int % 10)) + rev@.reverse()
                    =~= dec_digits(m as int / 10) + rev@.push(digit_char(m as int % 10)).reverse());
            } else {
                assert(dec_digits(m as int) =~= seq![digit_char(m as int)]);
                assert(dec_digits(m as int) + rev@.reverse() =~= rev@.push(
                    digit_char(m as int),
                ).reverse());
            }
        }
        rev.push(d);
        m = m / 10;
    }
    let mut s = String::new();
    let mut i = rev.len();
    while i > 0
        invariant
            i <= rev@.len(),
            s@ == rev@.subrange(i as int, rev@.len() as int).reverse(),
        decreases i,
    {
        i = i - 1;
        proof {
            assert(rev@.subrange(i as int, rev@.len() as int) =~= seq![rev@[i as int]]
                + rev@.subrange(i + 1, rev@.len() as int));
            assert(rev@.subrange(i as int, rev@.len() as int).reverse() =~= rev@.subrange(
                i + 1,
                rev@.len() as int,
            ).reverse().push(rev@[i as int]));
        }
        push_char(&mut s, rev[i]);
    }
    proof {
        assert(rev@.subrange(0, rev@.len() as int) =~= rev@);
    }
    s
}

fn digit_char_exec(d: u64) -> (c: char)
    requires
        d < 10,
    ensures
        c == digit_char(d as int),
{
    if d == 0 {
        '0'
    } else if d == 1 {
        '1'
    } else if d == 2 {
        '2'
    } else if d == 3 {
        '3'
    } else if d == 4 {
        '4'
    } else if d == 5 {
        '5'
    } else if d == 6 {
        '6'
    } else if d == 7 {
        '7'
    } else if d == 8 {
        '8'
    } else {
        '9'
    }
}

/// Render a 32-bit integer in decimal.
pub fn render_i32(v: i32) -> (s: String)
    ensures
        s@ == dec_of(v as int),
{
    if v < 0 {
        let mut s = String::new();
        push_char(&mut s, '-');
        let mag: u64 = (-(v as i64)) as u64;
        let digits = render_u64(mag);
        s.append(digits.as_str());
        proof {
            assert(s@ =~= seq!['-'] + dec_digits(mag as int));
        }
        s
    } else {
        render_u64(v as u64)
    }
}

} // verus!
