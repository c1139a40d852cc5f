//! Numbers as decimal text, and decimal text as numbers.
use crate::abyss::Value;
use crate::error::NumberError;
use vstd::prelude::*;

verus! {

/// The ASCII digit of a number below ten.
pub open spec fn digit(d: int) -> u8 {
    (48 + d) as u8
}

/// `b` is an ASCII digit.
pub open spec fn is_digit(b: u8) -> bool {
    48 <= b <= 57
}

/// The decimal digits of a natural number, the highest first.
pub open spec fn digits_of(n: nat) -> Seq<u8>
    decreases n,
{
    if n < 10 {
        seq![digit(n as int)]
    } else {
        digits_of(n / 10).push(digit((n % 10) as int))
    }
}

/// A number as decimal text, with a minus sign where it is negative.
pub open spec fn decimal_of(v: int) -> Seq<u8> {
    if v < 0 {
        seq![45u8] + digits_of((-v) as nat)
    } else {
        digits_of(v as nat)
    }
}

/// The number that grows out of `acc` by the digits at the front of `s`,
/// wrapping round at the bounds of `Value`.
pub open spec fn fold_digits(s: Seq<u8>, acc: Value) -> Value
    decreases s.len(),
{
    if s.len() > 0 && is_digit(s[0]) {
        fold_digits(s.skip(1), acc.wrapping_mul(10).wrapping_add((s[0] - 48) as Value))
    } else {
        acc
    }
}

/// The number that the digits at the front of `s` spell; `None` where `s`
/// starts with no digit.
pub open spec fn leading_number(s: Seq<u8>) -> Option<Value> {
    if s.len() > 0 && is_digit(s[0]) {
        Some(fold_digits(s, 0))
    } else {
        None
    }
}

/// Appends `v` as decimal text.
pub fn push_decimal(out: &mut Vec<u8>, v: i128)
    requires
        v > i128::MIN,
    ensures
        final(out)@ == old(out)@ + decimal_of(v as int),
{
    let mut n: i128 = v;
    if v < 0 {
        out.push(45);
        n = -v;
    }
    let ghost base = out@;
    let ghost whole = n as nat;
    let mut rev: Vec<u8> = Vec::new();
    loop
        invariant_except_break
            n > 0 || rev@.len() == 0,
            digits_of(whole) =~= digits_of(n as nat) + Seq::new(
                rev@.len(),
                |j: int| rev@[rev@.len() - 1 - j],
            ),
        invariant
            0 <= n,
            out@ == base,
        ensures
            rev@.len() > 0,
            digits_of(whole) =~= Seq::new(rev@.len(), |j: int| rev@[rev@.len() - 1 - j]),
        decreases n,
    {
        let ghost before = rev@;
        let d = (n % 10) as u8;
        rev.push(48 + d);
        proof {
            let after = rev@;
            let turned = Seq::new(after.len(), |j: int| after[after.len() - 1 - j]);
            let was = Seq::new(before.len(), |j: int| before[before.len() - 1 - j]);
            assert(turned =~= seq![digit((n % 10) as int)] + was);
            if n >= 10 {
                assert(digits_of(n as nat) =~= digits_of((n / 10) as nat).push(digit((n % 10) as int)));
                assert(digits_of((n / 10) as nat).push(digit((n % 10) as int)) + was =~= digits_of(
                    (n / 10) as nat,
                ) + turned);
            } else {
                assert(digits_of(n as nat) =~= seq![digit(n as int)]);
            }
        }
        n = n / 10;
        if n == 0 {
            break;
        }
    }
    let mut i = rev.len();
    while i > 0
        invariant
            0 <= i <= rev@.len(),
            out@ =~= base + Seq::new(rev@.len(), |j: int| rev@[rev@.len() - 1 - j]).take(
                rev@.len() - i,
            ),
        decreases i,
    {
        i = i - 1;
        out.push(rev[i]);
    }
    proof {
        let turned = Seq::new(rev@.len(), |j: int| rev@[rev@.len() - 1 - j]);
        assert(turned.take(rev@.len() as int) =~= turned);
    }
}

/// A number as decimal text.
pub fn decimal(v: i128) -> (r: Vec<u8>)
    requires
        v > i128::MIN,
    ensures
        r@ == decimal_of(v as int),
{
    let mut out = Vec::new();
    push_decimal(&mut out, v);
    assert(out@ =~= decimal_of(v as int));
    out
}

/// The number at the front of a line of input.
pub fn parse_number_input(src: &[u8]) -> (r: Option<Value>)
    ensures
        r == leading_number(src@),
{
    if src.len() == 0 || !(src[0] >= 48 && src[0] <= 57) {
        return None;
    }
    let mut acc: Value = 0;
    let mut i: usize = 0;
    assert(src@.skip(0) =~= src@);
    while i < src.len() && src[i] >= 48 && src[i] <= 57
        invariant
            0 <= i <= src@.len(),
            fold_digits(src@, 0) == fold_digits(src@.skip(i as int), acc),
        decreases src@.len() - i,
    {
        proof {
            assert(src@.skip(i as int)[0] == src@[i as int]);
            assert(src@.skip(i as int).skip(1) =~= src@.skip(i + 1));
        }
        acc = acc.wrapping_mul(10).wrapping_add((src[i] - 48) as Value);
        i = i + 1;
    }
    proof {
        if i < src@.len() {
            assert(src@.skip(i as int)[0] == src@[i as int]);
        }
    }
    Some(acc)
}

/// The number that grows out of `acc` by the digits `s`, each added (or
/// taken away, for a negative number) after a multiplication by ten; the
/// first byte that is no digit, or that takes the number out of the range
/// from `low` to `high`, decides the error.
pub open spec fn scan(s: Seq<u8>, acc: int, negative: bool, low: int, high: int) -> Result<
    int,
    NumberError,
>
    decreases s.len(),
{
    if s.len() == 0 {
        Ok(acc)
    } else if !is_digit(s[0]) {
        Err(NumberError::InvalidDigit)
    } else {
        let next = if negative {
            acc * 10 - (s[0] - 48)
        } else {
            acc * 10 + (s[0] - 48)
        };
        if next > high {
            Err(NumberError::PosOverflow)
        } else if next < low {
            Err(NumberError::NegOverflow)
        } else {
            scan(s.skip(1), next, negative, low, high)
        }
    }
}

/// The number from `low` to `high` that the text spells: digits after an
/// optional sign, of which the minus sign is one only where `low` is
/// negative.
pub open spec fn integer(s: Seq<u8>, low: int, high: int) -> Result<int, NumberError> {
    if s.len() == 0 {
        Err(NumberError::Empty)
    } else {
        let negative = s[0] == 45 && low < 0;
        let digits = if s[0] == 43 || negative {
            s.skip(1)
        } else {
            s
        };
        if digits.len() == 0 {
            Err(NumberError::InvalidDigit)
        } else {
            scan(digits, 0, negative, low, high)
        }
    }
}

/// The number from `low` to `high` that the text spells.
pub fn parse_integer(s: &[u8], low: i128, high: i128) -> (r: Result<i128, NumberError>)
    requires
        -0x1_0000_0000_0000_0000 <= low <= 0 <= high <= 0x1_0000_0000_0000_0000,
    ensures
        match r {
            Ok(v) => integer(s@, low as int, high as int) == Ok::<int, NumberError>(v as int)
                && low <= v <= high,
            Err(e) => integer(s@, low as int, high as int) == Err::<int, NumberError>(e),
        },
{
    let len = s.len();
    if len == 0 {
        return Err(NumberError::Empty);
    }
    let negative = s[0] == 45 && low < 0;
    let signed = s[0] == 43 || negative;
    let first: usize = if signed {
        1
    } else {
        0
    };
    if first == len {
        return Err(NumberError::InvalidDigit);
    }
    let mut i: usize = first;
    let mut acc: i128 = 0;
    let ghost digits = s@.skip(first as int);
    proof {
        assert(s@.skip(0) =~= s@);
        assert(digits.skip(0) =~= digits);
    }
    while i < len
        invariant
            first <= i <= len,
            len == s@.len(),
            digits == s@.skip(first as int),
            -0x1_0000_0000_0000_0000 <= low <= 0 <= high <= 0x1_0000_0000_0000_0000,
            low <= acc <= high,
            integer(s@, low as int, high as int) == scan(
                digits.skip(i - first),
                acc as int,
                negative,
                low as int,
                high as int,
            ),
        decreases len - i,
    {
        let b = s[i];
        proof {
            assert(digits.skip(i - first)[0] == s@[i as int]);
            assert(digits.skip(i - first).skip(1) =~= digits.skip(i - first + 1));
        }
        if !(b >= 48 && b <= 57) {
            return Err(NumberError::InvalidDigit);
        }
        let d = (b - 48) as i128;
        let next = if negative {
            acc * 10 - d
        } else {
            acc * 10 + d
        };
        if next > high {
            return Err(NumberError::PosOverflow);
        }
        if next < low {
            return Err(NumberError::NegOverflow);
        }
        acc = next;
        i = i + 1;
    }
    Ok(acc)
}

/// The number of decimal digits of `n`.
pub fn count_digits(n: usize) -> (r: usize)
    ensures
        r == digits_of(n as nat).len(),
        1 <= r <= 20,
{
    let mut left = n;
    let mut count: usize = 1;
    proof {
        assert(left * pow10(0) == n) by (nonlinear_arith)
            requires
                left == n,
                pow10(0) == 1,
        ;
    }
    while left >= 10
        invariant
            1 <= count <= 20,
            digits_of(n as nat).len() == digits_of(left as nat).len() + count - 1,
            left * pow10((count - 1) as nat) <= n,
        decreases left,
    {
        proof {
            let pow = pow10((count - 1) as nat);
            lemma_pow10((count - 1) as nat);
            lemma_pow10_large((count - 1) as nat);
            assert(left * pow >= 10 * pow) by (nonlinear_arith)
                requires
                    left >= 10,
                    pow > 0,
            ;
            assert((left / 10) * (10 * pow) <= left * pow) by (nonlinear_arith)
                requires
                    pow > 0,
                    left >= 0,
            ;
        }
        left = left / 10;
        count = count + 1;
    }
    count
}

/// Ten to the power of `e`.
pub open spec fn pow10(e: nat) -> nat
    decreases e,
{
    if e == 0 {
        1
    } else {
        10 * pow10((e - 1) as nat)
    }
}

/// A power of ten is positive, and ten times the power before it.
pub proof fn lemma_pow10(e: nat)
    ensures
        pow10(e) > 0,
        pow10(e + 1) == 10 * pow10(e),
    decreases e,
{
    if e > 0 {
        lemma_pow10((e - 1) as nat);
    }
}

/// From the power of 19 on, a power of ten is a number of twenty digits or
/// more.
pub proof fn lemma_pow10_large(e: nat)
    ensures
        e >= 19 ==> pow10(e) >= 10000000000000000000,
    decreases e,
{
    if e > 19 {
        lemma_pow10_large((e - 1) as nat);
    } else if e == 19 {
        reveal_with_fuel(pow10, 20);
    }
}

} // verus!
