//! Decimal numerals as ASCII bytes: writing a number out and reading one back.

use vstd::prelude::*;

verus! {

/// The digit `0`.
pub const ZERO: u8 = 48;

/// The digit `9`.
pub const NINE: u8 = 57;

/// Whether `byte` is one of the ASCII digits `0` to `9`.
pub open spec fn is_digit(byte: u8) -> bool {
    ZERO <= byte <= NINE
}

/// Whether every byte of `s` is an ASCII digit.
pub open spec fn all_digits(s: Seq<u8>) -> bool {
    forall|i: int| 0 <= i < s.len() ==> is_digit(#[trigger] s[i])
}

/// The ASCII digit for a number below ten.
pub open spec fn digit_byte(d: nat) -> u8 {
    (ZERO + d) as u8
}

/// The shortest decimal numeral of `n`: no leading zero, and `0` for zero.
pub open spec fn decimal(n: nat) -> Seq<u8>
    decreases n,
{
    if n < 10 {
        seq![digit_byte(n)]
    } else {
        decimal(n / 10).push(digit_byte(n % 10))
    }
}

/// The number that a digit string denotes, read as base ten.
pub open spec fn decimal_value(s: Seq<u8>) -> nat
    decreases s.len(),
{
    if s.len() == 0 {
        0
    } else {
        (decimal_value(s.drop_last()) * 10 + (s.last() - ZERO)) as nat
    }
}

/// A digit string that no shorter one denotes the same number as: it is not
/// empty, and starts with `0` only when it is `0` itself.
pub open spec fn is_canonical_decimal(s: Seq<u8>) -> bool {
    s.len() > 0 && all_digits(s) && (s.len() > 1 ==> s[0] != ZERO)
}

/// The numeral of a number is a canonical digit string.
pub proof fn lemma_decimal_is_canonical(n: nat)
    ensures
        is_canonical_decimal(decimal(n)),
        n > 0 ==> decimal(n)[0] != ZERO,
    decreases n,
{
    if n >= 10 {
        lemma_decimal_is_canonical(n / 10);
    }
}

/// A numeral has at least one digit and, roughly, no more digits than its number says.
pub proof fn lemma_decimal_len(n: nat)
    ensures
        1 <= decimal(n).len() <= n + 1,
    decreases n,
{
    if n >= 10 {
        lemma_decimal_len(n / 10);
    }
}

/// Reading the numeral of a number gives the number back.
pub proof fn lemma_decimal_value_of_decimal(n: nat)
    ensures
        decimal_value(decimal(n)) == n,
    decreases n,
{
    if n < 10 {
        assert(decimal(n).drop_last() =~= Seq::<u8>::empty());
        assert(decimal_value(decimal(n).drop_last()) == 0);
    } else {
        lemma_decimal_value_of_decimal(n / 10);
        assert(decimal(n).drop_last() =~= decimal(n / 10));
    }
}

/// Writing out the number that a canonical digit string denotes gives that string back.
pub proof fn lemma_decimal_of_decimal_value(s: Seq<u8>)
    requires
        is_canonical_decimal(s),
    ensures
        decimal(decimal_value(s)) == s,
        s[0] != ZERO ==> decimal_value(s) > 0,
    decreases s.len(),
{
    if s.len() == 1 {
        assert(s.drop_last() =~= Seq::<u8>::empty());
        assert(decimal_value(s.drop_last()) == 0);
        assert(decimal(decimal_value(s)) =~= s);
    } else {
        let front = s.drop_last();
        assert(front[0] == s[0]);
        lemma_decimal_of_decimal_value(front);
        assert(decimal_value(front) > 0);
        assert(decimal(decimal_value(s)) =~= s);
    }
}

/// A digit string denotes at least what any of its prefixes denotes.
pub proof fn lemma_decimal_value_prefix(s: Seq<u8>, k: int)
    requires
        all_digits(s),
        0 <= k <= s.len(),
    ensures
        decimal_value(s.take(k)) <= decimal_value(s),
    decreases s.len(),
{
    if k == s.len() {
        assert(s.take(k) =~= s);
    } else {
        lemma_decimal_value_prefix(s.drop_last(), k);
        assert(s.drop_last().take(k) =~= s.take(k));
    }
}

/// Writes `n` as its decimal numeral.
pub fn format_decimal(n: u128) -> (digits: Vec<u8>)
    ensures
        digits@ == decimal(n as nat),
{
    let mut low: Vec<u8> = Vec::new();
    let mut rest: u128 = n;
    while rest >= 10
        invariant
            decimal(n as nat) == decimal(rest as nat) + low@.reverse(),
        decreases rest,
    {
        let digit: u8 = ZERO + (rest % 10) as u8;
        proof {
            assert(digit == digit_byte((rest % 10) as nat));
            assert(low@.push(digit).reverse() =~= seq![digit] + low@.reverse());
            assert(decimal(rest as nat) + low@.reverse() =~= decimal((rest / 10) as nat) + (
            seq![digit] + low@.reverse()));
        }
        low.push(digit);
        rest = rest / 10;
    }
    let mut digits: Vec<u8> = Vec::new();
    digits.push(ZERO + rest as u8);
    let mut i: usize = low.len();
    while i > 0
        invariant
            i <= low@.len(),
            digits@ == decimal(rest as nat) + low@.reverse().take(low@.len() - i),
        decreases i,
    {
        i -= 1;
        digits.push(low[i]);
        assert(digits@ =~= decimal(rest as nat) + low@.reverse().take(low@.len() - i));
    }
    assert(low@.reverse().take(low@.len() as int) =~= low@.reverse());
    digits
}

/// Reads a decimal numeral of one or more digits that denotes at most `limit`.
pub fn parse_decimal(text: &[u8], limit: u128) -> (value: Option<u128>)
    ensures
        value matches Some(v) ==> v == decimal_value(text@),
        value is Some <==> text@.len() > 0 && all_digits(text@) && decimal_value(text@) <= limit,
{
    if text.len() == 0 {
        return None;
    }
    let mut acc: u128 = 0;
    let mut i: usize = 0;
    while i < text.len()
        invariant
            i <= text@.len(),
            all_digits(text@.take(i as int)),
            acc == decimal_value(text@.take(i as int)),
            acc <= limit,
        decreases text@.len() - i,
    {
        let byte: u8 = text[i];
        if byte < ZERO || byte > NINE {
            assert(!is_digit(text@[i as int]));
            return None;
        }
        let digit: u128 = (byte - ZERO) as u128;
        proof {
            assert(text@.take(i + 1).drop_last() =~= text@.take(i as int));
            assert(text@.take(i + 1).last() == byte);
            assert(decimal_value(text@.take(i + 1)) == acc * 10 + digit);
        }
        if digit > limit || acc > (limit - digit) / 10 {
            proof {
                if all_digits(text@) {
                    lemma_decimal_value_prefix(text@, i + 1);
                }
            }
            return None;
        }
        acc = acc * 10 + digit;
        i += 1;
        assert forall|j: int| 0 <= j < text@.take(i as int).len() implies is_digit(
            #[trigger] text@.take(i as int)[j],
        ) by {
            if j < i - 1 {
                assert(text@.take(i - 1)[j] == text@.take(i as int)[j]);
            }
        }
    }
    assert(text@.take(text@.len() as int) =~= text@);
    Some(acc)
}

} // verus!
