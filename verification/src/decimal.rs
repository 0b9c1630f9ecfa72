//! Numbers as decimal digits, and back.

use vstd::prelude::*;

verus! {

/// The byte is one of the ten decimal digits.
pub open spec fn is_digit(b: u8) -> bool {
    48 <= b <= 57
}

/// Every byte of `s` is a decimal digit.
pub open spec fn all_digits(s: Seq<u8>) -> bool {
    forall|i: int| 0 <= i < s.len() ==> is_digit(#[trigger] s[i])
}

/// The number that a sequence of decimal digits denotes; leading zeros
/// count for nothing, and no digits at all denote 0.
pub open spec fn digits_value(s: Seq<u8>) -> nat
    decreases s.len(),
{
    if s.len() == 0 {
        0
    } else {
        digits_value(s.drop_last()) * 10 + (s.last() - 48) as nat
    }
}

/// The decimal digits of a number, without leading zeros.
pub open spec fn decimal(v: nat) -> Seq<u8>
    decreases v,
{
    if v < 10 {
        seq![(48 + v) as u8]
    } else {
        decimal(v / 10).push((48 + v % 10) as u8)
    }
}

/// The number that `s` denotes, where `s` is at least one byte, every
/// byte of it is a digit, and the number is of machine size.
pub open spec fn machine_digits(s: Seq<u8>) -> Option<nat> {
    if s.len() > 0 && all_digits(s) && digits_value(s) <= usize::MAX {
        Some(digits_value(s))
    } else {
        None
    }
}

/// The count that a token denotes: digits, which a plus sign may precede.
pub open spec fn unsigned_value(token: Seq<u8>) -> Option<nat> {
    if token.len() > 0 && token[0] == 43 {
        machine_digits(token.subrange(1, token.len() as int))
    } else {
        machine_digits(token)
    }
}

/// The integer that a token denotes: digits, which a plus or a minus sign
/// may precede.
pub open spec fn signed_value(token: Seq<u8>) -> Option<int> {
    if token.len() > 0 && token[0] == 45 {
        match machine_digits(token.subrange(1, token.len() as int)) {
            Some(v) => Some(-(v as int)),
            None => None,
        }
    } else {
        match unsigned_value(token) {
            Some(v) => Some(v as int),
            None => None,
        }
    }
}

/// The token that is written for an integer: its digits, behind a minus
/// sign where it is negative.
pub open spec fn token_of(v: int) -> Seq<u8> {
    if v < 0 {
        seq![45u8] + decimal((-v) as nat)
    } else {
        decimal(v as nat)
    }
}

/// The digits written for a number denote it.
pub proof fn lemma_decimal_value(v: nat)
    ensures
        decimal(v).len() >= 1,
        all_digits(decimal(v)),
        digits_value(decimal(v)) == v,
    decreases v,
{
    if v < 10 {
        let s = decimal(v);
        assert(s.drop_last() =~= Seq::<u8>::empty());
        assert(digits_value(s.drop_last()) == 0);
    } else {
        lemma_decimal_value(v / 10);
        let s = decimal(v);
        assert(s.drop_last() =~= decimal(v / 10));
    }
}

/// A token written for an integer of machine size is read back as that
/// integer.
pub proof fn lemma_token_round_trip(v: int)
    requires
        -(usize::MAX as int) <= v <= usize::MAX,
    ensures
        signed_value(token_of(v)) == Some(v),
        v >= 0 ==> unsigned_value(token_of(v)) == Some(v as nat),
{
    if v < 0 {
        let d = decimal((-v) as nat);
        lemma_decimal_value((-v) as nat);
        let t = token_of(v);
        assert(t.subrange(1, t.len() as int) =~= d);
    } else {
        lemma_decimal_value(v as nat);
        let t = token_of(v);
        assert(is_digit(t[0]));
    }
}

/// More digits never denote less.
pub proof fn lemma_digits_value_grows(s: Seq<u8>, k: int)
    requires
        0 <= k <= s.len(),
        all_digits(s),
    ensures
        digits_value(s.subrange(0, k)) <= digits_value(s),
    decreases s.len() - k,
{
    if k == s.len() {
        assert(s.subrange(0, k) =~= s);
    } else {
        let d = s.drop_last();
        assert(d.subrange(0, k) =~= s.subrange(0, k));
        assert forall|i: int| 0 <= i < d.len() implies is_digit(#[trigger] d[i]) by {
            assert(d[i] == s[i]);
        }
        lemma_digits_value_grows(d, k);
        assert(is_digit(s[s.len() - 1]));
    }
}

/// Appends the decimal digits of `v`.
pub fn push_decimal(out: &mut Vec<u8>, v: usize)
    ensures
        final(out)@ == old(out)@ + decimal(v as nat),
    decreases v,
{
    if v >= 10 {
        push_decimal(out, v / 10);
    }
    let digit: u8 = 48 + (v % 10) as u8;
    out.push(digit);
    assert(out@ =~= old(out)@ + decimal(v as nat));
}

/// The number that the bytes of `digits` from `start` on denote, if they
/// are digits of a number of machine size.
pub fn parse_digits(digits: &[u8], start: usize) -> (value: Option<usize>)
    requires
        start <= digits.len(),
    ensures
        match value {
            Some(v) => machine_digits(digits@.subrange(start as int, digits.len() as int)) == Some(
                v as nat,
            ),
            None => machine_digits(digits@.subrange(start as int, digits.len() as int)).is_none(),
        },
{
    let ghost s = digits@.subrange(start as int, digits.len() as int);
    if start == digits.len() {
        return None;
    }
    let mut value: usize = 0;
    let mut i: usize = start;
    assert(s.subrange(0, 0) =~= Seq::<u8>::empty());
    while i < digits.len()
        invariant
            start <= i <= digits.len(),
            s == digits@.subrange(start as int, digits.len() as int),
            all_digits(s.subrange(0, i - start)),
            value == digits_value(s.subrange(0, i - start)),
        decreases digits.len() - i,
    {
        let b = digits[i];
        let ghost next = s.subrange(0, i - start + 1);
        assert(next.drop_last() =~= s.subrange(0, i - start));
        assert(next.last() == b);
        if b < 48 || b > 57 {
            assert(!is_digit(s[i - start]));
            return None;
        }
        let d: usize = (b - 48) as usize;
        if value > (usize::MAX - d) / 10 {
            proof {
                if all_digits(s) {
                    lemma_digits_value_grows(s, i - start + 1);
                }
            }
            return None;
        }
        value = value * 10 + d;
        i = i + 1;
        assert forall|j: int| 0 <= j < next.len() implies is_digit(#[trigger] next[j]) by {
            if j < next.len() - 1 {
                assert(next[j] == s.subrange(0, i - start - 1)[j]);
            }
        }
    }
    assert(s.subrange(0, i - start) =~= s);
    Some(value)
}

/// Reads a count: digits, which a plus sign may precede.
pub fn parse_unsigned(token: &[u8]) -> (value: Option<usize>)
    ensures
        match value {
            Some(v) => unsigned_value(token@) == Some(v as nat),
            None => unsigned_value(token@).is_none(),
        },
{
    if token.len() > 0 && token[0] == 43 {
        parse_digits(token, 1)
    } else {
        assert(token@.subrange(0, token.len() as int) =~= token@);
        parse_digits(token, 0)
    }
}

/// The integer with magnitude `magnitude`, negative where `negative` is set.
pub open spec fn signed(negative: bool, magnitude: usize) -> int {
    if negative {
        -(magnitude as int)
    } else {
        magnitude as int
    }
}

/// Reads an integer: digits, which a plus or a minus sign may precede.
/// The result is the sign, set for a minus, and the magnitude.
pub fn parse_signed(token: &[u8]) -> (value: Option<(bool, usize)>)
    ensures
        match value {
            Some((negative, magnitude)) => signed_value(token@) == Some(
                signed(negative, magnitude),
            ) && negative == (token@.len() > 0 && token@[0] == 45),
            None => signed_value(token@).is_none(),
        },
{
    if token.len() > 0 && token[0] == 45 {
        match parse_digits(token, 1) {
            Some(magnitude) => Some((true, magnitude)),
            None => None,
        }
    } else {
        match parse_unsigned(token) {
            Some(magnitude) => Some((false, magnitude)),
            None => None,
        }
    }
}

} // verus!
