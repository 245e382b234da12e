//! Decimal text codec for counter values and window-bucket numbers.
//!
//! Counts live in the shared store as decimal ASCII text. The spec model is
//! `digits_value` (the number denoted by a digit string) and `canon` (the
//! canonical, leading-zero-free rendering of a number).

use vstd::prelude::*;

verus! {

/// A decimal digit byte: `'0'` through `'9'`.
pub open spec fn is_digit(b: u8) -> bool {
    48 <= b && b <= 57
}

/// The numeric value of a digit byte.
pub open spec fn digit_val(b: u8) -> nat {
    (b - 48) as nat
}

/// Every byte of `s` is a decimal digit.
pub open spec fn all_digits(s: Seq<u8>) -> bool {
    forall|i: int| 0 <= i < s.len() ==> is_digit(#[trigger] s[i])
}

/// The number denoted by a digit string, most significant digit first.
pub open spec fn digits_value(s: Seq<u8>) -> nat
    decreases s.len(),
{
    if s.len() == 0 {
        0
    } else {
        digits_value(s.drop_last()) * 10 + digit_val(s.last())
    }
}

/// What decoding a stored counter yields: `Some` exactly for non-empty
/// all-digit text whose value fits in a `u32`.
pub open spec fn decoded_u32(s: Seq<u8>) -> Option<u32> {
    if s.len() > 0 && all_digits(s) && digits_value(s) <= u32::MAX {
        Some(digits_value(s) as u32)
    } else {
        None
    }
}

/// As `decoded_u32`, for 64-bit values.
pub open spec fn decoded_u64(s: Seq<u8>) -> Option<u64> {
    if s.len() > 0 && all_digits(s) && digits_value(s) <= u64::MAX {
        Some(digits_value(s) as u64)
    } else {
        None
    }
}

/// The canonical decimal rendering of `n`: non-empty, digits only, and no
/// leading zero except for `n == 0` itself.
pub open spec fn canon(n: nat) -> Seq<u8>
    decreases n,
{
    if n < 10 {
        seq![(n + (48nat)) as u8]
    } else {
        canon(n / 10).push(((n % 10) + (48nat)) as u8)
    }
}

/// The canonical rendering is a well-formed digit string denoting `n`,
/// with no leading zero.
pub proof fn lemma_canon_props(n: nat)
    ensures
        canon(n).len() >= 1,
        all_digits(canon(n)),
        digits_value(canon(n)) == n,
        n > 0 ==> canon(n)[0] != 48,
        n == 0 ==> canon(n) =~= seq![48],
    decreases n,
{
    if n < 10 {
        let c = canon(n);
        assert(c =~= seq![(n + (48nat)) as u8]);
        assert(c.drop_last() =~= Seq::<u8>::empty());
        assert(digits_value(Seq::<u8>::empty()) == 0);
        assert(digits_value(c) == digits_value(c.drop_last()) * 10 + digit_val(c.last()));
    } else {
        lemma_canon_props(n / 10);
        let c = canon(n / 10);
        let d = ((n % 10) + (48nat)) as u8;
        assert(canon(n) == c.push(d));
        assert(c.push(d).drop_last() =~= c);
        assert(c.push(d).last() == d);
        assert(digits_value(canon(n)) == digits_value(c) * 10 + digit_val(d));
        assert(digits_value(canon(n)) == (n / 10) * 10 + n % 10);
        assert((n / 10) * 10 + n % 10 == n) by (nonlinear_arith);
        assert forall|i: int| 0 <= i < c.push(d).len() implies is_digit(#[trigger] c.push(d)[i]) by {
            if i < c.len() {
                assert(c.push(d)[i] == c[i]);
            }
        }
        assert(canon(n)[0] == c[0]);
    }
}

/// Distinct numbers have distinct canonical renderings.
pub proof fn lemma_canon_injective(a: nat, b: nat)
    requires
        canon(a) == canon(b),
    ensures
        a == b,
{
    lemma_canon_props(a);
    lemma_canon_props(b);
}

/// A digit-string prefix never denotes more than the whole string.
pub proof fn lemma_digits_value_prefix(s: Seq<u8>, i: int)
    requires
        0 <= i <= s.len(),
    ensures
        digits_value(s.take(i)) <= digits_value(s),
    decreases s.len() - i,
{
    if i < s.len() {
        assert(s.take(i + 1).drop_last() =~= s.take(i));
        assert(s.take(i + 1).last() == s[i]);
        assert(digits_value(s.take(i + 1)) == digits_value(s.take(i)) * 10 + digit_val(s[i]));
        lemma_digits_value_prefix(s, i + 1);
    } else {
        assert(s.take(i) =~= s);
    }
}

/// Parses decimal text into a `u32`: `None` on empty input, on any non-digit
/// byte, and on values above `u32::MAX`.
pub fn decode_u32(s: &[u8]) -> (r: Option<u32>)
    ensures
        r == decoded_u32(s@),
{
    if s.len() == 0 {
        return None;
    }
    let mut acc: u32 = 0;
    let mut i: usize = 0;
    while i < s.len()
        invariant
            0 <= i <= s@.len(),
            all_digits(s@.take(i as int)),
            acc == digits_value(s@.take(i as int)),
        decreases s@.len() - i,
    {
        let b = s[i];
        if b < 48 || b > 57 {
            proof {
                assert(!is_digit(s@[i as int]));
            }
            return None;
        }
        let d: u32 = (b - 48) as u32;
        proof {
            assert(s@.take(i as int + 1).drop_last() =~= s@.take(i as int));
            assert(s@.take(i as int + 1).last() == s@[i as int]);
        }
        if acc > (u32::MAX - d) / 10 {
            proof {
                assert(acc * 10 + d > u32::MAX) by (nonlinear_arith)
                    requires
                        acc > (u32::MAX - d) / 10,
                        d <= 9,
                ;
                assert(digits_value(s@.take(i as int + 1)) == acc * 10 + d);
                lemma_digits_value_prefix(s@, i as int + 1);
            }
            return None;
        }
        proof {
            assert(acc * 10 + d <= u32::MAX) by (nonlinear_arith)
                requires
                    acc <= (u32::MAX - d) / 10,
                    d <= 9,
            ;
        }
        acc = acc * 10 + d;
        i = i + 1;
    }
    proof {
        assert(s@.take(i as int) =~= s@);
    }
    Some(acc)
}

/// Parses decimal text into a `u64`: `None` on empty input, on any non-digit
/// byte, and on values above `u64::MAX`.
pub fn decode_u64(s: &[u8]) -> (r: Option<u64>)
    ensures
        r == decoded_u64(s@),
{
    if s.len() == 0 {
        return None;
    }
    let mut acc: u64 = 0;
    let mut i: usize = 0;
    while i < s.len()
        invariant
            0 <= i <= s@.len(),
            all_digits(s@.take(i as int)),
            acc == digits_value(s@.take(i as int)),
        decreases s@.len() - i,
    {
        let b = s[i];
        if b < 48 || b > 57 {
            proof {
                assert(!is_digit(s@[i as int]));
            }
            return None;
        }
        let d: u64 = (b - 48) as u64;
        proof {
            assert(s@.take(i as int + 1).drop_last() =~= s@.take(i as int));
            assert(s@.take(i as int + 1).last() == s@[i as int]);
        }
        if acc > (u64::MAX - d) / 10 {
            proof {
                assert(acc * 10 + d > u64::MAX) by (nonlinear_arith)
                    requires
                        acc > (u64::MAX - d) / 10,
                        d <= 9,
                ;
                assert(digits_value(s@.take(i as int + 1)) == acc * 10 + d);
                lemma_digits_value_prefix(s@, i as int + 1);
            }
            return None;
        }
        proof {
            assert(acc * 10 + d <= u64::MAX) by (nonlinear_arith)
                requires
                    acc <= (u64::MAX - d) / 10,
                    d <= 9,
            ;
        }
        acc = acc * 10 + d;
        i = i + 1;
    }
    proof {
        assert(s@.take(i as int) =~= s@);
    }
    Some(acc)
}

/// Renders `n` as canonical decimal text.
pub fn encode_u32(n: u32) -> (v: Vec<u8>)
    ensures
        v@ == canon(n as nat),
    decreases n,
{
    let d: u8 = (n % 10) as u8 + 48;
    if n < 10 {
        let mut v: Vec<u8> = Vec::new();
        v.push(d);
        proof {
            assert(v@ =~= canon(n as nat));
        }
        v
    } else {
        let mut v = encode_u32(n / 10);
        v.push(d);
        proof {
            assert(v@ =~= canon(n as nat));
        }
        v
    }
}

/// Renders `n` as canonical decimal text.
pub fn encode_u64(n: u64) -> (v: Vec<u8>)
    ensures
        v@ == canon(n as nat),
    decreases n,
{
    let d: u8 = (n % 10) as u8 + 48;
    if n < 10 {
        let mut v: Vec<u8> = Vec::new();
        v.push(d);
        proof {
            assert(v@ =~= canon(n as nat));
        }
        v
    } else {
        let mut v = encode_u64(n / 10);
        v.push(d);
        proof {
            assert(v@ =~= canon(n as nat));
        }
        v
    }
}

/// Law: decoding the canonical decimal text of a count returns the count.
pub proof fn lemma_round_trip_u32(n: u32)
    ensures
        decoded_u32(canon(n as nat)) == Some(n),
{
    lemma_canon_props(n as nat);
}

/// Law: decoding the canonical decimal text of a bucket number returns it.
pub proof fn lemma_round_trip_u64(n: u64)
    ensures
        decoded_u64(canon(n as nat)) == Some(n),
{
    lemma_canon_props(n as nat);
}

} // verus!
