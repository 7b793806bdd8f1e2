//! Decimal text for unsigned integers: the digit strings that the history
//! serialization writes and reads.

use vstd::prelude::*;

verus! {

/// Is `b` the ASCII code of a decimal digit?
pub open spec fn is_digit(b: u8) -> bool {
    48 <= b <= 57
}

/// Every byte of `s` is a decimal digit.
pub open spec fn all_digits(s: Seq<u8>) -> bool {
    forall|i: int| 0 <= i < s.len() ==> is_digit(s[i])
}

/// The number that the digit string `s` denotes, most significant digit first.
pub open spec fn digits_val(s: Seq<u8>) -> nat
    decreases s.len(),
{
    if s.len() == 0 {
        0
    } else {
        (digits_val(s.drop_last()) * 10 + (s.last() - 48)) as nat
    }
}

/// The canonical decimal digits of `n`: no sign, no leading zeros.
pub open spec fn dec_of(n: nat) -> Seq<u8>
    decreases n,
{
    if n < 10 {
        seq![(n + 48) as u8]
    } else {
        dec_of(n / 10).push((n % 10 + 48) as u8)
    }
}

/// What parsing a digit string as a `u32` yields: the denoted value, when the
/// string is non-empty, all digits, and the value fits.
pub open spec fn parse_u32_spec(s: Seq<u8>) -> Option<u32> {
    if s.len() > 0 && all_digits(s) && digits_val(s) <= u32::MAX {
        Some(digits_val(s) as u32)
    } else {
        None
    }
}

/// What parsing a digit string as a `u128` yields.
pub open spec fn parse_u128_spec(s: Seq<u8>) -> Option<u128> {
    if s.len() > 0 && all_digits(s) && digits_val(s) <= u128::MAX {
        Some(digits_val(s) as u128)
    } else {
        None
    }
}

/// The canonical digits of `n` are all digits and there is at least one.
pub proof fn lemma_dec_of_digits(n: nat)
    ensures
        dec_of(n).len() >= 1,
        all_digits(dec_of(n)),
    decreases n,
{
    if n >= 10 {
        lemma_dec_of_digits(n / 10);
        assert forall|i: int| 0 <= i < dec_of(n).len() implies is_digit(dec_of(n)[i]) by {
            if i < dec_of(n / 10).len() {
                assert(dec_of(n)[i] == dec_of(n / 10)[i]);
            }
        }
    }
}

/// Printing then reading a number gives the number back.
pub proof fn lemma_dec_of_val(n: nat)
    ensures
        digits_val(dec_of(n)) == n,
    decreases n,
{
    if n < 10 {
        let s = dec_of(n);
        assert(s == seq![(n + 48) as u8]);
        assert(s.drop_last() =~= Seq::<u8>::empty());
        assert(digits_val(s.drop_last()) == 0);
        assert(digits_val(s) == (digits_val(s.drop_last()) * 10 + (s.last() - 48)) as nat);
        assert(s.last() == (n + 48) as u8);
    } else {
        lemma_dec_of_val(n / 10);
        assert(dec_of(n).drop_last() =~= dec_of(n / 10));
        assert(dec_of(n).last() == (n % 10 + 48) as u8);
        assert(digits_val(dec_of(n)) == ((n / 10) * 10 + ((n % 10 + 48) as u8 - 48)) as nat);
        assert((n / 10) * 10 + n % 10 == n);
    }
}

/// A longer digit string never denotes a smaller number.
pub proof fn lemma_digits_val_prefix_le(s: Seq<u8>, i: int)
    requires
        0 <= i <= s.len(),
        all_digits(s),
    ensures
        digits_val(s.take(i)) <= digits_val(s),
    decreases s.len() - i,
{
    if i < s.len() {
        lemma_digits_val_prefix_le(s, i + 1);
        assert(s.take(i + 1).drop_last() =~= s.take(i));
        assert(digits_val(s.take(i + 1)) == digits_val(s.take(i)) * 10 + (s.take(i + 1).last() - 48));
    } else {
        assert(s.take(i) =~= s);
    }
}

/// The decimal digits of `n`, most significant first.
pub fn fmt_dec(n: u128) -> (r: Vec<u8>)
    ensures
        r@ == dec_of(n as nat),
    decreases n,
{
    if n < 10 {
        let mut v: Vec<u8> = Vec::new();
        v.push((n as u8) + 48);
        proof {
            assert(v@ =~= dec_of(n as nat));
        }
        v
    } else {
        let mut v = fmt_dec(n / 10);
        v.push(((n % 10) as u8) + 48);
        proof {
            assert(v@ =~= dec_of(n as nat));
        }
        v
    }
}

/// Parses the whole slice as a decimal `u128`: non-empty, all digits, in range.
pub fn parse_u128(s: &[u8]) -> (r: Option<u128>)
    ensures
        r == parse_u128_spec(s@),
{
    if s.len() == 0 {
        return None;
    }
    let mut acc: u128 = 0;
    let mut i: usize = 0;
    while i < s.len()
        invariant
            0 <= i <= s.len(),
            all_digits(s@.take(i as int)),
            acc == digits_val(s@.take(i as int)),
        decreases s.len() - i,
    {
        let b = s[i];
        if b < 48 || b > 57 {
            proof {
                assert(!is_digit(s@[i as int]));
                assert(!all_digits(s@));
            }
            return None;
        }
        let d = b - 48;
        if acc > (u128::MAX - d as u128) / 10 {
            proof {
                assert(s@.take(i as int + 1).drop_last() =~= s@.take(i as int));
                assert(digits_val(s@.take(i as int + 1)) == acc * 10 + d);
                assert(acc * 10 + d > u128::MAX) by (nonlinear_arith)
                    requires acc > (u128::MAX - d as u128) / 10, d < 10,
                ;
                if all_digits(s@) && digits_val(s@) <= u128::MAX {
                    lemma_digits_val_prefix_le(s@, i as int + 1);
                }
            }
            return None;
        }
        proof {
            assert(acc * 10 + d <= u128::MAX) by (nonlinear_arith)
                requires acc <= (u128::MAX - d as u128) / 10, d < 10,
            ;
            assert(s@.take(i as int + 1).drop_last() =~= s@.take(i as int));
        }
        acc = acc * 10 + d as u128;
        i = i + 1;
    }
    proof {
        assert(s@.take(i as int) =~= s@);
    }
    Some(acc)
}

/// A stored or entered configuration value: its parsed number, or `fallback`
/// where the text is not a decimal `u32` — a malformed value never stops the
/// game, it only falls back.
pub fn parse_or(s: &[u8], fallback: u32) -> (r: u32)
    ensures
        r == match parse_u32_spec(s@) {
            Some(v) => v,
            None => fallback,
        },
{
    match parse_u32(s) {
        Some(v) => v,
        None => fallback,
    }
}

/// Parses the whole slice as a decimal `u32`.
pub fn parse_u32(s: &[u8]) -> (r: Option<u32>)
    ensures
        r == parse_u32_spec(s@),
{
    match parse_u128(s) {
        None => None,
        Some(v) => {
            if v <= u32::MAX as u128 {
                Some(v as u32)
            } else {
                None
            }
        }
    }
}

} // verus!
