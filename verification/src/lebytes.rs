//! Little-endian byte strings for unsigned integers: the fixed-width binary
//! form in which a record is serialized.

use vstd::prelude::*;

verus! {

/// 256 raised to `n`.
pub open spec fn pow256(n: nat) -> nat
    decreases n,
{
    if n == 0 {
        1
    } else {
        256 * pow256((n - 1) as nat)
    }
}

/// The number that the byte string `s` denotes, least significant byte first.
pub open spec fn le_val(s: Seq<u8>) -> nat
    decreases s.len(),
{
    if s.len() == 0 {
        0
    } else {
        (s[0] + 256 * le_val(s.drop_first())) as nat
    }
}

/// The `len` low-order bytes of `n`, least significant first.
pub open spec fn le_bytes(n: nat, len: nat) -> Seq<u8>
    decreases len,
{
    if len == 0 {
        Seq::empty()
    } else {
        seq![(n % 256) as u8] + le_bytes(n / 256, (len - 1) as nat)
    }
}

pub proof fn lemma_le_bytes_len(n: nat, len: nat)
    ensures
        le_bytes(n, len).len() == len,
    decreases len,
{
    if len > 0 {
        lemma_le_bytes_len(n / 256, (len - 1) as nat);
    }
}

/// Reading back the bytes written for `n` gives `n`, when `n` fits in `len` bytes.
pub proof fn lemma_le_round_trip(n: nat, len: nat)
    requires
        n < pow256(len),
    ensures
        le_val(le_bytes(n, len)) == n,
    decreases len,
{
    if len == 0 {
    } else {
        let s = le_bytes(n, len);
        lemma_le_bytes_len(n / 256, (len - 1) as nat);
        assert(s.drop_first() =~= le_bytes(n / 256, (len - 1) as nat));
        assert(n / 256 < pow256((len - 1) as nat)) by (nonlinear_arith)
            requires n < pow256(len), pow256(len) == 256 * pow256((len - 1) as nat),
        ;
        lemma_le_round_trip(n / 256, (len - 1) as nat);
        assert(s[0] == (n % 256) as u8);
        assert(n % 256 + 256 * (n / 256) == n);
    }
}

/// A `len`-byte string denotes a value below 256^len.
pub proof fn lemma_le_val_bound(s: Seq<u8>)
    ensures
        le_val(s) < pow256(s.len() as nat),
    decreases s.len(),
{
    if s.len() > 0 {
        lemma_le_val_bound(s.drop_first());
        assert(s[0] + 256 * le_val(s.drop_first()) < 256 * pow256((s.len() - 1) as nat))
            by (nonlinear_arith)
            requires
                s[0] < 256,
                le_val(s.drop_first()) < pow256((s.len() - 1) as nat),
        ;
    }
}

/// The bytes written for the value a byte string denotes are that string.
pub proof fn lemma_le_bytes_of_val(s: Seq<u8>)
    ensures
        le_bytes(le_val(s), s.len() as nat) =~= s,
    decreases s.len(),
{
    if s.len() > 0 {
        let n = le_val(s);
        lemma_le_bytes_of_val(s.drop_first());
        assert(n == s[0] + 256 * le_val(s.drop_first()));
        assert(n % 256 == s[0] && n / 256 == le_val(s.drop_first())) by (nonlinear_arith)
            requires
                n == s[0] + 256 * le_val(s.drop_first()),
                0 <= s[0] < 256,
                le_val(s.drop_first()) >= 0,
        ;
        lemma_le_bytes_len(n / 256, (s.len() - 1) as nat);
    }
}

/// Reads the `len` bytes at `off` as a little-endian value, `len` at most 16.
pub fn read_le(bytes: &[u8], off: usize, len: usize) -> (r: u128)
    requires
        off + len <= bytes.len(),
        len <= 16,
    ensures
        r == le_val(bytes@.subrange(off as int, off + len)),
{
    let mut acc: u128 = 0;
    let mut j: usize = 0;
    while j < len
        invariant
            off + len <= bytes.len(),
            len <= 16,
            0 <= j <= len,
            acc == le_val(bytes@.subrange(off + len - j, off + len)),
        decreases len - j,
    {
        let b = bytes[off + len - j - 1];
        proof {
            let tail = bytes@.subrange(off + len - j, off + len);
            let whole = bytes@.subrange(off + len - j - 1, off + len);
            assert(whole.drop_first() =~= tail);
            assert(whole[0] == b);
            lemma_le_val_bound(tail);
            lemma_pow256_le(tail.len() as nat, 15);
            lemma_pow256_val_16();
            assert(256 * acc < 256 * pow256(15)) by (nonlinear_arith)
                requires acc < pow256(15),
            ;
            assert(le_val(whole) == b + 256 * acc);
        }
        acc = (b as u128) + 256 * acc;
        j = j + 1;
    }
    proof {
        assert(bytes@.subrange(off as int, off + len) =~= bytes@.subrange(off + len - j, off + len));
    }
    acc
}

/// The numeric value of 256 to the sixteenth: one past `u128::MAX`.
pub proof fn lemma_pow256_val_16()
    ensures
        pow256(16) == 0x1_0000_0000_0000_0000_0000_0000_0000_0000,
        pow256(4) == 0x1_0000_0000,
{
    reveal_with_fuel(pow256, 17);
}

/// `pow256` is monotone in the exponent.
pub proof fn lemma_pow256_le(a: nat, b: nat)
    requires
        a <= b,
    ensures
        pow256(a) <= pow256(b),
    decreases b,
{
    if a < b {
        lemma_pow256_le(a, (b - 1) as nat);
    }
}

/// Appends the `len` low-order bytes of `n`, least significant first.
pub fn push_le(out: &mut Vec<u8>, n: u128, len: usize)
    ensures
        final(out)@ == old(out)@ + le_bytes(n as nat, len as nat),
    decreases len,
{
    if len > 0 {
        out.push((n % 256) as u8);
        push_le(out, n / 256, len - 1);
        proof {
            assert(out@ =~= old(out)@ + le_bytes(n as nat, len as nat));
        }
    } else {
        proof {
            assert(out@ =~= old(out)@ + le_bytes(n as nat, 0));
        }
    }
}

} // verus!
