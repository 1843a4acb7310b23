//! Little-endian integer fields of the on-disk layouts.

use vstd::prelude::*;

verus! {

/// The `len` little-endian bytes of `n`.
pub open spec fn le_bytes(n: nat, len: nat) -> Seq<u8>
    decreases len,
{
    if len == 0 {
        Seq::empty()
    } else {
        seq![(n % 256) as u8] + le_bytes(n / 256, (len - 1) as nat)
    }
}

/// The value of a little-endian byte string.
pub open spec fn le_val(s: Seq<u8>) -> nat
    decreases s.len(),
{
    if s.len() == 0 {
        0
    } else {
        (s[0] + 256 * le_val(s.subrange(1, s.len() as int))) as nat
    }
}

/// 256 to the power `k`.
pub open spec fn pow256(k: nat) -> nat
    decreases k,
{
    if k == 0 {
        1
    } else {
        256 * pow256((k - 1) as nat)
    }
}

pub proof fn lemma_le_bytes_len(n: nat, len: nat)
    ensures
        le_bytes(n, len).len() == len,
    decreases len,
{
    if len > 0 {
        lemma_le_bytes_len(n / 256, (len - 1) as nat);
    }
}

/// A little-endian byte string of length `k` holds a value below `256^k`.
pub proof fn lemma_le_val_bound(s: Seq<u8>)
    ensures
        le_val(s) < pow256(s.len()),
    decreases s.len(),
{
    if s.len() > 0 {
        lemma_le_val_bound(s.subrange(1, s.len() as int));
    }
}

/// Reading back the little-endian bytes of `n` yields `n`.
pub proof fn lemma_le_round_trip(n: nat, len: nat)
    requires
        n < pow256(len),
    ensures
        le_val(le_bytes(n, len)) == n,
    decreases len,
{
    if len == 0 {
    } else {
        let s = le_bytes(n, len);
        lemma_le_bytes_len(n / 256, (len - 1) as nat);
        assert(s.subrange(1, s.len() as int) =~= le_bytes(n / 256, (len - 1) as nat));
        assert(n / 256 < pow256((len - 1) as nat)) by {
            assert(n < 256 * pow256((len - 1) as nat));
        }
        lemma_le_round_trip(n / 256, (len - 1) as nat);
        assert(n == 256 * (n / 256) + n % 256) by {
            vstd::arithmetic::div_mod::lemma_fundamental_div_mod(n as int, 256);
        }
    }
}

/// Appends the `len` little-endian bytes of `x`.
pub fn push_le(out: &mut Vec<u8>, x: u64, len: usize)
    requires
        len <= 8,
        (x as nat) < pow256(len as nat),
    ensures
        final(out)@ == old(out)@ + le_bytes(x as nat, len as nat),
{
    let ghost full = le_bytes(x as nat, len as nat);
    let mut v: u64 = x;
    let mut k: usize = 0;
    proof {
        lemma_le_bytes_len(x as nat, len as nat);
        assert(old(out)@ + full =~= out@ + le_bytes(v as nat, (len - k) as nat));
    }
    while k < len
        invariant
            k <= len,
            old(out)@ + full == out@ + le_bytes(v as nat, (len - k) as nat),
        decreases len - k,
    {
        let b: u8 = (v % 256) as u8;
        out.push(b);
        proof {
            assert(le_bytes(v as nat, (len - k) as nat) =~= seq![(v as nat % 256) as u8] + le_bytes(
                v as nat / 256,
                (len - (k + 1)) as nat,
            ));
            assert(out@.push(b) + le_bytes(v as nat / 256, (len - (k + 1)) as nat) =~= out@ + le_bytes(
                v as nat,
                (len - k) as nat,
            ));
            assert(v as nat / 256 == (v / 256) as nat);
        }
        v = v / 256;
        k = k + 1;
    }
    proof {
        assert(le_bytes(v as nat, 0) =~= Seq::<u8>::empty());
        assert(out@ =~= old(out)@ + full);
    }
}

/// Reads a `len`-byte little-endian value at `off`.
pub fn read_le(bytes: &[u8], off: usize, len: usize) -> (r: u64)
    requires
        len <= 8,
        off + len <= bytes@.len(),
    ensures
        r as nat == le_val(bytes@.subrange(off as int, off + len)),
{
    let n = bytes.len();
    assert(n == bytes@.len());
    let mut r: u64 = 0;
    let mut j: usize = len;
    proof {
        assert(bytes@.subrange(off + len, off + len) =~= Seq::<u8>::empty());
    }
    while j > 0
        invariant
            j <= len,
            len <= 8,
            off + len <= n,
            n == bytes@.len(),
            r as nat == le_val(bytes@.subrange(off + j, off + len)),
            (r as nat) < pow256((len - j) as nat),
        decreases j,
    {
        j = j - 1;
        let b = *vstd::slice::slice_index_get(bytes, off + j);
        proof {
            let s = bytes@.subrange(off + j, off + len);
            assert(s[0] == b);
            assert(s.subrange(1, s.len() as int) =~= bytes@.subrange(off + j + 1, off + len));
            assert(pow256((len - j) as nat) == 256 * pow256((len - j - 1) as nat));
            assert(256 * (r as nat) + b < 256 * pow256((len - j - 1) as nat) + 256) by {
                assert(r as nat <= pow256((len - j - 1) as nat) - 1);
                assert(256 * (r as nat) <= 256 * (pow256((len - j - 1) as nat) - 1)) by (nonlinear_arith)
                    requires r as nat <= pow256((len - j - 1) as nat) - 1;
            }
            assert(pow256(8) == 0x1_0000_0000_0000_0000) by {
                reveal_with_fuel(pow256, 9);
            }
            assert(pow256((len - j) as nat) <= pow256(8)) by {
                lemma_pow256_increases((len - j) as nat, 8);
            }
        }
        r = r * 256 + (b as u64);
    }
    proof {
        assert(bytes@.subrange(off as int, off + len) =~= bytes@.subrange(off + 0, off + len));
    }
    r
}

proof fn lemma_pow256_increases(a: nat, b: nat)
    requires
        a <= b,
    ensures
        pow256(a) <= pow256(b),
    decreases b,
{
    if a < b && b > 0 {
        lemma_pow256_increases(a, (b - 1) as nat);
        assert(pow256((b - 1) as nat) <= 256 * pow256((b - 1) as nat));
    }
}

/// Appends the two little-endian bytes of `x`.
pub fn push_u16(out: &mut Vec<u8>, x: u16)
    ensures
        final(out)@ == old(out)@ + le_bytes(x as nat, 2),
{
    proof {
        assert(pow256(2) == 0x1_0000) by {
            reveal_with_fuel(pow256, 3);
        }
    }
    push_le(out, x as u64, 2);
}

/// Reads a two-byte little-endian value at `off`.
pub fn read_u16(bytes: &[u8], off: usize) -> (r: u16)
    requires
        off + 2 <= bytes@.len(),
    ensures
        r as nat == le_val(bytes@.subrange(off as int, off + 2)),
{
    let v = read_le(bytes, off, 2);
    proof {
        lemma_le_val_bound(bytes@.subrange(off as int, off + 2));
        assert(pow256(2) == 0x1_0000) by {
            reveal_with_fuel(pow256, 3);
        }
    }
    v as u16
}

/// Appends every byte of `s`.
pub fn push_bytes(out: &mut Vec<u8>, s: &[u8])
    ensures
        final(out)@ == old(out)@ + s@,
{
    let mut i: usize = 0;
    while i < s.len()
        invariant
            i <= s@.len(),
            out@ == old(out)@ + s@.subrange(0, i as int),
        decreases s@.len() - i,
    {
        let b = *vstd::slice::slice_index_get(s, i);
        out.push(b);
        proof {
            assert(old(out)@ + s@.subrange(0, i as int) + seq![s@[i as int]] =~= old(out)@
                + s@.subrange(0, i + 1));
        }
        i = i + 1;
    }
    proof {
        assert(s@.subrange(0, s@.len() as int) =~= s@);
    }
}

} // verus!
