//! Little-endian integers in byte buffers.

use vstd::prelude::*;

verus! {

/// The value of the little-endian integer `s`.
pub open spec fn le(s: Seq<u8>) -> nat
    decreases s.len(),
{
    if s.len() == 0 {
        0
    } else {
        s[0] as nat + 256 * le(s.skip(1))
    }
}

/// The `n` low bytes of `v`, least significant first.
pub open spec fn le_bytes(v: nat, n: nat) -> Seq<u8>
    decreases n,
{
    if n == 0 {
        Seq::empty()
    } else {
        seq![(v % 256) as u8] + le_bytes(v / 256, (n - 1) as nat)
    }
}

/// The little-endian integer in the `n` bytes of `b` at `off`.
pub open spec fn le_at(b: Seq<u8>, off: int, n: int) -> nat {
    le(b.subrange(off, off + n))
}

/// The 64-bit integer at `off`, as a `usize`.
pub open spec fn word(s: Seq<u8>, off: int) -> usize {
    le_at(s, off, 8) as u64 as usize
}

/// `n` zero bytes.
pub open spec fn zeros(n: nat) -> Seq<u8> {
    Seq::new(n, |i: int| 0u8)
}

/// `256` to the power of `n`.
pub open spec fn pow256(n: nat) -> nat
    decreases n,
{
    if n == 0 {
        1
    } else {
        256 * pow256((n - 1) as nat)
    }
}

pub(crate) proof fn lemma_le_bytes_len(v: nat, n: nat)
    ensures
        le_bytes(v, n).len() == n,
    decreases n,
{
    if n > 0 {
        lemma_le_bytes_len(v / 256, (n - 1) as nat);
    }
}

/// Reading back the `n` bytes of a number below `256` to the power of `n` gives the number.
pub(crate) proof fn lemma_le_reads_le_bytes(v: nat, n: nat)
    requires
        v < pow256(n),
    ensures
        le(le_bytes(v, n)) == v,
    decreases n,
{
    if n > 0 {
        lemma_le_reads_le_bytes(v / 256, (n - 1) as nat);
        assert(le_bytes(v, n).skip(1) =~= le_bytes(v / 256, (n - 1) as nat));
    }
}

pub(crate) proof fn lemma_le_bound(s: Seq<u8>)
    ensures
        le(s) < pow256(s.len()),
    decreases s.len(),
{
    if s.len() > 0 {
        lemma_le_bound(s.skip(1));
    }
}

pub(crate) proof fn lemma_pow256()
    ensures
        pow256(2) == 0x1_0000,
        pow256(4) == 0x1_0000_0000,
        pow256(8) == 0x1_0000_0000_0000_0000,
{
    reveal_with_fuel(pow256, 9);
}

/// A 64-bit number takes eight bytes, which read back as the number.
pub(crate) proof fn lemma_le8(v: nat)
    requires
        v <= u64::MAX,
    ensures
        le_bytes(v, 8).len() == 8,
        le(le_bytes(v, 8)) == v,
{
    lemma_pow256();
    lemma_le_bytes_len(v, 8);
    lemma_le_reads_le_bytes(v, 8);
}

fn le_value(b: &[u8], off: usize, n: usize) -> (v: u64)
    requires
        off + n <= b@.len(),
        n <= 8,
    ensures
        v == le_at(b@, off as int, n as int),
    decreases n,
{
    if n == 0 {
        return 0;
    }
    assert(b@.len() == b.len());
    let rest = le_value(b, off + 1, n - 1);
    proof {
        let s = b@.subrange(off as int, off + n);
        assert(s.skip(1) =~= b@.subrange(off + 1, off + n));
        lemma_le_bound(s);
        lemma_le_bound_mono(n as nat);
        assert(le(s) == s[0] as nat + 256 * le(s.skip(1)));
    }
    b[off] as u64 + 256 * rest
}

proof fn lemma_le_bound_mono(n: nat)
    requires
        n <= 8,
    ensures
        pow256(n) <= 0x1_0000_0000_0000_0000,
{
    reveal_with_fuel(pow256, 9);
}

/// The little-endian `u16` at `off`.
pub fn u16_at(b: &[u8], off: usize) -> (v: u16)
    requires
        off + 2 <= b@.len(),
    ensures
        v == le_at(b@, off as int, 2),
{
    proof {
        lemma_le_bound(b@.subrange(off as int, off + 2));
        lemma_pow256();
    }
    le_value(b, off, 2) as u16
}

/// The little-endian `u32` at `off`.
pub fn u32_at(b: &[u8], off: usize) -> (v: u32)
    requires
        off + 4 <= b@.len(),
    ensures
        v == le_at(b@, off as int, 4),
{
    proof {
        lemma_le_bound(b@.subrange(off as int, off + 4));
        lemma_pow256();
    }
    le_value(b, off, 4) as u32
}

/// The little-endian `u64` at `off`.
pub fn u64_at(b: &[u8], off: usize) -> (v: u64)
    requires
        off + 8 <= b@.len(),
    ensures
        v == le_at(b@, off as int, 8),
{
    le_value(b, off, 8)
}

/// Appends `v` as eight little-endian bytes.
pub(crate) fn push_u64(out: &mut Vec<u8>, v: u64)
    ensures
        final(out)@ == old(out)@ + le_bytes(v as nat, 8),
{
    let mut rest: u64 = v;
    let mut i: usize = 0;
    while i < 8
        invariant
            i <= 8,
            out@ + le_bytes(rest as nat, (8 - i) as nat) == old(out)@ + le_bytes(v as nat, 8),
        decreases 8 - i,
    {
        let ghost before = out@;
        let low: u8 = (rest % 256) as u8;
        out.push(low);
        proof {
            assert(before + le_bytes(rest as nat, (8 - i) as nat) =~= out@ + le_bytes(
                (rest / 256) as nat,
                (8 - i - 1) as nat,
            ));
        }
        rest = rest / 256;
        i = i + 1;
    }
    assert(out@ + le_bytes(rest as nat, 0) =~= out@);
}

/// Overwrites the bytes of `out` from `at` on with those of `data`.
pub(crate) fn overwrite(out: &mut Vec<u8>, at: usize, data: &[u8])
    requires
        at + data@.len() <= old(out)@.len(),
    ensures
        final(out)@ == old(out)@.take(at as int) + data@ + old(out)@.skip(at + data@.len()),
{
    let n = data.len();
    let mut i: usize = 0;
    while i < n
        invariant
            i <= n,
            n == data@.len(),
            at + n <= old(out)@.len(),
            out@ == old(out)@.take(at as int) + data@.take(i as int) + old(out)@.skip(at + i),
        decreases n - i,
    {
        assert(out@.len() == out.len());
        out.set(at + i, data[i]);
        proof {
            assert(out@ =~= old(out)@.take(at as int) + data@.take(i + 1) + old(out)@.skip(
                at + i + 1,
            ));
        }
        i = i + 1;
    }
    assert(data@.take(n as int) =~= data@);
}

/// `s` cut off or filled up with zeros to `n` bytes.
pub open spec fn resized(s: Seq<u8>, n: nat) -> Seq<u8> {
    if n <= s.len() {
        s.take(n as int)
    } else {
        s + zeros((n - s.len()) as nat)
    }
}

/// Cuts `out` off or fills it up with zeros to `n` bytes.
pub(crate) fn resize(out: &mut Vec<u8>, n: usize)
    ensures
        final(out)@ == resized(old(out)@, n as nat),
{
    let ghost before = out@;
    out.resize(n, 0u8);
    proof {
        if n > before.len() {
            assert forall|i: int| 0 <= i < n implies #[trigger] out@[i] == resized(
                before,
                n as nat,
            )[i] by {
                if i < before.len() {
                    assert(out@.subrange(0, before.len() as int)[i] == before[i]);
                }
            }
        }
        assert(out@ =~= resized(before, n as nat));
    }
}

} // verus!
