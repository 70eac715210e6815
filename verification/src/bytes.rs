//! Little-endian integers inside byte buffers.

use vstd::prelude::*;

verus! {

/// `s` with the bytes from `off` on replaced by `b`.
pub open spec fn splice(s: Seq<u8>, off: int, b: Seq<u8>) -> Seq<u8> {
    Seq::new(
        s.len(),
        |i: int|
            if off <= i < off + b.len() {
                b[i - off]
            } else {
                s[i]
            },
    )
}

/// The number whose little-endian digits to base 256 are `s`.
pub open spec fn le_value(s: Seq<u8>) -> nat
    decreases s.len(),
{
    if s.len() == 0 {
        0
    } else {
        s[0] as nat + 256 * le_value(s.subrange(1, s.len() as int))
    }
}

/// The `n` low little-endian digits to base 256 of `v`.
pub open spec fn le_bytes(v: nat, n: nat) -> Seq<u8>
    decreases n,
{
    if n == 0 {
        Seq::empty()
    } else {
        seq![(v % 256) as u8] + le_bytes(v / 256, (n - 1) as nat)
    }
}

/// `256` to the power `n`.
pub open spec fn pow256(n: nat) -> nat
    decreases n,
{
    if n == 0 {
        1
    } else {
        256 * pow256((n - 1) as nat)
    }
}

/// The little-endian number in the `n` bytes of `s` from `off` on.
pub open spec fn le_at(s: Seq<u8>, off: int, n: int) -> nat {
    le_value(s.subrange(off, off + n))
}

/// The powers of 256 that the formats use.
pub proof fn lemma_pow256()
    ensures
        pow256(1) == 0x100,
        pow256(2) == 0x1_0000,
        pow256(4) == 0x1_0000_0000,
        pow256(8) == 0x1_0000_0000_0000_0000,
{
    reveal_with_fuel(pow256, 9);
}

/// `n` bytes are `n` long.
pub proof fn lemma_le_bytes_len(v: nat, n: nat)
    ensures
        le_bytes(v, n).len() == n,
    decreases n,
{
    if n > 0 {
        lemma_le_bytes_len(v / 256, (n - 1) as nat);
    }
}

/// Some bytes hold a number below the power of 256 of their length.
pub proof fn lemma_le_value_bound(s: Seq<u8>)
    ensures
        le_value(s) < pow256(s.len()),
    decreases s.len(),
{
    if s.len() > 0 {
        lemma_le_value_bound(s.subrange(1, s.len() as int));
    }
}

/// Writing a number that fits and reading the bytes gives the number back.
pub proof fn lemma_le_value_of_bytes(v: nat, n: nat)
    requires
        v < pow256(n),
    ensures
        le_value(le_bytes(v, n)) == v,
    decreases n,
{
    if n > 0 {
        lemma_le_bytes_len(v / 256, (n - 1) as nat);
        lemma_le_value_of_bytes(v / 256, (n - 1) as nat);
        let b = le_bytes(v, n);
        assert(b.subrange(1, b.len() as int) =~= le_bytes(v / 256, (n - 1) as nat));
    }
}

/// Reads the little-endian number in `n` bytes of `buf` from `off` on.
pub fn get_le(buf: &[u8], off: usize, n: usize) -> (v: u64)
    requires
        n <= 8,
        off + n <= buf@.len(),
    ensures
        v == le_at(buf@, off as int, n as int),
        v < pow256(n as nat),
{
    let total: usize = buf.len();
    let mut v: u64 = 0;
    let mut i: usize = n;
    while i > 0
        invariant
            i <= n <= 8,
            buf@.len() == total,
            off + n <= buf@.len(),
            v == le_at(buf@, off + i, n - i),
            v < pow256((n - i) as nat),
        decreases i,
    {
        proof {
            let s = buf@.subrange(off + i - 1, off + n);
            assert(s.subrange(1, s.len() as int) =~= buf@.subrange(off + i, off + n));
            lemma_le_value_bound(s);
            reveal_with_fuel(pow256, 9);
        }
        i -= 1;
        v = buf[off + i] as u64 + 256 * v;
    }
    v
}

/// Writes the low `n` bytes of `v` into `buf` at `off`, little-endian.
pub fn put_le(buf: &mut [u8], off: usize, n: usize, v: u64)
    requires
        off + n <= old(buf)@.len(),
    ensures
        final(buf)@ == splice(old(buf)@, off as int, le_bytes(v as nat, n as nat)),
{
    let total: usize = buf.len();
    let mut rest: u64 = v;
    let mut i: usize = 0;
    let ghost all = le_bytes(v as nat, n as nat);
    proof {
        lemma_le_bytes_len(v as nat, n as nat);
        assert(all.subrange(0, n as int) =~= all);
    }
    while i < n
        invariant
            i <= n,
            off + n <= total,
            buf@.len() == old(buf)@.len() == total,
            all.len() == n,
            all.subrange(i as int, n as int) == le_bytes(rest as nat, (n - i) as nat),
            forall|j: int|
                0 <= j < buf@.len() ==> buf@[j] == if off <= j < off + i {
                    all[j - off]
                } else {
                    old(buf)@[j]
                },
        decreases n - i,
    {
        let ghost tail = all.subrange(i as int, n as int);
        buf[off + i] = (rest % 256) as u8;
        proof {
            assert(tail[0] == (rest % 256) as u8);
            assert(tail.subrange(1, tail.len() as int) =~= le_bytes(
                (rest / 256) as nat,
                (n - i - 1) as nat,
            )) by {
                lemma_le_bytes_len((rest / 256) as nat, (n - i - 1) as nat);
            }
            assert(tail.subrange(1, tail.len() as int) =~= all.subrange(i + 1, n as int));
        }
        rest = rest / 256;
        i += 1;
    }
    assert(buf@ =~= splice(old(buf)@, off as int, all));
}

/// Copies `src` into `buf` at `off`.
pub fn copy_into(buf: &mut [u8], off: usize, src: &[u8])
    requires
        off + src@.len() <= old(buf)@.len(),
    ensures
        final(buf)@ == splice(old(buf)@, off as int, src@),
{
    let total: usize = buf.len();
    let n: usize = src.len();
    let mut i: usize = 0;
    while i < n
        invariant
            i <= n,
            n == src@.len(),
            off + n <= total,
            buf@.len() == old(buf)@.len() == total,
            forall|j: int|
                0 <= j < buf@.len() ==> buf@[j] == if off <= j < off + i {
                    src@[j - off]
                } else {
                    old(buf)@[j]
                },
        decreases n - i,
    {
        buf[off + i] = src[i];
        i += 1;
    }
    assert(buf@ =~= splice(old(buf)@, off as int, src@));
}

/// Appends `src` to `out`.
pub fn append_bytes(out: &mut Vec<u8>, src: &[u8])
    ensures
        final(out)@ == old(out)@ + src@,
{
    let n: usize = src.len();
    let mut i: usize = 0;
    while i < n
        invariant
            i <= n,
            n == src@.len(),
            out@ == old(out)@ + src@.subrange(0, i as int),
        decreases n - i,
    {
        out.push(src[i]);
        i += 1;
        assert(src@.subrange(0, i as int) =~= src@.subrange(0, i - 1).push(src@[i - 1]));
    }
    assert(src@.subrange(0, n as int) =~= src@);
}

/// The low `n` bytes of `v`, little-endian.
pub fn le_vec(v: u64, n: usize) -> (out: Vec<u8>)
    ensures
        out@ == le_bytes(v as nat, n as nat),
{
    let mut out: Vec<u8> = vec![0u8; n];
    put_le(out.as_mut_slice(), 0, n, v);
    proof {
        lemma_le_bytes_len(v as nat, n as nat);
        assert(out@ =~= le_bytes(v as nat, n as nat));
    }
    out
}

/// A copy of `src`.
pub fn copy_bytes(src: &[u8]) -> (out: Vec<u8>)
    ensures
        out@ == src@,
{
    let mut out: Vec<u8> = Vec::new();
    append_bytes(&mut out, src);
    assert(out@ =~= src@);
    out
}

// ── Laws of numbers in bytes ──

/// A number is stored with its lowest byte first.
pub proof fn law_lowest_byte_is_first(v: nat, n: nat)
    ensures
        le_bytes(v, 0).len() == 0,
        le_bytes(v, n + 1).len() > 0,
        le_bytes(v, n + 1)[0] == v % 256,
        le_bytes(v, n + 1).subrange(1, le_bytes(v, n + 1).len() as int) == le_bytes(v / 256, n),
{
    let s = le_bytes(v, n + 1);
    assert(s.subrange(1, s.len() as int) =~= le_bytes(v / 256, n));
}

/// Bytes are read with the lowest first: one byte before others adds its value to 256 times theirs.
pub proof fn law_bytes_are_read_lowest_first(b: u8, rest: Seq<u8>)
    ensures
        le_value(Seq::empty()) == 0,
        le_value(seq![b] + rest) == b + 256 * le_value(rest),
{
    let s = seq![b] + rest;
    assert(s.subrange(1, s.len() as int) =~= rest);
}

} // verus!
