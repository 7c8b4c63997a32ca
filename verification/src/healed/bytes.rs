//! Byte-sequence helpers shared by the frame formats.

use vstd::prelude::*;

verus! {

/// Copies `buf[start..end]` into a new vector.
pub fn copy_range(buf: &[u8], start: usize, end: usize) -> (r: Vec<u8>)
    requires
        start <= end <= buf@.len(),
    ensures
        r@ == buf@.subrange(start as int, end as int),
{
    let mut out: Vec<u8> = Vec::with_capacity(end - start);
    let mut i = start;
    while i < end
        invariant
            start <= i <= end <= buf@.len(),
            out@ == buf@.subrange(start as int, i as int),
        decreases end - i,
    {
        out.push(buf[i]);
        i += 1;
        assert(out@ =~= buf@.subrange(start as int, i as int));
    }
    out
}

/// Appends all of `src` to `dst`.
pub fn append_bytes(dst: &mut Vec<u8>, src: &[u8])
    ensures
        final(dst)@ == old(dst)@ + src@,
{
    let ghost start = dst@;
    let mut i: usize = 0;
    while i < src.len()
        invariant
            0 <= i <= src@.len(),
            dst@ == start + src@.subrange(0, i as int),
        decreases src@.len() - i,
    {
        dst.push(src[i]);
        i += 1;
        assert(dst@ =~= start + src@.subrange(0, i as int));
    }
    assert(src@.subrange(0, src@.len() as int) =~= src@);
}

/// Whether `buf[start..start + 4]` equals `magic`.
pub fn has_magic(buf: &[u8], start: usize, magic: [u8; 4]) -> (r: bool)
    requires
        start + 4 <= buf@.len(),
    ensures
        r == (buf@.subrange(start as int, start + 4) == magic@),
{
    let r = buf[start] == magic[0] && buf[start + 1] == magic[1] && buf[start + 2] == magic[2]
        && buf[start + 3] == magic[3];
    proof {
        if r {
            assert(buf@.subrange(start as int, start + 4) =~= magic@);
        } else {
            if buf@.subrange(start as int, start + 4) == magic@ {
                assert(buf@.subrange(start as int, start + 4)[0] == magic@[0]);
                assert(buf@.subrange(start as int, start + 4)[1] == magic@[1]);
                assert(buf@.subrange(start as int, start + 4)[2] == magic@[2]);
                assert(buf@.subrange(start as int, start + 4)[3] == magic@[3]);
            }
        }
    }
    r
}

// ─────────────────────────────────────────
//  Fixed-width integers as bytes
// ─────────────────────────────────────────

/// `256` to the power `n`.
pub open spec fn pow256(n: nat) -> nat
    decreases n,
{
    if n == 0 { 1 } else { 256 * pow256((n - 1) as nat) }
}

/// Value of big-endian bytes.
pub open spec fn be_value(s: Seq<u8>) -> nat
    decreases s.len(),
{
    if s.len() == 0 { 0 } else { be_value(s.drop_last()) * 256 + s.last() as nat }
}

/// The `n` big-endian bytes of `x` (its low `n` bytes).
pub open spec fn be_bytes(x: nat, n: nat) -> Seq<u8>
    decreases n,
{
    if n == 0 { Seq::empty() } else { be_bytes(x / 256, (n - 1) as nat).push((x % 256) as u8) }
}

pub proof fn lemma_pow256_values()
    ensures
        pow256(0) == 1,
        pow256(1) == 0x100,
        pow256(2) == 0x1_0000,
        pow256(4) == 0x1_0000_0000,
        pow256(8) == 0x1_0000_0000_0000_0000,
        pow256(16) == 0x1_0000_0000_0000_0000_0000_0000_0000_0000,
{
    reveal_with_fuel(pow256, 17);
}

pub proof fn lemma_pow256_mono(a: nat, b: nat)
    requires
        a <= b,
    ensures
        pow256(a) <= pow256(b),
    decreases b,
{
    if a < b {
        lemma_pow256_mono(a, (b - 1) as nat);
    }
}

pub proof fn lemma_be_len(x: nat, n: nat)
    ensures
        be_bytes(x, n).len() == n,
    decreases n,
{
    if n > 0 {
        lemma_be_len(x / 256, (n - 1) as nat);
    }
}

pub proof fn lemma_be_value_bound(s: Seq<u8>)
    ensures
        be_value(s) < pow256(s.len()),
    decreases s.len(),
{
    if s.len() > 0 {
        lemma_be_value_bound(s.drop_last());
    }
}

/// Bytes back to the value they were written from.
pub proof fn lemma_be_value_of_bytes(x: nat, n: nat)
    requires
        x < pow256(n),
    ensures
        be_value(be_bytes(x, n)) == x,
    decreases n,
{
    if n > 0 {
        lemma_be_value_of_bytes(x / 256, (n - 1) as nat);
        assert(be_bytes(x, n).drop_last() =~= be_bytes(x / 256, (n - 1) as nat));
    }
}

/// A value back to the bytes it was read from.
pub proof fn lemma_be_bytes_of_value(s: Seq<u8>)
    ensures
        be_bytes(be_value(s), s.len()) == s,
    decreases s.len(),
{
    if s.len() > 0 {
        lemma_be_bytes_of_value(s.drop_last());
        let v = be_value(s);
        assert(v % 256 == s.last() as nat && v / 256 == be_value(s.drop_last()));
        assert(be_bytes(v, s.len()) =~= s);
    } else {
        assert(s =~= Seq::<u8>::empty());
    }
}

/// Big-endian value of `s[at..at + n]`.
pub fn read_be(s: &[u8], at: usize, n: usize) -> (r: u128)
    requires
        n <= 16,
        at + n <= s.len(),
    ensures
        r as nat == be_value(s@.subrange(at as int, at + n)),
    decreases n,
{
    if n == 0 {
        0
    } else {
        let rest = read_be(s, at, n - 1);
        proof {
            let sub = s@.subrange(at as int, at + n);
            assert(sub.drop_last() =~= s@.subrange(at as int, at + n - 1));
            lemma_be_value_bound(s@.subrange(at as int, at + n - 1));
            lemma_pow256_mono((n - 1) as nat, 15);
            reveal_with_fuel(pow256, 16);
            assert(pow256(15) == 0x1_0000_0000_0000_0000_0000_0000_0000_00);
        }
        rest * 256 + (s[at + n - 1] as u128)
    }
}

/// Appends the `n` big-endian bytes of `x`.
pub fn push_be(out: &mut Vec<u8>, x: u128, n: usize)
    ensures
        final(out)@ == old(out)@ + be_bytes(x as nat, n as nat),
    decreases n,
{
    if n == 0 {
        assert(final(out)@ =~= old(out)@ + be_bytes(x as nat, 0));
    } else {
        push_be(out, x / 256, n - 1);
        out.push((x % 256) as u8);
        assert(final(out)@ =~= old(out)@ + be_bytes(x as nat, n as nat));
    }
}

} // verus!
