use vstd::prelude::*;
use vstd::bytes::{spec_u128_from_le_bytes, spec_u128_to_le_bytes, u128_from_le_bytes, u128_to_le_bytes};
use vstd::slice::slice_subrange;

use crate::pixfmt::format::{rep128, spec_bitshift, spec_lmask_u16, CsiPixelFormat};

verus! {

/// Right alignment of a 128-bit word of samples.
pub open spec fn spec_format_word(f: CsiPixelFormat, w: u128) -> u128 {
    (w & rep128(spec_lmask_u16(f))) >> (spec_bitshift(f) as u128)
}

/// Masking of the padding bits of a 128-bit word of samples.
pub open spec fn spec_mask_word(f: CsiPixelFormat, w: u128) -> u128 {
    w & rep128(spec_lmask_u16(f))
}

/// The 16-byte chunk `c` of `s`.
pub open spec fn chunk(s: Seq<u8>, c: int) -> Seq<u8> {
    s.subrange(16 * c, 16 * c + 16)
}

/// `new` is `old` with every whole 16-byte chunk below `upto` replaced by
/// `op` applied to it as a little-endian `u128`, and all other bytes unchanged.
pub open spec fn chunks_mapped(old: Seq<u8>, new: Seq<u8>, upto: int, f: CsiPixelFormat, masking: bool) -> bool {
    &&& new.len() == old.len()
    &&& forall|c: int| 0 <= c < upto ==> #[trigger] chunk(new, c) == spec_u128_to_le_bytes(
        if masking { spec_mask_word(f, spec_u128_from_le_bytes(chunk(old, c))) }
        else { spec_format_word(f, spec_u128_from_le_bytes(chunk(old, c))) })
    &&& forall|i: int| 16 * upto <= i < old.len() ==> new[i] == old[i]
}

fn apply_chunks(buf: &mut [u8], csi_format: CsiPixelFormat, masking: bool, count: usize)
    requires
        count <= old(buf)@.len() / 16,
    ensures
        chunks_mapped(old(buf)@, final(buf)@, count as int, csi_format, masking),
{
    let n = count;
    let ghost orig = buf@;
    assert(orig.len() == buf.len());
    let mut c: usize = 0;
    while c < n
        invariant
            n <= orig.len() / 16,
            orig.len() <= usize::MAX,
            0 <= c <= n,
            chunks_mapped(orig, buf@, c as int, csi_format, masking),
        decreases n - c,
    {
        assert(c * 16 + 16 <= orig.len()) by (nonlinear_arith)
            requires c < n, n <= orig.len() / 16;
        let start = c * 16;
        let word = u128_from_le_bytes(slice_subrange(buf, start, start + 16));
        assert(buf@.subrange(start as int, start + 16) =~= chunk(orig, c as int));
        let out = if masking { word & csi_format.lmask_u128() } else { csi_format.format_u128(word) };
        let bytes = u128_to_le_bytes(out);
        proof { vstd::bytes::lemma_auto_spec_u128_to_from_le_bytes(); }
        let ghost before = buf@;
        let mut k: usize = 0;
        while k < 16
            invariant
                0 <= k <= 16,
                start == c * 16,
                c < n,
                n <= orig.len() / 16,
                bytes@.len() == 16,
                buf@.len() == before.len(),
                before.len() == orig.len(),
                start + 16 <= orig.len(),
                forall|i: int| 0 <= i < k ==> buf@[start + i] == bytes@[i],
                forall|i: int| 0 <= i < buf@.len() && !(start <= i < start + k) ==> buf@[i] == before[i],
            decreases 16 - k,
        {
            buf[start + k] = bytes[k];
            k += 1;
        }
        proof {
            assert(chunk(buf@, c as int) =~= bytes@);
            assert forall|d: int| 0 <= d < c + 1 implies #[trigger] chunk(buf@, d) == spec_u128_to_le_bytes(
                if masking { spec_mask_word(csi_format, spec_u128_from_le_bytes(chunk(orig, d))) }
                else { spec_format_word(csi_format, spec_u128_from_le_bytes(chunk(orig, d))) }) by {
                if d < c {
                    assert(chunk(buf@, d) =~= chunk(before, d));
                }
            }
        }
        c += 1;
    }
}

/// Right-aligns every whole 16-byte chunk of `buf` in place; a trailing
/// partial chunk is left as is.
pub fn format_as_u128(buf: &mut [u8], csi_format: CsiPixelFormat)
    ensures
        chunks_mapped(old(buf)@, final(buf)@, (old(buf)@.len() / 16) as int, csi_format, false),
{
    let count = buf.len() / 16;
    apply_chunks(buf, csi_format, false, count);
}

/// Right-aligns every whole 16-byte chunk of `buf` in place, as the
/// 128-bit vector units do; a trailing partial chunk is left as is.
pub fn format_as_u128_simd(buf: &mut [u8], csi_format: CsiPixelFormat)
    ensures
        chunks_mapped(old(buf)@, final(buf)@, (old(buf)@.len() / 16) as int, csi_format, false),
{
    let count = buf.len() / 16;
    apply_chunks(buf, csi_format, false, count);
}

/// Right-aligns every whole 32-byte block of `buf` in place, as the
/// 256-bit vector units do; a trailing partial block is left as is.
pub fn format_as_u256_simd(buf: &mut [u8], csi_format: CsiPixelFormat)
    ensures
        chunks_mapped(old(buf)@, final(buf)@, ((old(buf)@.len() / 32) * 2) as int, csi_format, false),
{
    let count = (buf.len() / 32) * 2;
    apply_chunks(buf, csi_format, false, count);
}

/// Removes the padding and right-aligns the samples of `buf`.
pub fn format(buf: &mut [u8], csi_format: CsiPixelFormat)
    ensures
        chunks_mapped(old(buf)@, final(buf)@, (old(buf)@.len() / 16) as int, csi_format, false),
{
    format_as_u128(buf, csi_format);
}

/// Clears the padding bits of every whole 16-byte chunk of `buf` in place,
/// keeping the samples left-aligned in 16 bits.
pub fn mask_as_u128(buf: &mut [u8], csi_format: CsiPixelFormat)
    ensures
        chunks_mapped(old(buf)@, final(buf)@, (old(buf)@.len() / 16) as int, csi_format, true),
{
    let count = buf.len() / 16;
    apply_chunks(buf, csi_format, true, count);
}

/// Clears the padding bits of every whole 16-byte chunk of `buf` in place,
/// as the 128-bit vector units do.
pub fn mask_as_u128_simd(buf: &mut [u8], csi_format: CsiPixelFormat)
    ensures
        chunks_mapped(old(buf)@, final(buf)@, (old(buf)@.len() / 16) as int, csi_format, true),
{
    let count = buf.len() / 16;
    apply_chunks(buf, csi_format, true, count);
}

/// Clears the padding bits of every whole 32-byte block of `buf` in place,
/// as the 256-bit vector units do; a trailing partial block is left as is.
pub fn mask_as_u256_simd(buf: &mut [u8], csi_format: CsiPixelFormat)
    ensures
        chunks_mapped(old(buf)@, final(buf)@, ((old(buf)@.len() / 32) * 2) as int, csi_format, true),
{
    let count = (buf.len() / 32) * 2;
    apply_chunks(buf, csi_format, true, count);
}

/// Clears the padding bits of the samples of `buf` (e.g. RAW to Gray16).
pub fn mask(buf: &mut [u8], csi_format: CsiPixelFormat)
    ensures
        chunks_mapped(old(buf)@, final(buf)@, (old(buf)@.len() / 16) as int, csi_format, true),
{
    mask_as_u128(buf, csi_format);
}

/// The 16-bit little-endian sample `j` (0 to 7) of a chunk read as a
/// little-endian `u128`.
pub open spec fn lane(w: u128, j: u128) -> u16 {
    ((w >> (16u128 * j)) & 0xffffu128) as u16
}

/// A left-aligned sample moved to the right: RAW10 keeps its top 10 bits,
/// shifted down by 6; RAW12 its top 12 bits, shifted down by 4.
pub open spec fn right_aligned_sample(f: CsiPixelFormat, s: u16) -> u16 {
    match f {
        CsiPixelFormat::Raw10 => (s & 0xffc0u16) >> 6u16,
        CsiPixelFormat::Raw12 => (s & 0xfff0u16) >> 4u16,
    }
}

/// A sample with its padding bits cleared: the low 6 bits for RAW10, the
/// low 4 bits for RAW12.
pub open spec fn masked_sample(f: CsiPixelFormat, s: u16) -> u16 {
    match f {
        CsiPixelFormat::Raw10 => s & 0xffc0u16,
        CsiPixelFormat::Raw12 => s & 0xfff0u16,
    }
}

proof fn lemma_word_lanes(f: CsiPixelFormat, w: u128, j: u128)
    requires
        j < 8,
    ensures
        lane(spec_format_word(f, w), j) == right_aligned_sample(f, lane(w, j)),
        lane(spec_mask_word(f, w), j) == masked_sample(f, lane(w, j)),
{
    match f {
        CsiPixelFormat::Raw10 => {
            assert(rep128(0xffc0u16) == 0xffc0ffc0ffc0ffc0ffc0ffc0ffc0ffc0u128) by (bit_vector);
            assert(spec_bitshift(f) == 6);
            assert((((((w & 0xffc0ffc0ffc0ffc0ffc0ffc0ffc0ffc0u128) >> 6u128) >> (16u128 * j)) & 0xffffu128) as u16)
                == ((((w >> (16u128 * j)) & 0xffffu128) as u16) & 0xffc0u16) >> 6u16
                && ((((w & 0xffc0ffc0ffc0ffc0ffc0ffc0ffc0ffc0u128) >> (16u128 * j)) & 0xffffu128) as u16)
                == (((w >> (16u128 * j)) & 0xffffu128) as u16) & 0xffc0u16) by (bit_vector)
                requires j < 8u128;
        },
        CsiPixelFormat::Raw12 => {
            assert(rep128(0xfff0u16) == 0xfff0fff0fff0fff0fff0fff0fff0fff0u128) by (bit_vector);
            assert(spec_bitshift(f) == 4);
            assert((((((w & 0xfff0fff0fff0fff0fff0fff0fff0fff0u128) >> 4u128) >> (16u128 * j)) & 0xffffu128) as u16)
                == ((((w >> (16u128 * j)) & 0xffffu128) as u16) & 0xfff0u16) >> 4u16
                && ((((w & 0xfff0fff0fff0fff0fff0fff0fff0fff0u128) >> (16u128 * j)) & 0xffffu128) as u16)
                == (((w >> (16u128 * j)) & 0xffffu128) as u16) & 0xfff0u16) by (bit_vector)
                requires j < 8u128;
        },
    }
}

/// After formatting (`format` and its 128- and 256-bit variants), every
/// 16-bit little-endian sample of every converted chunk is the sample
/// before, right-aligned; after masking, it is the sample before with its
/// padding bits cleared.
pub proof fn lemma_samples_converted(old: Seq<u8>, new: Seq<u8>, upto: int, f: CsiPixelFormat, masking: bool)
    requires
        0 <= upto <= old.len() / 16,
        chunks_mapped(old, new, upto, f, masking),
    ensures
        forall|c: int, j: u128| 0 <= c < upto && j < 8 ==> #[trigger] lane(spec_u128_from_le_bytes(chunk(new, c)), j)
            == if masking { masked_sample(f, lane(spec_u128_from_le_bytes(chunk(old, c)), j)) }
               else { right_aligned_sample(f, lane(spec_u128_from_le_bytes(chunk(old, c)), j)) },
{
    vstd::bytes::lemma_auto_spec_u128_to_from_le_bytes();
    assert forall|c: int, j: u128| 0 <= c < upto && j < 8 implies #[trigger] lane(spec_u128_from_le_bytes(chunk(new, c)), j)
        == if masking { masked_sample(f, lane(spec_u128_from_le_bytes(chunk(old, c)), j)) }
           else { right_aligned_sample(f, lane(spec_u128_from_le_bytes(chunk(old, c)), j)) } by {
        let w = spec_u128_from_le_bytes(chunk(old, c));
        let out = if masking { spec_mask_word(f, w) } else { spec_format_word(f, w) };
        assert(chunk(new, c) == spec_u128_to_le_bytes(out));
        assert(spec_u128_from_le_bytes(spec_u128_to_le_bytes(out)) == out);
        lemma_word_lanes(f, w, j);
    }
}

} // verus!
