//! SECDED error-correcting blocks over the `secded` crate.

use vstd::prelude::*;
use secded::{secded7264, SecDed128, SecDed64, SecDedCodec};

pub use crate::healed::level::ProtectionLevel;

verus! {

/// One code word; its width depends on the protection level.
#[derive(Debug, Clone, Copy, PartialEq, Eq, Structural)]
pub enum EncodedBlock {
    High(u16),
    Medium(u64),
    Low(u128),
}

/// Errors of ECC encoding and decoding.
#[derive(Debug, Clone, Copy, PartialEq, Eq, Structural)]
pub enum EccError {
    /// The blocks mix protection levels.
    InconsistentLevel,
    /// A block holds an error that cannot be corrected.
    Uncorrectable,
    /// The input length is not a multiple of the level's block size.
    InvalidLength,
}

// ─────────────────────────────────────────
//  The secded codecs
// ─────────────────────────────────────────

/// Parity byte that `secded::secded7264::encode` computes for a 64-bit
/// word whose low byte is the argument and whose other bytes are 0.
pub uninterp spec fn spec_secded7264_parity(byte: u8) -> u8;

/// Low byte of the word after `secded::secded7264::decode` of the word with
/// low byte `byte` (other bytes 0) against `parity`; `None` when it reports an
/// uncorrectable error.
pub uninterp spec fn spec_secded7264_decode(byte: u8, parity: u8) -> Option<u8>;

/// The 64-bit code word `SecDed64::new(57).encode` makes of `word`
/// (big-endian buffer, low 7 bits zero).
pub uninterp spec fn spec_secded64_encode(word: u64) -> u64;

/// The word `SecDed64::new(57).decode` leaves in a big-endian buffer holding
/// `word`; `None` when it reports an uncorrectable error.
pub uninterp spec fn spec_secded64_decode(word: u64) -> Option<u64>;

/// The 128-bit code word `SecDed128::new(120).encode` makes of `word`
/// (big-endian buffer, low 8 bits zero).
pub uninterp spec fn spec_secded128_encode(word: u128) -> u128;

/// The word `SecDed128::new(120).decode` leaves in a big-endian buffer
/// holding `word`; `None` when it reports an uncorrectable error.
pub uninterp spec fn spec_secded128_decode(word: u128) -> Option<u128>;

/// Parity (0 or 1) of the number of set bits of `x`.
pub open spec fn parity8(x: u8) -> u8 {
    (x ^ (x >> 1u8) ^ (x >> 2u8) ^ (x >> 3u8) ^ (x >> 4u8) ^ (x >> 5u8) ^ (x >> 6u8) ^ (x >> 7u8)) & 1u8
}

/// The syndrome `secded7264::decode` computes for the word whose low byte is
/// `byte` (other bytes 0) against `parity`: bit `i` is set when the parity of
/// the data under check mask `i` differs from bit `i` of `parity`. Only the
/// low bytes of the crate's seven masks meet such a word: 0x5b, 0x6d, 0x8e,
/// 0xf0, 0, 0, 0.
pub open spec fn spec_secded7264_syndrome(byte: u8, parity: u8) -> u8 {
    ((parity8(byte & 0x5bu8) ^ (parity & 1u8))
        | ((parity8(byte & 0x6du8) ^ ((parity >> 1u8) & 1u8)) << 1u8)
        | ((parity8(byte & 0x8eu8) ^ ((parity >> 2u8) & 1u8)) << 2u8)
        | ((parity8(byte & 0xf0u8) ^ ((parity >> 3u8) & 1u8)) << 3u8)
        | (((parity >> 4u8) & 1u8) << 4u8)
        | (((parity >> 5u8) & 1u8) << 5u8)
        | (((parity >> 6u8) & 1u8) << 6u8)) as u8
}

/// `secded7264::decode` of such a word would shift a `u64` by 64 or more
/// (and panic where overflow checks are on): the overall parity is wrong and
/// the syndrome points past the 64 data bits (a syndrome of 72 or more).
pub open spec fn spec_secded7264_panics(byte: u8, parity: u8) -> bool {
    spec_secded7264_syndrome(byte, parity) >= 72 && parity8(byte) != ((parity >> 7u8) & 1u8)
}

/// Whether decoding `byte` against `parity` would run the decoder past its
/// data bits; such a word carries more than one error.
pub fn secded7264_out_of_range(byte: u8, parity: u8) -> (r: bool)
    ensures
        r == spec_secded7264_panics(byte, parity),
{
    let p0: u8 = (byte & 0x5b) ^ ((byte & 0x5b) >> 1) ^ ((byte & 0x5b) >> 2) ^ ((byte & 0x5b) >> 3)
        ^ ((byte & 0x5b) >> 4) ^ ((byte & 0x5b) >> 5) ^ ((byte & 0x5b) >> 6) ^ ((byte & 0x5b) >> 7);
    let p1: u8 = (byte & 0x6d) ^ ((byte & 0x6d) >> 1) ^ ((byte & 0x6d) >> 2) ^ ((byte & 0x6d) >> 3)
        ^ ((byte & 0x6d) >> 4) ^ ((byte & 0x6d) >> 5) ^ ((byte & 0x6d) >> 6) ^ ((byte & 0x6d) >> 7);
    let p2: u8 = (byte & 0x8e) ^ ((byte & 0x8e) >> 1) ^ ((byte & 0x8e) >> 2) ^ ((byte & 0x8e) >> 3)
        ^ ((byte & 0x8e) >> 4) ^ ((byte & 0x8e) >> 5) ^ ((byte & 0x8e) >> 6) ^ ((byte & 0x8e) >> 7);
    let p3: u8 = (byte & 0xf0) ^ ((byte & 0xf0) >> 1) ^ ((byte & 0xf0) >> 2) ^ ((byte & 0xf0) >> 3)
        ^ ((byte & 0xf0) >> 4) ^ ((byte & 0xf0) >> 5) ^ ((byte & 0xf0) >> 6) ^ ((byte & 0xf0) >> 7);
    let all: u8 = byte ^ (byte >> 1) ^ (byte >> 2) ^ (byte >> 3) ^ (byte >> 4) ^ (byte >> 5) ^ (byte >> 6) ^ (byte >> 7);
    let syndrome: u8 = (((p0 & 1) ^ (parity & 1))
        | (((p1 & 1) ^ ((parity >> 1) & 1)) << 1)
        | (((p2 & 1) ^ ((parity >> 2) & 1)) << 2)
        | (((p3 & 1) ^ ((parity >> 3) & 1)) << 3)
        | (((parity >> 4) & 1) << 4)
        | (((parity >> 5) & 1) << 5)
        | (((parity >> 6) & 1) << 6)) as u8;
    syndrome >= 72 && (all & 1) != ((parity >> 7) & 1)
}

/// Parity of `secded7264::encode([byte, 0, 0, 0, 0, 0, 0, 0])`.
///
/// Trusted: the crate documents that `decode` accepts data with its own
/// parity unchanged, corrects a single flipped data bit and reports two
/// flipped data bits as an error; these facts are stated for the low byte,
/// which is all the encoder fills. In the first two cases the syndrome is 0
/// or names the flipped data bit, so `decode` stays within its data bits.
#[verifier::external_body]
fn secded7264_parity(byte: u8) -> (r: u8)
    ensures
        r == spec_secded7264_parity(byte),
        spec_secded7264_decode(byte, r) == Some(byte),
        !spec_secded7264_panics(byte, r),
        forall|k: u32| k < 8 ==> spec_secded7264_decode(#[trigger] (byte ^ (1u8 << k)), r) == Some(byte),
        forall|k: u32| k < 8 ==> !spec_secded7264_panics(#[trigger] (byte ^ (1u8 << k)), r),
        forall|a: u32, b: u32| a < 8 && b < 8 && a != b
            ==> spec_secded7264_decode(#[trigger] (byte ^ (1u8 << a) ^ (1u8 << b)), r) is None,
{
    let mut raw = [0u8; 8];
    raw[0] = byte;
    secded7264::encode(raw)
}

/// `secded7264::decode` of `[byte, 0, .., 0]` against `parity`, returning the
/// corrected low byte. Trusted only for naming its result. Words on which
/// the decoder would shift past its data bits are left out.
#[verifier::external_body]
fn secded7264_correct(byte: u8, parity: u8) -> (r: Option<u8>)
    requires
        !spec_secded7264_panics(byte, parity),
    ensures
        r == spec_secded7264_decode(byte, parity),
{
    let mut decoded = [0u8; 8];
    decoded[0] = byte;
    match secded7264::decode(&mut decoded, parity) {
        Ok(()) => Some(decoded[0]),
        Err(()) => None,
    }
}

/// `SecDed64::new(57).encode` of the big-endian bytes of `word`, whose low
/// 7 bits (the code bits) must be zero (the encoder panics otherwise).
///
/// Trusted facts from the crate's source and documentation: the code
/// occupies the low 7 bits only; `decode` of the code word, or of the code
/// word with any single bit flipped, succeeds and yields `word`.
#[verifier::external_body]
fn secded64_encode(word: u64) -> (r: u64)
    requires
        word % 128 == 0,
    ensures
        r == spec_secded64_encode(word),
        r / 128 == word / 128,
        spec_secded64_decode(r) == Some(word),
        forall|i: u32| i < 64 ==> spec_secded64_decode(#[trigger] (r ^ (1u64 << i))) == Some(word),
{
    let codec = SecDed64::new(57);
    let mut encoded = word.to_be_bytes();
    codec.encode(&mut encoded);
    u64::from_be_bytes(encoded)
}

/// `SecDed64::new(57).decode` of the big-endian bytes of `word`.
#[verifier::external_body]
fn secded64_decode(word: u64) -> (r: Option<u64>)
    ensures
        r == spec_secded64_decode(word),
{
    let codec = SecDed64::new(57);
    let mut decoded = word.to_be_bytes();
    match codec.decode(&mut decoded) {
        Ok(()) => Some(u64::from_be_bytes(decoded)),
        Err(()) => None,
    }
}

/// `SecDed128::new(120).encode` of the big-endian bytes of `word`, whose low
/// 8 bits must be zero (the encoder panics otherwise).
///
/// Trusted facts from the crate's source and documentation: the code
/// occupies the low 8 bits only; `decode` of the code word, or of the code
/// word with any single bit flipped, succeeds and yields `word`.
#[verifier::external_body]
pub(crate) fn secded128_encode(word: u128) -> (r: u128)
    requires
        word % 256 == 0,
    ensures
        r == spec_secded128_encode(word),
        r / 256 == word / 256,
        spec_secded128_decode(r) == Some(word),
        forall|i: u32| i < 128 ==> spec_secded128_decode(#[trigger] (r ^ (1u128 << i))) == Some(word),
{
    let codec = SecDed128::new(120);
    let mut encoded = word.to_be_bytes();
    codec.encode(&mut encoded);
    u128::from_be_bytes(encoded)
}

/// `SecDed128::new(120).decode` of the big-endian bytes of `word`.
#[verifier::external_body]
pub(crate) fn secded128_decode(word: u128) -> (r: Option<u128>)
    ensures
        r == spec_secded128_decode(word),
{
    let codec = SecDed128::new(120);
    let mut decoded = word.to_be_bytes();
    match codec.decode(&mut decoded) {
        Ok(()) => Some(u128::from_be_bytes(decoded)),
        Err(()) => None,
    }
}

// ─────────────────────────────────────────
//  Big-endian words
// ─────────────────────────────────────────

/// Big-endian value of 4 bytes.
pub open spec fn be32(s: Seq<u8>) -> u32 {
    ((s[0] as u32) << 24u32) | ((s[1] as u32) << 16u32) | ((s[2] as u32) << 8u32) | (s[3] as u32)
}

/// Big-endian bytes of a `u32`.
pub open spec fn be32_bytes(x: u32) -> Seq<u8> {
    seq![(x >> 24u32) as u8, (x >> 16u32) as u8, (x >> 8u32) as u8, x as u8]
}

/// Big-endian value of 8 bytes.
pub open spec fn be64(s: Seq<u8>) -> u64 {
    ((be32(s.subrange(0, 4)) as u64) << 32u64) | (be32(s.subrange(4, 8)) as u64)
}

/// Big-endian bytes of a `u64`.
pub open spec fn be64_bytes(x: u64) -> Seq<u8> {
    be32_bytes((x >> 32u64) as u32) + be32_bytes(x as u32)
}

proof fn lemma_be32_roundtrip(s: Seq<u8>)
    requires
        s.len() == 4,
    ensures
        be32_bytes(be32(s)) == s,
{
    let (a, b, c, d) = (s[0], s[1], s[2], s[3]);
    let x = be32(s);
    assert(((((a as u32) << 24u32) | ((b as u32) << 16u32) | ((c as u32) << 8u32) | (d as u32)) >> 24u32) as u8 == a) by (bit_vector);
    assert(((((a as u32) << 24u32) | ((b as u32) << 16u32) | ((c as u32) << 8u32) | (d as u32)) >> 16u32) as u8 == b) by (bit_vector);
    assert(((((a as u32) << 24u32) | ((b as u32) << 16u32) | ((c as u32) << 8u32) | (d as u32)) >> 8u32) as u8 == c) by (bit_vector);
    assert((((a as u32) << 24u32) | ((b as u32) << 16u32) | ((c as u32) << 8u32) | (d as u32)) as u8 == d) by (bit_vector);
    assert(be32_bytes(x) =~= s);
}

proof fn lemma_be64_roundtrip(s: Seq<u8>)
    requires
        s.len() == 8,
    ensures
        be64_bytes(be64(s)) == s,
{
    let hi = be32(s.subrange(0, 4));
    let lo = be32(s.subrange(4, 8));
    assert(((((hi as u64) << 32u64) | (lo as u64)) >> 32u64) as u32 == hi) by (bit_vector);
    assert((((hi as u64) << 32u64) | (lo as u64)) as u32 == lo) by (bit_vector);
    lemma_be32_roundtrip(s.subrange(0, 4));
    lemma_be32_roundtrip(s.subrange(4, 8));
    assert(be64_bytes(be64(s)) =~= s);
}

fn read_be32(s: &[u8], at: usize) -> (r: u32)
    requires
        at + 4 <= s.len(),
    ensures
        r == be32(s@.subrange(at as int, at + 4)),
{
    ((s[at] as u32) << 24) | ((s[at + 1] as u32) << 16) | ((s[at + 2] as u32) << 8) | (s[at + 3] as u32)
}

fn read_be64(s: &[u8], at: usize) -> (r: u64)
    requires
        at + 8 <= s.len(),
    ensures
        r == be64(s@.subrange(at as int, at + 8)),
{
    let hi = read_be32(s, at);
    let lo = read_be32(s, at + 4);
    assert(s@.subrange(at as int, at + 8).subrange(0, 4) =~= s@.subrange(at as int, at + 4));
    assert(s@.subrange(at as int, at + 8).subrange(4, 8) =~= s@.subrange(at + 4, at + 8));
    ((hi as u64) << 32) | (lo as u64)
}

fn push_be32(out: &mut Vec<u8>, x: u32)
    ensures
        final(out)@ == old(out)@ + be32_bytes(x),
{
    out.push((x >> 24) as u8);
    out.push((x >> 16) as u8);
    out.push((x >> 8) as u8);
    out.push(x as u8);
    assert(final(out)@ =~= old(out)@ + be32_bytes(x));
}

fn push_be64(out: &mut Vec<u8>, x: u64)
    ensures
        final(out)@ == old(out)@ + be64_bytes(x),
{
    push_be32(out, (x >> 32) as u32);
    push_be32(out, x as u32);
    assert(final(out)@ =~= old(out)@ + be64_bytes(x));
}

// ─────────────────────────────────────────
//  Encoding and decoding
// ─────────────────────────────────────────

/// Bytes per data block of a level.
pub open spec fn spec_block_size(level: ProtectionLevel) -> nat {
    match level {
        ProtectionLevel::High => 1,
        ProtectionLevel::Medium => 4,
        ProtectionLevel::Low => 8,
    }
}

/// The code word of data block `k` of `data`.
pub open spec fn spec_encode_block(data: Seq<u8>, level: ProtectionLevel, k: int) -> EncodedBlock {
    match level {
        ProtectionLevel::High => EncodedBlock::High(
            (data[k] as u16 | ((spec_secded7264_parity(data[k]) as u16) << 8u16)) as u16),
        ProtectionLevel::Medium => EncodedBlock::Medium(spec_secded64_encode(
            ((be32(data.subrange(4 * k, 4 * k + 4)) as u64) * 0x1_0000_0000) as u64)),
        ProtectionLevel::Low => EncodedBlock::Low(spec_secded128_encode(
            ((be64(data.subrange(8 * k, 8 * k + 8)) as u128) * 0x1_0000_0000_0000_0000) as u128)),
    }
}

/// Encoding of `data` into code words.
pub open spec fn spec_ecc_encode(data: Seq<u8>, level: ProtectionLevel) -> Result<Seq<EncodedBlock>, EccError> {
    let bs = spec_block_size(level);
    if data.len() % bs != 0 {
        Err(EccError::InvalidLength)
    } else {
        Ok(Seq::new(data.len() / bs, |k: int| spec_encode_block(data, level, k)))
    }
}

/// The bytes one code word decodes to, at the level of the first block.
pub open spec fn spec_decode_block(level: ProtectionLevel, b: EncodedBlock) -> Result<Seq<u8>, EccError> {
    match (level, b) {
        (ProtectionLevel::High, EncodedBlock::High(v)) => if spec_secded7264_panics((v % 256) as u8, (v / 256) as u8) {
            Err(EccError::Uncorrectable)
        } else {
            match spec_secded7264_decode((v % 256) as u8, (v / 256) as u8) {
                Some(x) => Ok(seq![x]),
                None => Err(EccError::Uncorrectable),
            }
        },
        (ProtectionLevel::Medium, EncodedBlock::Medium(v)) => match spec_secded64_decode(v) {
            Some(w) => Ok(be32_bytes((w / 0x1_0000_0000) as u32)),
            None => Err(EccError::Uncorrectable),
        },
        (ProtectionLevel::Low, EncodedBlock::Low(v)) => match spec_secded128_decode(v) {
            Some(w) => Ok(be64_bytes((w / 0x1_0000_0000_0000_0000) as u64)),
            None => Err(EccError::Uncorrectable),
        },
        _ => Err(EccError::InconsistentLevel),
    }
}

/// Decoding of the first `k` blocks; the first failing block decides the error.
pub open spec fn spec_decode_prefix(blocks: Seq<EncodedBlock>, level: ProtectionLevel, k: nat) -> Result<Seq<u8>, EccError>
    decreases k,
{
    if k == 0 {
        Ok(Seq::empty())
    } else {
        match spec_decode_prefix(blocks, level, (k - 1) as nat) {
            Err(e) => Err(e),
            Ok(acc) => match spec_decode_block(level, blocks[k - 1]) {
                Err(e) => Err(e),
                Ok(bytes) => Ok(acc + bytes),
            },
        }
    }
}

/// The level a block belongs to.
pub open spec fn block_level(b: EncodedBlock) -> ProtectionLevel {
    match b {
        EncodedBlock::High(_) => ProtectionLevel::High,
        EncodedBlock::Medium(_) => ProtectionLevel::Medium,
        EncodedBlock::Low(_) => ProtectionLevel::Low,
    }
}

/// Decoding of code words at the level of the first one.
pub open spec fn spec_ecc_decode(blocks: Seq<EncodedBlock>) -> Result<Seq<u8>, EccError> {
    if blocks.len() == 0 {
        Ok(Seq::empty())
    } else {
        spec_decode_prefix(blocks, block_level(blocks[0]), blocks.len())
    }
}

/// The code word `b` with bit `i` flipped.
pub open spec fn flip_bit(b: EncodedBlock, i: u32) -> EncodedBlock {
    match b {
        EncodedBlock::High(v) => EncodedBlock::High(v ^ (1u16 << i)),
        EncodedBlock::Medium(v) => EncodedBlock::Medium(v ^ (1u64 << i)),
        EncodedBlock::Low(v) => EncodedBlock::Low(v ^ (1u128 << i)),
    }
}

/// The bits of a code word whose single flip decoding repairs: the data
/// byte of a High word, every bit of a Medium or Low word.
pub open spec fn correctable_bit(b: EncodedBlock, i: u32) -> bool {
    match b {
        EncodedBlock::High(_) => i < 8,
        EncodedBlock::Medium(_) => i < 64,
        EncodedBlock::Low(_) => i < 128,
    }
}

/// Data block `k` of `data` at `level`.
pub open spec fn data_chunk(data: Seq<u8>, level: ProtectionLevel, k: int) -> Seq<u8> {
    data.subrange(spec_block_size(level) * k, spec_block_size(level) * k + spec_block_size(level))
}

/// `b` is a code word of level `level` that decodes to `chunk`, also after
/// any single correctable bit flip.
pub open spec fn block_protects(b: EncodedBlock, level: ProtectionLevel, chunk: Seq<u8>) -> bool {
    &&& block_level(b) == level
    &&& spec_decode_block(level, b) == Ok::<Seq<u8>, EccError>(chunk)
    &&& forall|i: u32| correctable_bit(b, i) ==> spec_decode_block(level, #[trigger] flip_bit(b, i)) == Ok::<Seq<u8>, EccError>(chunk)
}

proof fn lemma_decode_prefix_chunks(blocks: Seq<EncodedBlock>, data: Seq<u8>, level: ProtectionLevel, k: nat)
    requires
        k <= blocks.len(),
        data.len() == spec_block_size(level) * blocks.len(),
        forall|j: int| 0 <= j < k ==> spec_decode_block(level, #[trigger] blocks[j]) == Ok::<Seq<u8>, EccError>(data_chunk(data, level, j)),
    ensures
        spec_decode_prefix(blocks, level, k) == Ok::<Seq<u8>, EccError>(data.subrange(0, (spec_block_size(level) * k) as int)),
    decreases k,
{
    let bs = spec_block_size(level);
    if k == 0 {
        assert(data.subrange(0, 0) =~= Seq::<u8>::empty());
    } else {
        lemma_decode_prefix_chunks(blocks, data, level, (k - 1) as nat);
        assert(spec_decode_block(level, blocks[k - 1]) == Ok::<Seq<u8>, EccError>(data_chunk(data, level, k - 1)));
        assert(bs * (k - 1) + bs == bs * k) by (nonlinear_arith);
        assert(bs * k <= bs * blocks.len()) by (nonlinear_arith) requires k <= blocks.len();
        assert(data.subrange(0, bs * (k - 1)) + data_chunk(data, level, k - 1) =~= data.subrange(0, (bs * k) as int));
    }
}

/// Decoding `blocks`, each of which protects its data block, yields `data`,
/// also after one correctable bit flip in any one block.
proof fn lemma_protected_blocks_decode(blocks: Seq<EncodedBlock>, data: Seq<u8>, level: ProtectionLevel)
    requires
        data.len() == spec_block_size(level) * blocks.len(),
        forall|j: int| 0 <= j < blocks.len() ==> block_protects(#[trigger] blocks[j], level, data_chunk(data, level, j)),
    ensures
        spec_ecc_decode(blocks) == Ok::<Seq<u8>, EccError>(data),
        forall|j: int, i: u32| 0 <= j < blocks.len() && correctable_bit(blocks[j], i) ==>
            spec_ecc_decode(#[trigger] blocks.update(j, flip_bit(blocks[j], i))) == Ok::<Seq<u8>, EccError>(data),
{
    let bs = spec_block_size(level);
    assert(data.subrange(0, (bs * blocks.len()) as int) =~= data);
    if blocks.len() > 0 {
        assert(block_protects(blocks[0], level, data_chunk(data, level, 0)));
        assert forall|j: int| 0 <= j < blocks.len() implies spec_decode_block(level, #[trigger] blocks[j]) == Ok::<Seq<u8>, EccError>(data_chunk(data, level, j)) by {
            assert(block_protects(blocks[j], level, data_chunk(data, level, j)));
        }
        lemma_decode_prefix_chunks(blocks, data, level, blocks.len());
    } else {
        assert(data =~= Seq::<u8>::empty());
    }
    assert forall|j: int, i: u32| 0 <= j < blocks.len() && correctable_bit(blocks[j], i) implies
        spec_ecc_decode(#[trigger] blocks.update(j, flip_bit(blocks[j], i))) == Ok::<Seq<u8>, EccError>(data) by {
        let fb = blocks.update(j, flip_bit(blocks[j], i));
        assert(block_protects(blocks[j], level, data_chunk(data, level, j)));
        assert(block_protects(blocks[0], level, data_chunk(data, level, 0)));
        assert(block_level(flip_bit(blocks[j], i)) == level);
        assert(block_level(fb[0]) == level);
        assert forall|m: int| 0 <= m < fb.len() implies spec_decode_block(level, #[trigger] fb[m]) == Ok::<Seq<u8>, EccError>(data_chunk(data, level, m)) by {
            assert(block_protects(blocks[m], level, data_chunk(data, level, m)));
        }
        lemma_decode_prefix_chunks(fb, data, level, fb.len());
    }
}

/// The code word `b` with bits `a` and `c` flipped.
pub open spec fn flip_two_bits(b: EncodedBlock, a: u32, c: u32) -> EncodedBlock {
    flip_bit(flip_bit(b, a), c)
}

/// A High code word reports two flipped data bits as uncorrectable.
pub open spec fn detects_double(b: EncodedBlock) -> bool {
    b is High ==> forall|a: u32, c: u32| a < 8 && c < 8 && a != c
        ==> spec_decode_block(ProtectionLevel::High, #[trigger] flip_two_bits(b, a, c))
            == Err::<Seq<u8>, EccError>(EccError::Uncorrectable)
}

proof fn lemma_double_flip_detected(blocks: Seq<EncodedBlock>, data: Seq<u8>, j: int, a: u32, c: u32)
    requires
        0 <= j < blocks.len(),
        data.len() == blocks.len(),
        forall|m: int| 0 <= m < blocks.len() ==> block_protects(#[trigger] blocks[m], ProtectionLevel::High,
            data_chunk(data, ProtectionLevel::High, m)),
        detects_double(blocks[j]),
        a < 8 && c < 8 && a != c,
    ensures
        spec_ecc_decode(blocks.update(j, flip_two_bits(blocks[j], a, c)))
            == Err::<Seq<u8>, EccError>(EccError::Uncorrectable),
{
    let level = ProtectionLevel::High;
    let fb = blocks.update(j, flip_two_bits(blocks[j], a, c));
    assert(block_protects(blocks[j], level, data_chunk(data, level, j)));
    assert(blocks[j] is High);
    assert(fb[j] is High);
    assert(block_protects(blocks[0], level, data_chunk(data, level, 0)));
    assert(block_level(fb[0]) == level);
    assert forall|m: int| 0 <= m < j implies spec_decode_block(level, #[trigger] fb[m])
        == Ok::<Seq<u8>, EccError>(data_chunk(data, level, m)) by {
        assert(block_protects(blocks[m], level, data_chunk(data, level, m)));
    }
    lemma_decode_prefix_chunks(fb, data, level, j as nat);
    assert(spec_decode_block(level, fb[j]) == Err::<Seq<u8>, EccError>(EccError::Uncorrectable));
    assert(spec_decode_prefix(fb, level, (j + 1) as nat) == Err::<Seq<u8>, EccError>(EccError::Uncorrectable));
    lemma_decode_prefix_error_sticks(fb, level, (j + 1) as nat, fb.len());
}

proof fn lemma_high_word_two(byte: u8, parity: u8, v: u16, a: u32, c: u32)
    requires
        v == (byte as u16) | ((parity as u16) << 8u16),
        a < 8,
        c < 8,
    ensures
        (((v ^ (1u16 << a)) ^ (1u16 << c)) % 256) as u8 == byte ^ (1u8 << a) ^ (1u8 << c),
        (((v ^ (1u16 << a)) ^ (1u16 << c)) / 256) as u8 == parity,
{
    assert((((v ^ (1u16 << a)) ^ (1u16 << c)) % 256) as u8 == byte ^ (1u8 << a) ^ (1u8 << c)
        && (((v ^ (1u16 << a)) ^ (1u16 << c)) / 256) as u8 == parity) by (bit_vector)
        requires v == (byte as u16) | ((parity as u16) << 8u16), a < 8u32, c < 8u32;
}

proof fn lemma_high_word(byte: u8, parity: u8, v: u16, k: u32)
    requires
        v == (byte as u16) | ((parity as u16) << 8u16),
        k < 8,
    ensures
        (v % 256) as u8 == byte,
        (v / 256) as u8 == parity,
        ((v ^ (1u16 << k)) % 256) as u8 == byte ^ (1u8 << k),
        ((v ^ (1u16 << k)) / 256) as u8 == parity,
{
    assert((v % 256) as u8 == byte && (v / 256) as u8 == parity
        && ((v ^ (1u16 << k)) % 256) as u8 == byte ^ (1u8 << k)
        && ((v ^ (1u16 << k)) / 256) as u8 == parity) by (bit_vector)
        requires v == (byte as u16) | ((parity as u16) << 8u16), k < 8;
}

/// Encodes `data` at `level`; Medium and Low need a length that is a
/// multiple of 4 and 8 bytes respectively.
///
/// What comes out decodes back to `data`, and still does after any single
/// correctable bit of any one code word is flipped.
pub fn encode(data: &[u8], level: ProtectionLevel) -> (r: Result<Vec<EncodedBlock>, EccError>)
    ensures
        match spec_ecc_encode(data@, level) {
            Ok(blocks) => r matches Ok(v) && v@ == blocks,
            Err(e) => r == Err::<Vec<EncodedBlock>, EccError>(e),
        },
        r matches Ok(v) ==> spec_ecc_decode(v@) == Ok::<Seq<u8>, EccError>(data@),
        r matches Ok(v) ==> forall|j: int, i: u32| 0 <= j < v@.len() && correctable_bit(v@[j], i) ==>
            spec_ecc_decode(#[trigger] v@.update(j, flip_bit(v@[j], i))) == Ok::<Seq<u8>, EccError>(data@),
        level == ProtectionLevel::High ==> (r matches Ok(v) ==> forall|j: int, a: u32, c: u32|
            0 <= j < v@.len() && a < 8 && c < 8 && a != c ==>
            spec_ecc_decode(#[trigger] v@.update(j, flip_two_bits(v@[j], a, c)))
                == Err::<Seq<u8>, EccError>(EccError::Uncorrectable)),
{
    let bs: usize = match level {
        ProtectionLevel::High => 1,
        ProtectionLevel::Medium => 4,
        ProtectionLevel::Low => 8,
    };
    if data.len() % bs != 0 {
        return Err(EccError::InvalidLength);
    }
    let n = data.len() / bs;
    let mut blocks: Vec<EncodedBlock> = Vec::with_capacity(n);
    let mut k: usize = 0;
    while k < n
        invariant
            bs == spec_block_size(level),
            n == data.len() / bs,
            data.len() % bs == 0,
            0 <= k <= n,
            blocks@ == Seq::new(k as nat, |j: int| spec_encode_block(data@, level, j)),
            forall|j: int| 0 <= j < k ==> block_protects(#[trigger] blocks@[j], level, data_chunk(data@, level, j)),
            forall|j: int| 0 <= j < k ==> detects_double(#[trigger] blocks@[j]),
        decreases n - k,
    {
        let ghost len: int = data@.len() as int;
        assert(k * bs + bs <= len) by (nonlinear_arith)
            requires k < n, n == len / (bs as int), len % (bs as int) == 0, bs >= 1;
        let ghost chunk = data_chunk(data@, level, k as int);
        let block = match level {
            ProtectionLevel::High => {
                let byte = data[k];
                let parity = secded7264_parity(byte);
                let v: u16 = (byte as u16) | ((parity as u16) << 8);
                proof {
                    lemma_high_word(byte, parity, v, 0);
                    assert(chunk =~= seq![byte]);
                    let b = EncodedBlock::High(v);
                    assert forall|i: u32| correctable_bit(b, i) implies spec_decode_block(level, #[trigger] flip_bit(b, i))
                        == Ok::<Seq<u8>, EccError>(chunk) by {
                        lemma_high_word(byte, parity, v, i);
                    }
                    assert forall|a: u32, c: u32| a < 8 && c < 8 && a != c implies
                        spec_decode_block(ProtectionLevel::High, #[trigger] flip_two_bits(b, a, c))
                            == Err::<Seq<u8>, EccError>(EccError::Uncorrectable) by {
                        lemma_high_word_two(byte, parity, v, a, c);
                        assert(spec_secded7264_decode(byte ^ (1u8 << a) ^ (1u8 << c), parity) is None);
                    }
                    assert(detects_double(b));
                }
                EncodedBlock::High(v)
            },
            ProtectionLevel::Medium => {
                assert(chunk.len() == 4);
                let w = read_be32(data, 4 * k);
                let word: u64 = (w as u64) << 32;
                assert(word == ((w as u64) * 0x1_0000_0000) as u64 && word % 128 == 0) by (bit_vector)
                    requires word == (w as u64) << 32u64;
                let r = secded64_encode(word);
                proof {
                    let full: u64 = word;
                    assert((full / 0x1_0000_0000) as u32 == w) by (bit_vector)
                        requires full == ((w as u64) * 0x1_0000_0000) as u64;
                    lemma_be32_roundtrip(chunk);
                    let b = EncodedBlock::Medium(r);
                    assert forall|i: u32| correctable_bit(b, i) implies spec_decode_block(level, #[trigger] flip_bit(b, i))
                        == Ok::<Seq<u8>, EccError>(chunk) by {
                        assert(spec_secded64_decode(r ^ (1u64 << i)) == Some(full));
                    }
                }
                EncodedBlock::Medium(r)
            },
            ProtectionLevel::Low => {
                assert(bs == 8);
                assert(k * bs == 8 * k) by (nonlinear_arith) requires bs == 8;
                assert(chunk.len() == 8);
                let w = read_be64(data, 8 * k);
                let word: u128 = (w as u128) << 64;
                assert(word == ((w as u128) * 0x1_0000_0000_0000_0000) as u128 && word % 256 == 0
                    && (word / 0x1_0000_0000_0000_0000) as u64 == w) by (bit_vector)
                    requires word == (w as u128) << 64u128;
                let r = secded128_encode(word);
                proof {
                    lemma_be64_roundtrip(chunk);
                    let b = EncodedBlock::Low(r);
                    assert forall|i: u32| correctable_bit(b, i) implies spec_decode_block(level, #[trigger] flip_bit(b, i))
                        == Ok::<Seq<u8>, EccError>(chunk) by {
                        assert(spec_secded128_decode(r ^ (1u128 << i)) == Some(word));
                    }
                }
                EncodedBlock::Low(r)
            },
        };
        assert(block_protects(block, level, chunk));
        blocks.push(block);
        k += 1;
        assert(blocks@ =~= Seq::new(k as nat, |j: int| spec_encode_block(data@, level, j)));
    }
    proof {
        assert(data@.len() == spec_block_size(level) * blocks@.len()) by (nonlinear_arith)
            requires n == data.len() / bs, data.len() % bs == 0, bs >= 1, blocks@.len() == n, bs == spec_block_size(level);
        lemma_protected_blocks_decode(blocks@, data@, level);
        if level == ProtectionLevel::High {
            assert forall|j: int, a: u32, c: u32| 0 <= j < blocks@.len() && a < 8 && c < 8 && a != c implies
                spec_ecc_decode(#[trigger] blocks@.update(j, flip_two_bits(blocks@[j], a, c)))
                    == Err::<Seq<u8>, EccError>(EccError::Uncorrectable) by {
                assert(detects_double(blocks@[j]));
                lemma_double_flip_detected(blocks@, data@, j, a, c);
            }
        }
    }
    Ok(blocks)
}

fn decode_block(level: ProtectionLevel, block: EncodedBlock, out: &mut Vec<u8>) -> (r: Result<(), EccError>)
    ensures
        match spec_decode_block(level, block) {
            Ok(bytes) => r is Ok && final(out)@ == old(out)@ + bytes,
            Err(e) => r == Err::<(), EccError>(e),
        },
{
    match (level, block) {
        (ProtectionLevel::High, EncodedBlock::High(v)) => {
            let data = (v % 256) as u8;
            let parity = (v / 256) as u8;
            if secded7264_out_of_range(data, parity) {
                return Err(EccError::Uncorrectable);
            }
            match secded7264_correct(data, parity) {
                Some(x) => {
                    out.push(x);
                    Ok(())
                },
                None => Err(EccError::Uncorrectable),
            }
        },
        (ProtectionLevel::Medium, EncodedBlock::Medium(v)) => match secded64_decode(v) {
            Some(w) => {
                push_be32(out, (w / 0x1_0000_0000) as u32);
                Ok(())
            },
            None => Err(EccError::Uncorrectable),
        },
        (ProtectionLevel::Low, EncodedBlock::Low(v)) => match secded128_decode(v) {
            Some(w) => {
                push_be64(out, (w / 0x1_0000_0000_0000_0000) as u64);
                Ok(())
            },
            None => Err(EccError::Uncorrectable),
        },
        _ => Err(EccError::InconsistentLevel),
    }
}

/// Decodes code words, correcting single-bit errors; all blocks must have
/// the level of the first one.
pub fn decode(blocks: &[EncodedBlock]) -> (r: Result<Vec<u8>, EccError>)
    ensures
        match spec_ecc_decode(blocks@) {
            Ok(bytes) => r matches Ok(v) && v@ == bytes,
            Err(e) => r == Err::<Vec<u8>, EccError>(e),
        },
{
    let mut out: Vec<u8> = Vec::new();
    if blocks.len() == 0 {
        return Ok(out);
    }
    let level = match blocks[0] {
        EncodedBlock::High(_) => ProtectionLevel::High,
        EncodedBlock::Medium(_) => ProtectionLevel::Medium,
        EncodedBlock::Low(_) => ProtectionLevel::Low,
    };
    let mut k: usize = 0;
    while k < blocks.len()
        invariant
            0 <= k <= blocks@.len(),
            blocks@.len() > 0,
            level == block_level(blocks@[0]),
            spec_decode_prefix(blocks@, level, k as nat) == Ok::<Seq<u8>, EccError>(out@),
        decreases blocks@.len() - k,
    {
        match decode_block(level, blocks[k], &mut out) {
            Ok(()) => {},
            Err(e) => {
                proof { lemma_decode_prefix_error_sticks(blocks@, level, (k + 1) as nat, blocks@.len()); }
                return Err(e);
            },
        }
        k += 1;
    }
    Ok(out)
}

proof fn lemma_decode_prefix_error_sticks(blocks: Seq<EncodedBlock>, level: ProtectionLevel, k: nat, m: nat)
    requires
        k <= m,
        spec_decode_prefix(blocks, level, k) is Err,
    ensures
        spec_decode_prefix(blocks, level, m) == spec_decode_prefix(blocks, level, k),
    decreases m - k,
{
    if k < m {
        lemma_decode_prefix_error_sticks(blocks, level, k, (m - 1) as nat);
    }
}

} // verus!
