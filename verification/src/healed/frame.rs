//! Storage frames: two copies of the metadata header, the ECC-protected
//! payload blocks and a footer with a CRC-32C and the sequence number.

use vstd::prelude::*;
use vstd::bytes::{
    spec_u128_from_le_bytes, spec_u128_to_le_bytes, spec_u16_from_le_bytes, spec_u16_to_le_bytes,
    spec_u32_from_le_bytes, spec_u32_to_le_bytes, spec_u64_from_le_bytes, spec_u64_to_le_bytes,
    u128_from_le_bytes, u128_to_le_bytes, u16_from_le_bytes, u16_to_le_bytes, u32_from_le_bytes,
    u32_to_le_bytes, u64_from_le_bytes, u64_to_le_bytes,
};
use vstd::slice::slice_subrange;

use crate::healed::bytes::{append_bytes, be_bytes, copy_range, lemma_be_value_of_bytes, lemma_pow256_values};
use crate::healed::crc::{crc32_iscsi, spec_crc32c};
use crate::healed::ecc::{
    self, block_level, correctable_bit, flip_bit, spec_block_size, spec_ecc_decode, spec_ecc_encode,
    spec_secded128_encode, EncodedBlock,
};
use crate::healed::error::Error;
use crate::healed::level::{spec_level_code, ProtectionLevel};
use crate::healed::metadata::{header_word, spec_decode_word, spec_pack, MetaData, MetaDataHeader};

verus! {

/// Bytes of the two headers.
pub const HEADERS_SIZE: usize = 32;

/// Bytes of the footer.
pub const FOOTER_SIZE: usize = 8;

/// Bytes of the smallest frame.
pub const MIN_FRAME_SIZE: usize = 40;

/// The footer: CRC-32C of the content and the low 32 bits of the sequence
/// number.
#[derive(Debug, Clone, Copy, PartialEq, Eq, Structural)]
struct Footer {
    crc32: u32,
    sequence_check: u32,
}

/// A persisted frame: metadata and the original payload.
#[derive(Debug, Clone, PartialEq, Eq)]
pub struct StorageFrame {
    pub meta: MetaData,
    /// The original (decoded) payload.
    pub payload: Vec<u8>,
}

// ─────────────────────────────────────────
//  Byte layout
// ─────────────────────────────────────────

/// Bytes of one encoded block of a level.
pub open spec fn spec_encoded_block_size(level: ProtectionLevel) -> nat {
    match level {
        ProtectionLevel::High => 2,
        ProtectionLevel::Medium => 8,
        ProtectionLevel::Low => 16,
    }
}

/// Length of a payload of `len` bytes padded to whole blocks of `level`.
pub open spec fn spec_padded_len(len: nat, level: ProtectionLevel) -> nat {
    let bs = spec_block_size(level);
    if len % bs == 0 { len } else { (len + (bs - len % bs)) as nat }
}

/// `payload` padded with zero bytes to whole blocks of `level`.
pub open spec fn spec_pad(payload: Seq<u8>, level: ProtectionLevel) -> Seq<u8> {
    payload + Seq::new((spec_padded_len(payload.len(), level) - payload.len()) as nat, |i: int| 0u8)
}

/// Little-endian bytes of one code word.
pub open spec fn block_bytes(b: EncodedBlock) -> Seq<u8> {
    match b {
        EncodedBlock::High(v) => spec_u16_to_le_bytes(v),
        EncodedBlock::Medium(v) => spec_u64_to_le_bytes(v),
        EncodedBlock::Low(v) => spec_u128_to_le_bytes(v),
    }
}

/// The first `k` code words, one after another.
pub open spec fn blocks_bytes(blocks: Seq<EncodedBlock>, k: nat) -> Seq<u8>
    decreases k,
{
    if k == 0 { Seq::empty() } else { blocks_bytes(blocks, (k - 1) as nat) + block_bytes(blocks[k - 1]) }
}

/// Every code word has level `level`.
pub open spec fn all_at_level(blocks: Seq<EncodedBlock>, level: ProtectionLevel) -> bool {
    forall|i: int| 0 <= i < blocks.len() ==> block_level(#[trigger] blocks[i]) == level
}

/// The first code word whose level is not `level`.
pub open spec fn first_off_level(blocks: Seq<EncodedBlock>, level: ProtectionLevel) -> bool {
    exists|i: int| 0 <= i < blocks.len() && block_level(#[trigger] blocks[i]) != level
}

/// The code word of `level` that `bytes` (of the level's block size) hold.
pub open spec fn block_from_bytes(bytes: Seq<u8>, level: ProtectionLevel) -> EncodedBlock {
    match level {
        ProtectionLevel::High => EncodedBlock::High(spec_u16_from_le_bytes(bytes)),
        ProtectionLevel::Medium => EncodedBlock::Medium(spec_u64_from_le_bytes(bytes)),
        ProtectionLevel::Low => EncodedBlock::Low(spec_u128_from_le_bytes(bytes)),
    }
}

/// Number of blocks of a payload of `payload_len` bytes at `level`.
pub open spec fn spec_block_count(payload_len: nat, level: ProtectionLevel) -> nat {
    spec_padded_len(payload_len, level) / spec_block_size(level)
}

/// The code words that `bytes` hold for a payload of `payload_len` bytes;
/// `None` when the length does not fit.
pub open spec fn spec_parse_blocks(bytes: Seq<u8>, level: ProtectionLevel, payload_len: nat) -> Option<Seq<EncodedBlock>> {
    let ebs = spec_encoded_block_size(level);
    let n = spec_block_count(payload_len, level);
    if bytes.len() != n * ebs {
        None
    } else {
        Some(Seq::new(n, |k: int| block_from_bytes(bytes.subrange(k * ebs, (k + 1) * ebs), level)))
    }
}

/// The data the frame's CRC covers: sequence (u64), level code, payload
/// length (u32), all little-endian, then the payload.
pub open spec fn checksum_data(meta: MetaData, payload: Seq<u8>) -> Seq<u8> {
    spec_u64_to_le_bytes(meta.sequence) + seq![spec_level_code(meta.level)] + spec_u32_to_le_bytes(meta.payload_len) + payload
}

/// The 8-byte footer.
pub open spec fn footer_bytes(crc32: u32, sequence: u64) -> Seq<u8> {
    spec_u32_to_le_bytes(crc32) + spec_u32_to_le_bytes(sequence as u32)
}

/// A frame made of its parts.
pub open spec fn frame_from_parts(primary: Seq<u8>, secondary: Seq<u8>, blocks: Seq<EncodedBlock>, footer: Seq<u8>) -> Seq<u8> {
    primary + secondary + blocks_bytes(blocks, blocks.len()) + footer
}

/// The header bytes of `meta`.
pub open spec fn spec_header_bytes(meta: MetaData) -> Seq<u8> {
    be_bytes(spec_secded128_encode((spec_pack(meta) * 256) as u128) as nat, 16)
}

/// The code words of the padded payload.
pub open spec fn spec_frame_blocks(payload: Seq<u8>, level: ProtectionLevel) -> Seq<EncodedBlock> {
    spec_ecc_encode(spec_pad(payload, level), level)->Ok_0
}

/// The bytes of the frame of `meta` and `payload`.
pub open spec fn spec_frame_bytes(meta: MetaData, payload: Seq<u8>) -> Seq<u8> {
    frame_from_parts(
        spec_header_bytes(meta),
        spec_header_bytes(meta),
        spec_frame_blocks(payload, meta.level),
        footer_bytes(spec_crc32c(checksum_data(meta, payload)), meta.sequence),
    )
}

/// The metadata of the primary header, or of the secondary one when the
/// primary does not decode.
pub open spec fn spec_recover_meta(bytes: Seq<u8>) -> Option<MetaData> {
    match spec_decode_word(header_word(bytes.subrange(0, 16))) {
        Some(m) => Some(m),
        None => spec_decode_word(header_word(bytes.subrange(16, 32))),
    }
}

/// Recovery of a frame: metadata and payload, or the first error.
pub open spec fn spec_recover(bytes: Seq<u8>) -> Result<(MetaData, Seq<u8>), Error> {
    if bytes.len() < 40 {
        Err(Error::FrameTooShort)
    } else {
        match spec_recover_meta(bytes) {
            None => Err(Error::UnrecoverableHeader),
            Some(meta) => {
                let footer = bytes.subrange(bytes.len() - 8, bytes.len() as int);
                match spec_parse_blocks(bytes.subrange(32, bytes.len() - 8), meta.level, meta.payload_len as nat) {
                    None => Err(Error::InvalidFrameFormat),
                    Some(blocks) => match spec_ecc_decode(blocks) {
                        Err(e) => Err(Error::Ecc(e)),
                        Ok(padded) => if padded.len() < meta.payload_len {
                            Err(Error::CrcMismatch)
                        } else {
                            let payload = padded.subrange(0, meta.payload_len as int);
                            if spec_u32_from_le_bytes(footer.subrange(0, 4)) != spec_crc32c(checksum_data(meta, payload))
                                || spec_u32_from_le_bytes(footer.subrange(4, 8)) != meta.sequence as u32 {
                                Err(Error::CrcMismatch)
                            } else {
                                Ok((meta, payload))
                            }
                        },
                    },
                }
            },
        }
    }
}

// ─────────────────────────────────────────
//  Pieces
// ─────────────────────────────────────────

fn push_u32_le(out: &mut Vec<u8>, x: u32)
    ensures
        final(out)@ == old(out)@ + spec_u32_to_le_bytes(x),
{
    let b = u32_to_le_bytes(x);
    append_bytes(out, b.as_slice());
}

impl Footer {
    fn new(crc32: u32, sequence: u64) -> (r: Footer)
        ensures
            r == (Footer { crc32, sequence_check: sequence as u32 }),
    {
        Footer { crc32, sequence_check: sequence as u32 }
    }

    fn to_bytes(self) -> (r: Vec<u8>)
        ensures
            r@ == spec_u32_to_le_bytes(self.crc32) + spec_u32_to_le_bytes(self.sequence_check),
    {
        let mut out: Vec<u8> = Vec::with_capacity(FOOTER_SIZE);
        push_u32_le(&mut out, self.crc32);
        push_u32_le(&mut out, self.sequence_check);
        out
    }

    fn from_bytes(bytes: &[u8]) -> (r: Footer)
        requires
            bytes@.len() == 8,
        ensures
            r.crc32 == spec_u32_from_le_bytes(bytes@.subrange(0, 4)),
            r.sequence_check == spec_u32_from_le_bytes(bytes@.subrange(4, 8)),
    {
        Footer {
            crc32: u32_from_le_bytes(slice_subrange(bytes, 0, 4)),
            sequence_check: u32_from_le_bytes(slice_subrange(bytes, 4, 8)),
        }
    }
}

impl StorageFrame {
    /// A frame of `payload` with the given sequence number and level; the
    /// recorded length is the payload's length truncated to 32 bits.
    pub fn new(payload: Vec<u8>, sequence: u64, level: ProtectionLevel) -> (r: StorageFrame)
        ensures
            r.meta == (MetaData { sequence, level, payload_len: payload@.len() as u32 }),
            r.payload@ == payload@,
    {
        let meta = MetaData::new(sequence, level, payload.len() as u32);
        StorageFrame { meta, payload }
    }

    fn checksum_content(meta: &MetaData, payload: &[u8]) -> (r: u32)
        ensures
            r == spec_crc32c(checksum_data(*meta, payload@)),
    {
        let mut data: Vec<u8> = Vec::new();
        let s = u64_to_le_bytes(meta.sequence);
        append_bytes(&mut data, s.as_slice());
        data.push(meta.level.code());
        push_u32_le(&mut data, meta.payload_len);
        append_bytes(&mut data, payload);
        assert(data@ =~= checksum_data(*meta, payload@));
        crc32_iscsi(data.as_slice())
    }

    fn payload_block_size(level: ProtectionLevel) -> (r: usize)
        ensures
            r == spec_block_size(level),
    {
        match level {
            ProtectionLevel::High => 1,
            ProtectionLevel::Medium => 4,
            ProtectionLevel::Low => 8,
        }
    }

    fn encoded_block_size(level: ProtectionLevel) -> (r: usize)
        ensures
            r == spec_encoded_block_size(level),
    {
        match level {
            ProtectionLevel::High => 2,
            ProtectionLevel::Medium => 8,
            ProtectionLevel::Low => 16,
        }
    }

    fn padded_len(payload_len: usize, level: ProtectionLevel) -> (r: usize)
        requires
            payload_len + 8 <= usize::MAX,
        ensures
            r == spec_padded_len(payload_len as nat, level),
    {
        let block_size = Self::payload_block_size(level);
        let remainder = payload_len % block_size;
        if remainder == 0 {
            payload_len
        } else {
            payload_len + (block_size - remainder)
        }
    }

    /// Pads `payload` with zero bytes to whole blocks of `level`.
    pub fn pad_payload(payload: &[u8], level: ProtectionLevel) -> (r: Vec<u8>)
        requires
            payload@.len() + 8 <= usize::MAX,
        ensures
            r@ == spec_pad(payload@, level),
    {
        let target = Self::padded_len(payload.len(), level);
        let mut padded = copy_range(payload, 0, payload.len());
        assert(payload@.subrange(0, payload@.len() as int) =~= payload@);
        let ghost full = spec_pad(payload@, level);
        while padded.len() < target
            invariant
                payload@.len() <= padded@.len() <= target,
                target == spec_padded_len(payload@.len(), level),
                full == spec_pad(payload@, level),
                full.len() == target,
                padded@ == full.subrange(0, padded@.len() as int),
            decreases target - padded@.len(),
        {
            padded.push(0);
            assert(padded@ =~= full.subrange(0, padded@.len() as int));
        }
        assert(padded@ =~= full);
        padded
    }

    fn encode_blocks_to_bytes(blocks: &[EncodedBlock], level: ProtectionLevel) -> (r: Result<Vec<u8>, Error>)
        ensures
            all_at_level(blocks@, level) ==> (r matches Ok(v) && v@ == blocks_bytes(blocks@, blocks@.len())),
            !all_at_level(blocks@, level) ==> (r matches Err(Error::InvalidFrameFormat)),
    {
        let mut bytes: Vec<u8> = Vec::new();
        let mut i: usize = 0;
        while i < blocks.len()
            invariant
                0 <= i <= blocks@.len(),
                all_at_level(blocks@.subrange(0, i as int), level),
                bytes@ == blocks_bytes(blocks@, i as nat),
            decreases blocks@.len() - i,
        {
            let piece = match (level, blocks[i]) {
                (ProtectionLevel::High, EncodedBlock::High(v)) => u16_to_le_bytes(v),
                (ProtectionLevel::Medium, EncodedBlock::Medium(v)) => u64_to_le_bytes(v),
                (ProtectionLevel::Low, EncodedBlock::Low(v)) => u128_to_le_bytes(v),
                _ => {
                    proof {
                        assert(block_level(blocks@[i as int]) != level);
                    }
                    return Err(Error::InvalidFrameFormat);
                },
            };
            append_bytes(&mut bytes, piece.as_slice());
            proof {
                assert forall|j: int| 0 <= j < i + 1 implies block_level(#[trigger] blocks@.subrange(0, i + 1)[j]) == level by {
                    if j < i {
                        assert(blocks@.subrange(0, i + 1)[j] == blocks@.subrange(0, i as int)[j]);
                    }
                }
            }
            i += 1;
        }
        assert(blocks@.subrange(0, blocks@.len() as int) =~= blocks@);
        Ok(bytes)
    }

    fn decode_blocks_from_bytes(bytes: &[u8], level: ProtectionLevel, payload_len: u32) -> (r: Result<Vec<EncodedBlock>, Error>)
        ensures
            match spec_parse_blocks(bytes@, level, payload_len as nat) {
                Some(blocks) => r matches Ok(v) && v@ == blocks,
                None => r matches Err(Error::InvalidFrameFormat),
            },
    {
        let block_size = Self::payload_block_size(level);
        let len = payload_len as usize;
        let block_count = len / block_size + if len % block_size == 0 { 0 } else { 1 };
        proof {
            let bs = spec_block_size(level) as int;
            let l = len as int;
            assert(block_count == spec_block_count(payload_len as nat, level)) by (nonlinear_arith)
                requires
                    bs == 1 || bs == 4 || bs == 8,
                    block_count == l / bs + if l % bs == 0 { 0int } else { 1int },
                    spec_block_count(payload_len as nat, level) == spec_padded_len(l as nat, level) / (bs as nat),
                    spec_padded_len(l as nat, level) == if l % bs == 0 { l } else { l + (bs - l % bs) },
                    l >= 0;
        }
        let ebs = Self::encoded_block_size(level);
        let expected_len = match block_count.checked_mul(ebs) {
            Some(n) => n,
            None => {
                assert(block_count * ebs > usize::MAX);
                assert(bytes@.len() == bytes.len());
                assert(bytes@.len() != spec_block_count(payload_len as nat, level) * spec_encoded_block_size(level));
                return Err(Error::InvalidFrameFormat);
            },
        };
        if bytes.len() != expected_len {
            return Err(Error::InvalidFrameFormat);
        }
        let ghost n = block_count as nat;
        let mut blocks: Vec<EncodedBlock> = Vec::with_capacity(block_count);
        let mut k: usize = 0;
        while k < block_count
            invariant
                0 <= k <= block_count,
                bytes@.len() == block_count * ebs,
                ebs == spec_encoded_block_size(level),
                blocks@ == Seq::new(k as nat, |j: int| block_from_bytes(bytes@.subrange(j * ebs, (j + 1) * ebs), level)),
            decreases block_count - k,
        {
            proof {
                assert(k * ebs + ebs <= bytes.len()) by (nonlinear_arith)
                    requires k < block_count, bytes.len() == block_count * ebs;
                assert(k * ebs + ebs == (k + 1) * ebs) by (nonlinear_arith);
            }
            let start = k * ebs;
            let chunk = slice_subrange(bytes, start, start + ebs);
            let block = match level {
                ProtectionLevel::High => EncodedBlock::High(u16_from_le_bytes(chunk)),
                ProtectionLevel::Medium => EncodedBlock::Medium(u64_from_le_bytes(chunk)),
                ProtectionLevel::Low => EncodedBlock::Low(u128_from_le_bytes(chunk)),
            };
            blocks.push(block);
            k += 1;
            assert(blocks@ =~= Seq::new(k as nat, |j: int| block_from_bytes(bytes@.subrange(j * ebs, (j + 1) * ebs), level)));
        }
        Ok(blocks)
    }
}

// ─────────────────────────────────────────
//  Recovery and its laws
// ─────────────────────────────────────────

proof fn lemma_block_roundtrip(b: EncodedBlock)
    ensures
        block_bytes(b).len() == spec_encoded_block_size(block_level(b)),
        block_from_bytes(block_bytes(b), block_level(b)) == b,
{
    vstd::bytes::lemma_auto_spec_u16_to_from_le_bytes();
    vstd::bytes::lemma_auto_spec_u64_to_from_le_bytes();
    vstd::bytes::lemma_auto_spec_u128_to_from_le_bytes();
    match b {
        EncodedBlock::High(v) => { assert(spec_u16_to_le_bytes(v).len() == 2); },
        EncodedBlock::Medium(v) => { assert(spec_u64_to_le_bytes(v).len() == 8); },
        EncodedBlock::Low(v) => { assert(spec_u128_to_le_bytes(v).len() == 16); },
    }
}

proof fn lemma_blocks_bytes(blocks: Seq<EncodedBlock>, level: ProtectionLevel, k: nat, j: int)
    requires
        all_at_level(blocks, level),
        k <= blocks.len(),
        0 <= j < k,
    ensures
        blocks_bytes(blocks, k).len() == k * spec_encoded_block_size(level),
        blocks_bytes(blocks, k).subrange(j * spec_encoded_block_size(level), (j + 1) * spec_encoded_block_size(level))
            == block_bytes(blocks[j]),
    decreases k,
{
    let ebs = spec_encoded_block_size(level);
    lemma_block_roundtrip(blocks[k - 1]);
    assert(block_level(blocks[k - 1]) == level);
    if k > 1 {
        lemma_blocks_bytes(blocks, level, (k - 1) as nat, if j < k - 1 { j } else { 0 });
    }
    let prev = blocks_bytes(blocks, (k - 1) as nat);
    assert(prev.len() == (k - 1) * ebs);
    assert((k - 1) * ebs + ebs == k * ebs) by (nonlinear_arith);
    assert(j * ebs + ebs == (j + 1) * ebs) by (nonlinear_arith);
    if j < k - 1 {
        assert((j + 1) * ebs <= (k - 1) * ebs) by (nonlinear_arith) requires j + 1 <= k - 1;
        assert(blocks_bytes(blocks, k).subrange(j * ebs, (j + 1) * ebs) =~= prev.subrange(j * ebs, (j + 1) * ebs));
    } else {
        assert(blocks_bytes(blocks, k).subrange(j * ebs, (j + 1) * ebs) =~= block_bytes(blocks[j]));
    }
}

proof fn lemma_parse_blocks(blocks: Seq<EncodedBlock>, level: ProtectionLevel, payload_len: nat)
    requires
        all_at_level(blocks, level),
        blocks.len() == spec_block_count(payload_len, level),
    ensures
        spec_parse_blocks(blocks_bytes(blocks, blocks.len()), level, payload_len) == Some(blocks),
{
    let ebs = spec_encoded_block_size(level);
    let n = blocks.len();
    let bytes = blocks_bytes(blocks, n);
    if n > 0 {
        lemma_blocks_bytes(blocks, level, n, 0);
    }
    assert(bytes.len() == n * ebs);
    let parsed = Seq::new(n, |k: int| block_from_bytes(bytes.subrange(k * ebs, (k + 1) * ebs), level));
    assert forall|k: int| 0 <= k < n implies parsed[k] == blocks[k] by {
        lemma_blocks_bytes(blocks, level, n, k);
        lemma_block_roundtrip(blocks[k]);
    }
    assert(parsed =~= blocks);
}

pub(crate) proof fn lemma_pad(payload: Seq<u8>, level: ProtectionLevel)
    ensures
        spec_pad(payload, level).len() == spec_padded_len(payload.len(), level),
        spec_padded_len(payload.len(), level) >= payload.len(),
        spec_padded_len(payload.len(), level) % spec_block_size(level) == 0,
        spec_pad(payload, level).subrange(0, payload.len() as int) == payload,
{
    let bs = spec_block_size(level) as int;
    let l = payload.len() as int;
    assert(spec_padded_len(payload.len(), level) % spec_block_size(level) == 0) by (nonlinear_arith)
        requires
            bs == 1 || bs == 4 || bs == 8,
            spec_padded_len(l as nat, level) == if l % bs == 0 { l } else { l + (bs - l % bs) },
            spec_block_size(level) == bs,
            l >= 0;
    assert(spec_pad(payload, level).subrange(0, payload.len() as int) =~= payload);
}

proof fn lemma_encode_blocks(data: Seq<u8>, level: ProtectionLevel)
    requires
        spec_ecc_encode(data, level) is Ok,
    ensures
        all_at_level(spec_ecc_encode(data, level)->Ok_0, level),
        spec_ecc_encode(data, level)->Ok_0.len() == data.len() / spec_block_size(level),
{
}

proof fn lemma_flip_keeps_level(b: EncodedBlock, i: u32)
    ensures
        block_level(flip_bit(b, i)) == block_level(b),
{
}

/// A frame whose primary header decodes to `meta` (or does not decode,
/// while the secondary does), whose blocks decode to the padded payload and
/// whose footer matches is recovered as `(meta, payload)`.
pub proof fn lemma_recover_parts(
    primary: Seq<u8>,
    secondary: Seq<u8>,
    blocks: Seq<EncodedBlock>,
    footer: Seq<u8>,
    meta: MetaData,
    payload: Seq<u8>,
)
    requires
        primary.len() == 16,
        secondary.len() == 16,
        spec_decode_word(header_word(primary)) == Some(meta)
            || (spec_decode_word(header_word(primary)) is None && spec_decode_word(header_word(secondary)) == Some(meta)),
        all_at_level(blocks, meta.level),
        blocks.len() == spec_block_count(payload.len(), meta.level),
        spec_ecc_decode(blocks) == Ok::<Seq<u8>, ecc::EccError>(spec_pad(payload, meta.level)),
        footer == footer_bytes(spec_crc32c(checksum_data(meta, payload)), meta.sequence),
        meta.payload_len == payload.len(),
    ensures
        spec_recover(frame_from_parts(primary, secondary, blocks, footer)) == Ok::<(MetaData, Seq<u8>), Error>((meta, payload)),
{
    vstd::bytes::lemma_auto_spec_u32_to_from_le_bytes();
    let bytes = frame_from_parts(primary, secondary, blocks, footer);
    let bb = blocks_bytes(blocks, blocks.len());
    let ebs = spec_encoded_block_size(meta.level);
    if blocks.len() > 0 {
        lemma_blocks_bytes(blocks, meta.level, blocks.len(), 0);
    }
    assert(bb.len() == blocks.len() * ebs);
    let crc = spec_crc32c(checksum_data(meta, payload));
    assert(spec_u32_to_le_bytes(crc).len() == 4);
    assert(spec_u32_to_le_bytes(meta.sequence as u32).len() == 4);
    assert(footer.len() == 8);
    assert(bytes.len() == 40 + bb.len());
    assert(bytes.subrange(0, 16) =~= primary);
    assert(bytes.subrange(16, 32) =~= secondary);
    assert(bytes.subrange(32, bytes.len() - 8) =~= bb);
    let f = bytes.subrange(bytes.len() - 8, bytes.len() as int);
    assert(f =~= footer);
    assert(f.subrange(0, 4) =~= spec_u32_to_le_bytes(crc));
    assert(f.subrange(4, 8) =~= spec_u32_to_le_bytes(meta.sequence as u32));
    assert(spec_recover_meta(bytes) == Some(meta));
    lemma_parse_blocks(blocks, meta.level, payload.len());
    lemma_pad(payload, meta.level);
}

impl StorageFrame {
    pub(crate) fn header_at(bytes: &[u8], start: usize) -> (r: MetaDataHeader)
        requires
            start + 16 <= bytes.len(),
        ensures
            r@ == bytes@.subrange(start as int, start + 16),
    {
        let mut data = [0u8; 16];
        let mut i: usize = 0;
        while i < 16
            invariant
                start + 16 <= bytes.len(),
                0 <= i <= 16,
                forall|j: int| 0 <= j < i ==> data@[j] == bytes@[start + j],
            decreases 16 - i,
        {
            data[i] = bytes[start + i];
            i += 1;
        }
        assert(data@ =~= bytes@.subrange(start as int, start + 16));
        MetaDataHeader::from_bytes(&data)
    }

    /// Restores a frame: repairs a header from its copy, checks the layout,
    /// corrects payload bit errors and checks the CRC of the content.
    pub fn recover(bytes: &[u8]) -> (r: Result<StorageFrame, Error>)
        ensures
            match spec_recover(bytes@) {
                Ok((m, p)) => r matches Ok(f) && f.meta == m && f.payload@ == p,
                Err(e) => r matches Err(x) && x == e,
            },
    {
        if bytes.len() < MIN_FRAME_SIZE {
            return Err(Error::FrameTooShort);
        }
        let primary = Self::header_at(bytes, 0);
        let meta = match primary.decode() {
            Some(m) => m,
            None => {
                let secondary = Self::header_at(bytes, 16);
                match secondary.decode() {
                    Some(m) => m,
                    None => return Err(Error::UnrecoverableHeader),
                }
            },
        };
        let footer = Footer::from_bytes(slice_subrange(bytes, bytes.len() - FOOTER_SIZE, bytes.len()));
        let encoded = slice_subrange(bytes, HEADERS_SIZE, bytes.len() - FOOTER_SIZE);
        let blocks = match Self::decode_blocks_from_bytes(encoded, meta.level, meta.payload_len) {
            Ok(b) => b,
            Err(e) => return Err(e),
        };
        let decoded = match ecc::decode(blocks.as_slice()) {
            Ok(d) => d,
            Err(e) => return Err(Error::Ecc(e)),
        };
        if decoded.len() < meta.payload_len as usize {
            return Err(Error::CrcMismatch);
        }
        let payload = copy_range(decoded.as_slice(), 0, meta.payload_len as usize);
        let crc = Self::checksum_content(&meta, payload.as_slice());
        if footer.crc32 != crc || footer.sequence_check != meta.sequence as u32 {
            return Err(Error::CrcMismatch);
        }
        Ok(StorageFrame { meta, payload })
    }
}

/// The frame's metadata records its payload's length.
pub open spec fn consistent(meta: MetaData, payload: Seq<u8>) -> bool {
    meta.payload_len == payload.len()
}

/// `spec_recover(bytes)` restores `(meta, payload)`.
pub open spec fn recovers_to(bytes: Seq<u8>, meta: MetaData, payload: Seq<u8>) -> bool {
    spec_recover(bytes) == Ok::<(MetaData, Seq<u8>), Error>((meta, payload))
}

/// The footer of the frame of `meta` and `payload`.
pub open spec fn spec_footer(meta: MetaData, payload: Seq<u8>) -> Seq<u8> {
    footer_bytes(spec_crc32c(checksum_data(meta, payload)), meta.sequence)
}

impl StorageFrame {
    /// Serialises the frame: two copies of the SECDED-protected header, the
    /// ECC-encoded padded payload and the footer.
    ///
    /// When the metadata records the payload's length, recovery restores the
    /// frame, also after a single bit flip in the primary header, after the
    /// primary header is lost (the copy is used), or after a single
    /// correctable bit flip in any one payload block.
    pub fn to_bytes(&self) -> (r: Result<Vec<u8>, Error>)
        requires
            self.payload@.len() + 8 <= usize::MAX,
        ensures
            r matches Ok(v) && v@ == spec_frame_bytes(self.meta, self.payload@),
            consistent(self.meta, self.payload@) ==> recovers_to(spec_frame_bytes(self.meta, self.payload@), self.meta, self.payload@),
            consistent(self.meta, self.payload@) ==> forall|i: u32| i < 128 ==> #[trigger] recovers_to(
                frame_from_parts(
                    be_bytes((header_word(spec_header_bytes(self.meta)) ^ (1u128 << i)) as nat, 16),
                    spec_header_bytes(self.meta),
                    spec_frame_blocks(self.payload@, self.meta.level),
                    spec_footer(self.meta, self.payload@),
                ),
                self.meta,
                self.payload@,
            ),
            consistent(self.meta, self.payload@) ==> forall|h: Seq<u8>| h.len() == 16
                && (spec_decode_word(header_word(h)) is None || spec_decode_word(header_word(h)) == Some(self.meta))
                ==> #[trigger] recovers_to(
                frame_from_parts(h, spec_header_bytes(self.meta), spec_frame_blocks(self.payload@, self.meta.level),
                    spec_footer(self.meta, self.payload@)),
                self.meta,
                self.payload@,
            ),
            consistent(self.meta, self.payload@) ==> forall|k: int, i: u32|
                0 <= k < spec_frame_blocks(self.payload@, self.meta.level).len()
                && correctable_bit(spec_frame_blocks(self.payload@, self.meta.level)[k], i)
                ==> #[trigger] recovers_to(
                frame_from_parts(
                    spec_header_bytes(self.meta),
                    spec_header_bytes(self.meta),
                    spec_frame_blocks(self.payload@, self.meta.level).update(k,
                        flip_bit(spec_frame_blocks(self.payload@, self.meta.level)[k], i)),
                    spec_footer(self.meta, self.payload@),
                ),
                self.meta,
                self.payload@,
            ),
    {
        let level = self.meta.level;
        let padded = Self::pad_payload(self.payload.as_slice(), level);
        proof { lemma_pad(self.payload@, level); }
        let blocks = match ecc::encode(padded.as_slice(), level) {
            Ok(b) => b,
            Err(e) => return Err(Error::Ecc(e)),
        };
        proof { lemma_encode_blocks(padded@, level); }
        let payload_bytes = match Self::encode_blocks_to_bytes(blocks.as_slice(), level) {
            Ok(b) => b,
            Err(e) => return Err(e),
        };
        let header = self.meta.encode();
        let crc = Self::checksum_content(&self.meta, self.payload.as_slice());
        let footer = Footer::new(crc, self.meta.sequence);
        let fb = footer.to_bytes();
        let hb = header.as_bytes();
        let mut out: Vec<u8> = Vec::new();
        append_bytes(&mut out, hb);
        append_bytes(&mut out, hb);
        append_bytes(&mut out, payload_bytes.as_slice());
        append_bytes(&mut out, fb.as_slice());
        proof {
            let meta = self.meta;
            let payload = self.payload@;
            let h = spec_header_bytes(meta);
            let bl = spec_frame_blocks(payload, level);
            let f = spec_footer(meta, payload);
            assert(hb@ == h);
            assert(blocks@ == bl);
            assert(out@ =~= spec_frame_bytes(meta, payload));
            if consistent(meta, payload) {
                lemma_pow256_values();
                assert(h.len() == 16) by { crate::healed::bytes::lemma_be_len(header_word(hb@) as nat, 16); }
                let bc = spec_padded_len(payload.len(), level) / spec_block_size(level);
                assert(bl.len() == spec_block_count(payload.len(), level));
                lemma_recover_parts(h, h, bl, f, meta, payload);
                assert forall|i: u32| i < 128 implies #[trigger] recovers_to(
                    frame_from_parts(be_bytes((header_word(h) ^ (1u128 << i)) as nat, 16), h, bl, f), meta, payload) by {
                    let w = header_word(h) ^ (1u128 << i);
                    lemma_be_value_of_bytes(w as nat, 16);
                    crate::healed::bytes::lemma_be_len(w as nat, 16);
                    assert(header_word(be_bytes(w as nat, 16)) == w);
                    lemma_recover_parts(be_bytes(w as nat, 16), h, bl, f, meta, payload);
                }
                assert forall|x: Seq<u8>| x.len() == 16
                    && (spec_decode_word(header_word(x)) is None || spec_decode_word(header_word(x)) == Some(meta)) implies
                    #[trigger] recovers_to(frame_from_parts(x, h, bl, f), meta, payload) by {
                    lemma_recover_parts(x, h, bl, f, meta, payload);
                }
                assert forall|k: int, i: u32| 0 <= k < bl.len() && correctable_bit(bl[k], i) implies
                    #[trigger] recovers_to(frame_from_parts(h, h, bl.update(k, flip_bit(bl[k], i)), f), meta, payload) by {
                    let fl = bl.update(k, flip_bit(bl[k], i));
                    lemma_flip_keeps_level(bl[k], i);
                    assert(all_at_level(fl, level)) by {
                        assert forall|m: int| 0 <= m < fl.len() implies block_level(#[trigger] fl[m]) == level by {
                            assert(block_level(bl[m]) == level);
                        }
                    }
                    lemma_recover_parts(h, h, fl, f, meta, payload);
                }
            }
        }
        Ok(out)
    }
}

/// A recovered frame's payload is covered by the footer's checksum: the
/// footer holds the CRC-32C of the little-endian sequence number, the level
/// code, the little-endian payload length and the payload bytes.
pub proof fn lemma_recover_checks_payload_crc(bytes: Seq<u8>)
    ensures
        spec_recover(bytes) matches Ok((m, p)) ==> p.len() == m.payload_len
            && spec_u32_from_le_bytes(bytes.subrange(bytes.len() - 8, bytes.len() - 4)) == spec_crc32c(
                spec_u64_to_le_bytes(m.sequence) + seq![spec_level_code(m.level)] + spec_u32_to_le_bytes(m.payload_len) + p),
{
    if spec_recover(bytes) is Ok {
        let footer = bytes.subrange(bytes.len() - 8, bytes.len() as int);
        assert(footer.subrange(0, 4) =~= bytes.subrange(bytes.len() - 8, bytes.len() - 4));
    }
}

/// A frame whose footer was written for payload `p1` recovers to no payload
/// `p` under the same metadata unless `p` has the same checksum: payload
/// blocks from another write of the same length are rejected when their
/// payload's CRC-32C differs.
pub proof fn lemma_foreign_payload_rejected(bytes: Seq<u8>, meta: MetaData, p1: Seq<u8>)
    requires
        bytes.len() >= 40,
        bytes.subrange(bytes.len() - 8, bytes.len() as int) == spec_footer(meta, p1),
    ensures
        forall|p: Seq<u8>| #[trigger] spec_recover(bytes) == Ok::<(MetaData, Seq<u8>), Error>((meta, p)) ==> spec_crc32c(
            spec_u64_to_le_bytes(meta.sequence) + seq![spec_level_code(meta.level)] + spec_u32_to_le_bytes(meta.payload_len) + p)
            == spec_crc32c(spec_u64_to_le_bytes(meta.sequence) + seq![spec_level_code(meta.level)]
                + spec_u32_to_le_bytes(meta.payload_len) + p1),
{
    vstd::bytes::lemma_auto_spec_u32_to_from_le_bytes();
    lemma_recover_checks_payload_crc(bytes);
    let crc = spec_crc32c(checksum_data(meta, p1));
    assert(spec_u32_to_le_bytes(crc).len() == 4);
    assert(bytes.subrange(bytes.len() - 8, bytes.len() - 4) =~= spec_footer(meta, p1).subrange(0, 4));
    assert(spec_footer(meta, p1).subrange(0, 4) =~= spec_u32_to_le_bytes(crc));
}

} // verus!
