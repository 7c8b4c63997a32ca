//! Reed-Solomon records for large payloads: the payload is cut into
//! segments of eight 4 KiB data shards plus two parity shards, each shard
//! guarded by a CRC, so that up to two damaged shards per segment are
//! rebuilt.

use vstd::prelude::*;
use vstd::bytes::{
    spec_u32_from_le_bytes, spec_u32_to_le_bytes, spec_u64_from_le_bytes, spec_u64_to_le_bytes,
    u32_from_le_bytes, u32_to_le_bytes, u64_from_le_bytes, u64_to_le_bytes,
};
use vstd::slice::slice_subrange;
use std::ops::Range;
use reed_solomon_erasure::galois_8::ReedSolomon;
use reed_solomon_erasure::Error as ReedSolomonError;

use crate::healed::bytes::{append_bytes, has_magic};
use crate::healed::crc::{crc32_iscsi, spec_crc32c};

verus! {

/// Data shards per segment.
pub const RS_DATA_SHARDS: usize = 8;
/// Parity shards per segment.
pub const RS_PARITY_SHARDS: usize = 2;
/// Shards per segment.
pub const RS_TOTAL_SHARDS: usize = 10;
/// Bytes per shard.
pub const RS_SHARD_BYTES: usize = 4096;
/// Payload bytes carried by one segment.
pub const RS_DATA_BYTES_PER_SEGMENT: usize = 32768;
/// Bytes of the record header.
pub const RS_RECORD_HEADER_BYTES: usize = 32;
/// Bytes of a segment header.
pub const RS_SEGMENT_HEADER_BYTES: usize = 24;
/// Bytes of the per-shard CRC table of a segment.
pub const RS_SHARD_CRC_TABLE_BYTES: usize = 40;
/// Bytes of a segment footer.
pub const RS_SEGMENT_FOOTER_BYTES: usize = 8;
/// Bytes of one encoded segment: header, CRC table, ten shards, footer.
pub const RS_ENCODED_SEGMENT_BYTES: usize = 41032;

/// Offset of the shards inside an encoded segment.
const SHARD_DATA_START: usize = 64;
/// Offset of the footer inside an encoded segment.
const SEGMENT_FOOTER_START: usize = 41024;

/// A record restored from its segments.
#[derive(Debug, Clone, PartialEq, Eq)]
pub struct RsDecodedRecord {
    pub sequence: u64,
    pub payload: Vec<u8>,
    pub segment_count: u32,
}

/// What the record header says, without decoding the segments.
#[derive(Debug, Clone, Copy, PartialEq, Eq, Structural)]
pub struct RsRecordInfo {
    pub sequence: u64,
    pub payload_len: usize,
    pub segment_count: u32,
}

#[verifier::external_type_specification]
#[verifier::external_body]
pub struct ExReedSolomonError(ReedSolomonError);

/// Errors of Reed-Solomon records.
#[derive(Debug)]
pub enum RsError {
    PayloadTooLarge,
    SlotTooShort,
    InvalidPayloadRange { start: usize, end: usize },
    InvalidRecordMagic,
    UnsupportedRecordVersion(u32),
    InvalidRecordLength { expected: usize, actual: usize },
    DecodedPayloadLengthMismatch { expected: u64, actual: usize },
    InvalidSegmentMagic { segment_index: u32 },
    UnsupportedSegmentVersion { segment_index: u32, version: u32 },
    InvalidSegmentIndex { expected: u32, actual: u32 },
    InvalidSegmentLength { segment_index: u32, data_len: u32 },
    InvalidSegmentFooter { segment_index: u32 },
    TooManyShardErasures { segment_index: u32, missing_shards: usize, parity_shards: usize },
    ShardCrcMismatch { segment_index: u32, shard_index: usize },
    SegmentChecksumMismatch { segment_index: u32 },
    Reconstruct(ReedSolomonError),
    Io(std::io::Error),
}

/// The record header.
#[derive(Debug, Clone, Copy, PartialEq, Eq, Structural)]
pub struct RecordHeader {
    pub sequence: u64,
    pub payload_len: u64,
    pub segment_count: u32,
}

/// A segment header.
#[derive(Debug, Clone, Copy, PartialEq, Eq, Structural)]
pub struct SegmentHeader {
    pub segment_index: u32,
    pub data_len: u32,
    pub segment_crc32: u32,
}

// ─────────────────────────────────────────
//  Byte layout
// ─────────────────────────────────────────

/// `"RSR1"`.
pub open spec fn record_magic() -> Seq<u8> {
    seq![0x52u8, 0x53u8, 0x52u8, 0x31u8]
}

/// `"RSG1"`.
pub open spec fn segment_magic() -> Seq<u8> {
    seq![0x52u8, 0x53u8, 0x47u8, 0x31u8]
}

/// `"RSE1"`.
pub open spec fn footer_magic() -> Seq<u8> {
    seq![0x52u8, 0x53u8, 0x45u8, 0x31u8]
}

/// Four zero bytes.
pub open spec fn zero4() -> Seq<u8> {
    seq![0u8, 0u8, 0u8, 0u8]
}

/// The 32-byte record header: magic, version 1, sequence, payload length,
/// segment count (little-endian), four zero bytes.
pub open spec fn spec_record_header_bytes(h: RecordHeader) -> Seq<u8> {
    record_magic() + spec_u32_to_le_bytes(1) + spec_u64_to_le_bytes(h.sequence)
        + spec_u64_to_le_bytes(h.payload_len) + spec_u32_to_le_bytes(h.segment_count) + zero4()
}

/// Parse of the first 32 bytes of a record.
pub open spec fn spec_parse_record_header_bytes(b: Seq<u8>) -> Result<RecordHeader, RsError> {
    if b.subrange(0, 4) != record_magic() {
        Err(RsError::InvalidRecordMagic)
    } else if spec_u32_from_le_bytes(b.subrange(4, 8)) != 1 {
        Err(RsError::UnsupportedRecordVersion(spec_u32_from_le_bytes(b.subrange(4, 8))))
    } else {
        Ok(RecordHeader {
            sequence: spec_u64_from_le_bytes(b.subrange(8, 16)),
            payload_len: spec_u64_from_le_bytes(b.subrange(16, 24)),
            segment_count: spec_u32_from_le_bytes(b.subrange(24, 28)),
        })
    }
}

/// The 24-byte segment header: magic, version 1, index, data length,
/// checksum of the data (little-endian), four zero bytes.
pub open spec fn spec_segment_header_bytes(h: SegmentHeader) -> Seq<u8> {
    segment_magic() + spec_u32_to_le_bytes(1) + spec_u32_to_le_bytes(h.segment_index)
        + spec_u32_to_le_bytes(h.data_len) + spec_u32_to_le_bytes(h.segment_crc32) + zero4()
}

/// Parse of a 24-byte segment header that should carry index `expected`.
pub open spec fn spec_parse_segment_header(b: Seq<u8>, expected: u32) -> Result<SegmentHeader, RsError> {
    let version = spec_u32_from_le_bytes(b.subrange(4, 8));
    let actual = spec_u32_from_le_bytes(b.subrange(8, 12));
    let data_len = spec_u32_from_le_bytes(b.subrange(12, 16));
    if b.subrange(0, 4) != segment_magic() {
        Err(RsError::InvalidSegmentMagic { segment_index: expected })
    } else if version != 1 {
        Err(RsError::UnsupportedSegmentVersion { segment_index: expected, version })
    } else if actual != expected {
        Err(RsError::InvalidSegmentIndex { expected, actual })
    } else if data_len > 32768 {
        Err(RsError::InvalidSegmentLength { segment_index: expected, data_len })
    } else {
        Ok(SegmentHeader { segment_index: actual, data_len, segment_crc32: spec_u32_from_le_bytes(b.subrange(16, 20)) })
    }
}

/// The 8-byte segment footer: magic and the data checksum.
pub open spec fn spec_footer_bytes(crc: u32) -> Seq<u8> {
    footer_magic() + spec_u32_to_le_bytes(crc)
}

/// Whether an 8-byte footer is valid for the checksum `crc`.
pub open spec fn spec_footer_ok(b: Seq<u8>, crc: u32) -> bool {
    b.subrange(0, 4) == footer_magic() && spec_u32_from_le_bytes(b.subrange(4, 8)) == crc
}

// ─────────────────────────────────────────
//  The Reed-Solomon codec
// ─────────────────────────────────────────

/// The two parity shards that `ReedSolomon::new(8, 2)` computes for eight
/// data shards.
pub uninterp spec fn spec_rs_parity(data: Seq<Seq<u8>>) -> Seq<Seq<u8>>;

/// The ten shards `ReedSolomon::new(8, 2)` reconstructs from ten shards of
/// which the absent ones are `None`.
pub uninterp spec fn spec_rs_reconstruct(shards: Seq<Option<Seq<u8>>>) -> Seq<Seq<u8>>;

/// Data shards followed by their parity shards.
pub open spec fn rs_codeword(data: Seq<Seq<u8>>) -> Seq<Seq<u8>> {
    data + spec_rs_parity(data)
}

/// Eight data shards of 4096 bytes each.
pub open spec fn valid_data_shards(data: Seq<Seq<u8>>) -> bool {
    data.len() == 8 && forall|i: int| 0 <= i < 8 ==> (#[trigger] data[i]).len() == 4096
}

/// The shards present in `shards` agree with the codeword of `data`.
pub open spec fn agrees_with_codeword(shards: Seq<Option<Seq<u8>>>, data: Seq<Seq<u8>>) -> bool {
    forall|i: int| 0 <= i < 10 && (#[trigger] shards[i]) is Some ==> shards[i]->0 == rs_codeword(data)[i]
}

/// The byte contents of a list of shards.
pub open spec fn shards_view(v: Seq<Vec<u8>>) -> Seq<Seq<u8>> {
    Seq::new(v.len(), |i: int| v[i]@)
}

/// The byte contents of a list of shards that may be absent.
pub open spec fn opt_shards_view(v: Seq<Option<Vec<u8>>>) -> Seq<Option<Seq<u8>>> {
    Seq::new(v.len(), |i: int| match v[i] {
        Some(x) => Some(x@),
        None => None,
    })
}

/// Number of absent shards.
pub open spec fn count_missing(shards: Seq<Option<Seq<u8>>>) -> nat
    decreases shards.len(),
{
    if shards.len() == 0 {
        0
    } else {
        count_missing(shards.drop_last()) + if shards.last() is None { 1nat } else { 0nat }
    }
}

/// Computes the parity shards of ten 4096-byte shards in place with
/// `ReedSolomon::new(8, 2)` and `encode`.
///
/// Trusted: with ten equally long, non-empty shards the crate's checks
/// pass and it returns `Ok`; it writes the parity slots only.
#[verifier::external_body]
fn rs_encode_parity(shards: &mut Vec<Vec<u8>>) -> (r: Result<(), ReedSolomonError>)
    requires
        old(shards)@.len() == 10,
        forall|i: int| 0 <= i < 10 ==> (#[trigger] old(shards)@[i])@.len() == 4096,
    ensures
        r is Ok,
        final(shards)@.len() == 10,
        forall|i: int| 0 <= i < 8 ==> (#[trigger] final(shards)@[i])@ == old(shards)@[i]@,
        spec_rs_parity(shards_view(old(shards)@).subrange(0, 8)).len() == 2,
        forall|j: int| 0 <= j < 2 ==> (#[trigger] final(shards)@[8 + j])@
            == spec_rs_parity(shards_view(old(shards)@).subrange(0, 8))[j],
        forall|i: int| 0 <= i < 10 ==> (#[trigger] final(shards)@[i])@.len() == 4096,
{
    match ReedSolomon::new(8, 2) {
        Ok(codec) => codec.encode(shards),
        Err(e) => Err(e),
    }
}

/// Rebuilds the absent shards with `ReedSolomon::new(8, 2)` and
/// `reconstruct`.
///
/// Trusted: with at least eight present shards of equal non-zero length the
/// crate returns `Ok`, leaves present shards as they are and fills every
/// absent one; as for any Reed-Solomon code with two parity shards, when the
/// present shards agree with the codeword of some data, the result is that
/// codeword.
#[verifier::external_body]
fn rs_reconstruct(shards: &mut Vec<Option<Vec<u8>>>) -> (r: Result<(), ReedSolomonError>)
    requires
        old(shards)@.len() == 10,
        count_missing(opt_shards_view(old(shards)@)) <= 2,
        forall|i: int| 0 <= i < 10 && (#[trigger] old(shards)@[i]) is Some ==> old(shards)@[i]->0@.len() == 4096,
    ensures
        r is Ok,
        final(shards)@.len() == 10,
        forall|i: int| 0 <= i < 10 ==> (#[trigger] final(shards)@[i]) is Some,
        opt_shards_view(final(shards)@) == Seq::new(10, |i: int| Some(spec_rs_reconstruct(opt_shards_view(old(shards)@))[i])),
        spec_rs_reconstruct(opt_shards_view(old(shards)@)).len() == 10,
        forall|i: int| 0 <= i < 10 ==> (#[trigger] spec_rs_reconstruct(opt_shards_view(old(shards)@))[i]).len() == 4096,
        forall|i: int| 0 <= i < 10 && (#[trigger] opt_shards_view(old(shards)@)[i]) is Some
            ==> spec_rs_reconstruct(opt_shards_view(old(shards)@))[i] == opt_shards_view(old(shards)@)[i]->0,
        forall|data: Seq<Seq<u8>>| valid_data_shards(data) && #[trigger] agrees_with_codeword(opt_shards_view(old(shards)@), data)
            ==> spec_rs_reconstruct(opt_shards_view(old(shards)@)) == rs_codeword(data),
{
    match ReedSolomon::new(8, 2) {
        Ok(codec) => codec.reconstruct(shards.as_mut_slice()),
        Err(e) => Err(e),
    }
}

// ─────────────────────────────────────────
//  Headers and footers
// ─────────────────────────────────────────

fn push_magic(out: &mut Vec<u8>, m: [u8; 4])
    ensures
        final(out)@ == old(out)@ + m@,
{
    out.push(m[0]);
    out.push(m[1]);
    out.push(m[2]);
    out.push(m[3]);
    assert(final(out)@ =~= old(out)@ + m@);
}

fn push_u32_le(out: &mut Vec<u8>, x: u32)
    ensures
        final(out)@ == old(out)@ + spec_u32_to_le_bytes(x),
{
    let b = u32_to_le_bytes(x);
    append_bytes(out, b.as_slice());
}

fn push_u64_le(out: &mut Vec<u8>, x: u64)
    ensures
        final(out)@ == old(out)@ + spec_u64_to_le_bytes(x),
{
    let b = u64_to_le_bytes(x);
    append_bytes(out, b.as_slice());
}

impl RecordHeader {
    /// The 32-byte image of the header.
    pub fn to_bytes(self) -> (r: Vec<u8>)
        ensures
            r@ == spec_record_header_bytes(self),
    {
        let mut out: Vec<u8> = Vec::with_capacity(RS_RECORD_HEADER_BYTES);
        let magic: [u8; 4] = [0x52, 0x53, 0x52, 0x31];
        assert(magic@ =~= record_magic());
        push_magic(&mut out, magic);
        push_u32_le(&mut out, 1);
        push_u64_le(&mut out, self.sequence);
        push_u64_le(&mut out, self.payload_len);
        push_u32_le(&mut out, self.segment_count);
        let zeros: [u8; 4] = [0, 0, 0, 0];
        assert(zeros@ =~= zero4());
        push_magic(&mut out, zeros);
        out
    }

    /// Parses the 32-byte image of a header.
    pub fn from_bytes(bytes: &[u8]) -> (r: Result<RecordHeader, RsError>)
        requires
            bytes@.len() == 32,
        ensures
            r == spec_parse_record_header_bytes(bytes@),
    {
        let magic: [u8; 4] = [0x52, 0x53, 0x52, 0x31];
        assert(magic@ =~= record_magic());
        if !has_magic(bytes, 0, magic) {
            return Err(RsError::InvalidRecordMagic);
        }
        let version = u32_from_le_bytes(slice_subrange(bytes, 4, 8));
        if version != 1 {
            return Err(RsError::UnsupportedRecordVersion(version));
        }
        Ok(RecordHeader {
            sequence: u64_from_le_bytes(slice_subrange(bytes, 8, 16)),
            payload_len: u64_from_le_bytes(slice_subrange(bytes, 16, 24)),
            segment_count: u32_from_le_bytes(slice_subrange(bytes, 24, 28)),
        })
    }
}

impl SegmentHeader {
    /// The 24-byte image of the header.
    pub fn to_bytes(self) -> (r: Vec<u8>)
        ensures
            r@ == spec_segment_header_bytes(self),
    {
        let mut out: Vec<u8> = Vec::with_capacity(RS_SEGMENT_HEADER_BYTES);
        let magic: [u8; 4] = [0x52, 0x53, 0x47, 0x31];
        assert(magic@ =~= segment_magic());
        push_magic(&mut out, magic);
        push_u32_le(&mut out, 1);
        push_u32_le(&mut out, self.segment_index);
        push_u32_le(&mut out, self.data_len);
        push_u32_le(&mut out, self.segment_crc32);
        let zeros: [u8; 4] = [0, 0, 0, 0];
        assert(zeros@ =~= zero4());
        push_magic(&mut out, zeros);
        out
    }

    /// Parses a 24-byte segment header that should carry index `expected`.
    pub fn from_bytes(bytes: &[u8], expected: u32) -> (r: Result<SegmentHeader, RsError>)
        requires
            bytes@.len() == 24,
        ensures
            r == spec_parse_segment_header(bytes@, expected),
    {
        let magic: [u8; 4] = [0x52, 0x53, 0x47, 0x31];
        assert(magic@ =~= segment_magic());
        if !has_magic(bytes, 0, magic) {
            return Err(RsError::InvalidSegmentMagic { segment_index: expected });
        }
        let version = u32_from_le_bytes(slice_subrange(bytes, 4, 8));
        if version != 1 {
            return Err(RsError::UnsupportedSegmentVersion { segment_index: expected, version });
        }
        let actual = u32_from_le_bytes(slice_subrange(bytes, 8, 12));
        if actual != expected {
            return Err(RsError::InvalidSegmentIndex { expected, actual });
        }
        let data_len = u32_from_le_bytes(slice_subrange(bytes, 12, 16));
        if data_len as usize > RS_DATA_BYTES_PER_SEGMENT {
            return Err(RsError::InvalidSegmentLength { segment_index: expected, data_len });
        }
        Ok(SegmentHeader {
            segment_index: actual,
            data_len,
            segment_crc32: u32_from_le_bytes(slice_subrange(bytes, 16, 20)),
        })
    }
}

/// The 8-byte segment footer.
fn footer_to_bytes(segment_crc32: u32) -> (r: Vec<u8>)
    ensures
        r@ == spec_footer_bytes(segment_crc32),
{
    let mut out: Vec<u8> = Vec::with_capacity(RS_SEGMENT_FOOTER_BYTES);
    let magic: [u8; 4] = [0x52, 0x53, 0x45, 0x31];
    assert(magic@ =~= footer_magic());
    push_magic(&mut out, magic);
    push_u32_le(&mut out, segment_crc32);
    out
}

/// Checks an 8-byte footer against the checksum of the segment header.
fn check_footer(bytes: &[u8], expected_crc32: u32, segment_index: u32) -> (r: Result<(), RsError>)
    requires
        bytes@.len() == 8,
    ensures
        spec_footer_ok(bytes@, expected_crc32) ==> r is Ok,
        !spec_footer_ok(bytes@, expected_crc32) ==> r == Err::<(), RsError>(RsError::InvalidSegmentFooter { segment_index }),
{
    let magic: [u8; 4] = [0x52, 0x53, 0x45, 0x31];
    assert(magic@ =~= footer_magic());
    if !has_magic(bytes, 0, magic) {
        return Err(RsError::InvalidSegmentFooter { segment_index });
    }
    let crc = u32_from_le_bytes(slice_subrange(bytes, 4, 8));
    if crc != expected_crc32 {
        return Err(RsError::InvalidSegmentFooter { segment_index });
    }
    Ok(())
}

// ─────────────────────────────────────────
//  Segments
// ─────────────────────────────────────────

/// Shard `i` of an encoded segment.
pub open spec fn shard_at(seg: Seq<u8>, i: int) -> Seq<u8> {
    seg.subrange(64 + 4096 * i, 64 + 4096 * (i + 1))
}

/// The CRC table entry of shard `i` of an encoded segment.
pub open spec fn crc_entry(seg: Seq<u8>, i: int) -> u32 {
    spec_u32_from_le_bytes(seg.subrange(24 + 4 * i, 28 + 4 * i))
}

/// Shard `i` matches its CRC table entry.
pub open spec fn shard_intact(seg: Seq<u8>, i: int) -> bool {
    spec_crc32c(shard_at(seg, i)) == crc_entry(seg, i)
}

/// The shards of a segment, those that fail their CRC marked absent.
pub open spec fn present_shards(seg: Seq<u8>) -> Seq<Option<Seq<u8>>> {
    Seq::new(10, |i: int| if shard_intact(seg, i) { Some(shard_at(seg, i)) } else { None })
}

/// The shards after reconstruction (none is needed when all are present).
pub open spec fn rebuilt_shards(seg: Seq<u8>) -> Seq<Seq<u8>> {
    if count_missing(present_shards(seg)) == 0 {
        Seq::new(10, |i: int| shard_at(seg, i))
    } else {
        spec_rs_reconstruct(present_shards(seg))
    }
}

/// The first of the first `k` shards whose content fails its CRC entry.
pub open spec fn first_bad_shard(seg: Seq<u8>, shards: Seq<Seq<u8>>, k: nat) -> Option<nat>
    decreases k,
{
    if k == 0 {
        None
    } else {
        match first_bad_shard(seg, shards, (k - 1) as nat) {
            Some(j) => Some(j),
            None => if spec_crc32c(shards[k - 1]) != crc_entry(seg, k - 1) { Some((k - 1) as nat) } else { None },
        }
    }
}

/// The first `k` shards one after another.
pub open spec fn concat_shards(shards: Seq<Seq<u8>>, k: nat) -> Seq<u8>
    decreases k,
{
    if k == 0 { Seq::empty() } else { concat_shards(shards, (k - 1) as nat) + shards[k - 1] }
}

/// Decoding of an encoded segment that should carry index `expected`.
pub open spec fn spec_decode_segment(expected: u32, seg: Seq<u8>) -> Result<Seq<u8>, RsError> {
    match spec_parse_segment_header(seg.subrange(0, 24), expected) {
        Err(e) => Err(e),
        Ok(h) => if !spec_footer_ok(seg.subrange(41024, 41032), h.segment_crc32) {
            Err(RsError::InvalidSegmentFooter { segment_index: expected })
        } else if count_missing(present_shards(seg)) > 2 {
            Err(RsError::TooManyShardErasures {
                segment_index: expected,
                missing_shards: count_missing(present_shards(seg)) as usize,
                parity_shards: 2,
            })
        } else {
            match first_bad_shard(seg, rebuilt_shards(seg), 10) {
                Some(i) => Err(RsError::ShardCrcMismatch { segment_index: expected, shard_index: i as usize }),
                None => {
                    let chunk = concat_shards(rebuilt_shards(seg), 8).subrange(0, h.data_len as int);
                    if spec_crc32c(chunk) != h.segment_crc32 {
                        Err(RsError::SegmentChecksumMismatch { segment_index: expected })
                    } else {
                        Ok(chunk)
                    }
                },
            }
        },
    }
}

proof fn lemma_count_missing_push(s: Seq<Option<Seq<u8>>>, x: Option<Seq<u8>>)
    ensures
        count_missing(s.push(x)) == count_missing(s) + if x is None { 1nat } else { 0nat },
{
    assert(s.push(x).drop_last() =~= s);
}

proof fn lemma_count_missing_bound(s: Seq<Option<Seq<u8>>>)
    ensures
        count_missing(s) <= s.len(),
        count_missing(s) == 0 ==> forall|i: int| 0 <= i < s.len() ==> (#[trigger] s[i]) is Some,
    decreases s.len(),
{
    if s.len() > 0 {
        lemma_count_missing_bound(s.drop_last());
        assert forall|i: int| 0 <= i < s.len() && count_missing(s) == 0 implies (#[trigger] s[i]) is Some by {
            if i < s.len() - 1 {
                assert(s.drop_last()[i] == s[i]);
            }
        }
    }
}

proof fn lemma_first_bad_sticks(seg: Seq<u8>, shards: Seq<Seq<u8>>, k: nat, m: nat)
    requires
        k <= m,
        first_bad_shard(seg, shards, k) is Some,
    ensures
        first_bad_shard(seg, shards, m) == first_bad_shard(seg, shards, k),
    decreases m - k,
{
    if k < m {
        lemma_first_bad_sticks(seg, shards, k, (m - 1) as nat);
    }
}

proof fn lemma_concat_shards_len(shards: Seq<Seq<u8>>, k: nat)
    requires
        k <= shards.len(),
        forall|i: int| 0 <= i < k ==> (#[trigger] shards[i]).len() == 4096,
    ensures
        concat_shards(shards, k).len() == 4096 * k,
    decreases k,
{
    if k > 0 {
        lemma_concat_shards_len(shards, (k - 1) as nat);
    }
}

/// Rebuilds absent shards when there are some and at most two.
fn reconstruct_missing_shards(
    shards: &mut Vec<Option<Vec<u8>>>,
    segment_index: u32,
    missing_shards: usize,
) -> (r: Result<(), RsError>)
    requires
        old(shards)@.len() == 10,
        missing_shards == count_missing(opt_shards_view(old(shards)@)),
        forall|i: int| 0 <= i < 10 && (#[trigger] old(shards)@[i]) is Some ==> old(shards)@[i]->0@.len() == 4096,
    ensures
        missing_shards > 2 ==> r == Err::<(), RsError>(RsError::TooManyShardErasures {
            segment_index,
            missing_shards,
            parity_shards: 2,
        }),
        missing_shards <= 2 ==> r is Ok,
        missing_shards == 0 ==> final(shards)@ == old(shards)@,
        0 < missing_shards <= 2 ==> opt_shards_view(final(shards)@)
            == Seq::new(10, |i: int| Some(spec_rs_reconstruct(opt_shards_view(old(shards)@))[i])),
        0 < missing_shards <= 2 ==> final(shards)@.len() == 10,
        0 < missing_shards <= 2 ==> spec_rs_reconstruct(opt_shards_view(old(shards)@)).len() == 10,
        0 < missing_shards <= 2 ==> forall|i: int| 0 <= i < 10
            ==> (#[trigger] spec_rs_reconstruct(opt_shards_view(old(shards)@))[i]).len() == 4096,
        0 < missing_shards <= 2 ==> forall|i: int| 0 <= i < 10 && (#[trigger] opt_shards_view(old(shards)@)[i]) is Some
            ==> spec_rs_reconstruct(opt_shards_view(old(shards)@))[i] == opt_shards_view(old(shards)@)[i]->0,
        0 < missing_shards <= 2 ==> forall|data: Seq<Seq<u8>>| valid_data_shards(data)
            && #[trigger] agrees_with_codeword(opt_shards_view(old(shards)@), data)
            ==> spec_rs_reconstruct(opt_shards_view(old(shards)@)) == rs_codeword(data),
{
    if missing_shards > RS_PARITY_SHARDS {
        return Err(RsError::TooManyShardErasures { segment_index, missing_shards, parity_shards: RS_PARITY_SHARDS });
    }
    if missing_shards > 0 {
        match rs_reconstruct(shards) {
            Ok(()) => {},
            Err(e) => return Err(RsError::Reconstruct(e)),
        }
    }
    Ok(())
}

/// Header and footer of a segment are valid and at most two shards fail
/// their CRC: the point where reconstruction happens.
pub open spec fn reaches_reconstruction(seg: Seq<u8>, index: u32) -> bool {
    &&& spec_parse_segment_header(seg.subrange(0, 24), index) is Ok
    &&& spec_footer_ok(seg.subrange(41024, 41032), spec_parse_segment_header(seg.subrange(0, 24), index)->Ok_0.segment_crc32)
    &&& count_missing(present_shards(seg)) <= 2
}

/// Decodes one encoded segment: checks header and footer, marks shards that
/// fail their CRC absent, rebuilds them from the others, checks every shard
/// and the data checksum, and returns the segment's data. A segment with at
/// most two damaged shards, each failing its CRC, decodes to its data.
fn decode_segment(expected_segment_index: u32, seg: &[u8]) -> (r: Result<Vec<u8>, RsError>)
    requires
        seg@.len() == 41032,
    ensures
        match spec_decode_segment(expected_segment_index, seg@) {
            Ok(chunk) => r matches Ok(v) && v@ == chunk,
            Err(e) => r matches Err(x) && x == e,
        },
        r matches Ok(v) ==> v@.len() <= 32768,
        forall|chunk: Seq<u8>| #[trigger] damaged_encoding(seg@, expected_segment_index, chunk)
            ==> (r matches Ok(v) && v@ == chunk),
{
    let r = decode_segment_shards(expected_segment_index, seg);
    proof {
        assert forall|chunk: Seq<u8>| #[trigger] damaged_encoding(seg@, expected_segment_index, chunk)
            implies spec_decode_segment(expected_segment_index, seg@) == Ok::<Seq<u8>, RsError>(chunk) by {
            lemma_encoding_layout(expected_segment_index, chunk);
            let e = spec_encode_segment(expected_segment_index, chunk);
            assert(seg@.subrange(0, 24) =~= seg@.subrange(0, 64).subrange(0, 24));
            assert(e.subrange(0, 24) =~= e.subrange(0, 64).subrange(0, 24));
            assert(reaches_reconstruction(seg@, expected_segment_index));
            lemma_damaged_decodes(seg@, expected_segment_index, chunk);
        }
    }
    r
}

fn decode_segment_shards(expected_segment_index: u32, seg: &[u8]) -> (r: Result<Vec<u8>, RsError>)
    requires
        seg@.len() == 41032,
    ensures
        match spec_decode_segment(expected_segment_index, seg@) {
            Ok(chunk) => r matches Ok(v) && v@ == chunk,
            Err(e) => r matches Err(x) && x == e,
        },
        r matches Ok(v) ==> v@.len() <= 32768,
        reaches_reconstruction(seg@, expected_segment_index) ==> codec_rebuilds(seg@),
{
    let header = match SegmentHeader::from_bytes(slice_subrange(seg, 0, 24), expected_segment_index) {
        Ok(h) => h,
        Err(e) => return Err(e),
    };
    match check_footer(slice_subrange(seg, SEGMENT_FOOTER_START, SEGMENT_FOOTER_START + 8), header.segment_crc32, expected_segment_index) {
        Ok(()) => {},
        Err(e) => return Err(e),
    }

    let mut shard_crcs: Vec<u32> = Vec::with_capacity(RS_TOTAL_SHARDS);
    let mut i: usize = 0;
    while i < RS_TOTAL_SHARDS
        invariant
            seg@.len() == 41032,
            0 <= i <= 10,
            shard_crcs@.len() == i,
            forall|j: int| 0 <= j < i ==> shard_crcs@[j] == #[trigger] crc_entry(seg@, j),
        decreases 10 - i,
    {
        let start = RS_SEGMENT_HEADER_BYTES + i * 4;
        shard_crcs.push(u32_from_le_bytes(slice_subrange(seg, start, start + 4)));
        i += 1;
    }

    let ghost present = present_shards(seg@);
    let mut shards: Vec<Option<Vec<u8>>> = Vec::with_capacity(RS_TOTAL_SHARDS);
    let mut missing_shards: usize = 0;
    let mut i: usize = 0;
    while i < RS_TOTAL_SHARDS
        invariant
            seg@.len() == 41032,
            0 <= i <= 10,
            present == present_shards(seg@),
            shard_crcs@.len() == 10,
            forall|j: int| 0 <= j < 10 ==> shard_crcs@[j] == #[trigger] crc_entry(seg@, j),
            shards@.len() == i,
            opt_shards_view(shards@) == present.subrange(0, i as int),
            forall|j: int| 0 <= j < i && (#[trigger] shards@[j]) is Some ==> shards@[j]->0@.len() == 4096,
            missing_shards == count_missing(present.subrange(0, i as int)),
            missing_shards <= i,
        decreases 10 - i,
    {
        let start = SHARD_DATA_START + i * RS_SHARD_BYTES;
        let shard = crate::healed::bytes::copy_range(seg, start, start + RS_SHARD_BYTES);
        proof {
            lemma_count_missing_push(present.subrange(0, i as int), present[i as int]);
            assert(present.subrange(0, i as int).push(present[i as int]) =~= present.subrange(0, i + 1));
        }
        if crc32_iscsi(shard.as_slice()) == shard_crcs[i] {
            shards.push(Some(shard));
        } else {
            shards.push(None);
            missing_shards += 1;
        }
        i += 1;
        assert(opt_shards_view(shards@) =~= present.subrange(0, i as int));
    }
    assert(present.subrange(0, 10) =~= present);

    let ghost before = shards@;
    match reconstruct_missing_shards(&mut shards, expected_segment_index, missing_shards) {
        Ok(()) => {},
        Err(e) => return Err(e),
    }
    let ghost rebuilt = rebuilt_shards(seg@);
    proof {
        if missing_shards == 0 {
            lemma_count_missing_bound(present);
            assert forall|j: int| 0 <= j < 10 implies opt_shards_view(shards@)[j] == Some(rebuilt[j]) by {
                assert(present[j] is Some);
            }
        } else {
            assert(opt_shards_view(before) == present);
            assert forall|j: int| 0 <= j < 10 implies opt_shards_view(shards@)[j] == Some(rebuilt[j]) by {}
        }
    }

    let mut i: usize = 0;
    while i < RS_TOTAL_SHARDS
        invariant
            0 <= i <= 10,
            shards@.len() == 10,
            rebuilt == rebuilt_shards(seg@),
            forall|j: int| 0 <= j < 10 ==> #[trigger] opt_shards_view(shards@)[j] == Some(rebuilt[j]),
            shard_crcs@.len() == 10,
            forall|j: int| 0 <= j < 10 ==> shard_crcs@[j] == #[trigger] crc_entry(seg@, j),
            first_bad_shard(seg@, rebuilt, i as nat) is None,
            count_missing(present_shards(seg@)) <= 2,
            codec_rebuilds(seg@),
            spec_parse_segment_header(seg@.subrange(0, 24), expected_segment_index) == Ok::<SegmentHeader, RsError>(header),
            spec_footer_ok(seg@.subrange(41024, 41032), header.segment_crc32),
        decreases 10 - i,
    {
        assert(opt_shards_view(shards@)[i as int] == Some(rebuilt[i as int]));
        match &shards[i] {
            Some(s) => {
                if crc32_iscsi(s.as_slice()) != shard_crcs[i] {
                    proof {
                        lemma_first_bad_sticks(seg@, rebuilt, (i + 1) as nat, 10);
                    }
                    return Err(RsError::ShardCrcMismatch { segment_index: expected_segment_index, shard_index: i });
                }
            },
            None => {
                return Err(RsError::TooManyShardErasures {
                    segment_index: expected_segment_index,
                    missing_shards: RS_PARITY_SHARDS + 1,
                    parity_shards: RS_PARITY_SHARDS,
                });
            },
        }
        i += 1;
    }

    let mut data_block: Vec<u8> = Vec::with_capacity(RS_DATA_BYTES_PER_SEGMENT);
    let mut i: usize = 0;
    while i < RS_DATA_SHARDS
        invariant
            0 <= i <= 8,
            shards@.len() == 10,
            forall|j: int| 0 <= j < 10 ==> #[trigger] opt_shards_view(shards@)[j] == Some(rebuilt[j]),
            data_block@ == concat_shards(rebuilt, i as nat),
        decreases 8 - i,
    {
        assert(opt_shards_view(shards@)[i as int] == Some(rebuilt[i as int]));
        match &shards[i] {
            Some(s) => {
                append_bytes(&mut data_block, s.as_slice());
            },
            None => {},
        }
        i += 1;
    }
    proof {
        assert forall|j: int| 0 <= j < 8 implies (#[trigger] rebuilt[j]).len() == 4096 by {
            assert(opt_shards_view(shards@)[j] == Some(rebuilt[j]));
            if count_missing(present) == 0 {
                assert(rebuilt[j] == shard_at(seg@, j));
            }
        }
        lemma_concat_shards_len(rebuilt, 8);
    }

    let data_len = header.data_len as usize;
    let chunk = crate::healed::bytes::copy_range(data_block.as_slice(), 0, data_len);
    if crc32_iscsi(chunk.as_slice()) != header.segment_crc32 {
        return Err(RsError::SegmentChecksumMismatch { segment_index: expected_segment_index });
    }
    Ok(chunk)
}

/// A chunk padded with zero bytes to a full segment of data.
pub open spec fn padded_chunk(chunk: Seq<u8>) -> Seq<u8> {
    chunk + Seq::new((32768 - chunk.len()) as nat, |i: int| 0u8)
}

/// The eight data shards of a chunk.
pub open spec fn data_shards_of(chunk: Seq<u8>) -> Seq<Seq<u8>> {
    Seq::new(8, |i: int| padded_chunk(chunk).subrange(4096 * i, 4096 * (i + 1)))
}

/// The CRC table of the first `k` shards.
pub open spec fn crc_table_bytes(shards: Seq<Seq<u8>>, k: nat) -> Seq<u8>
    decreases k,
{
    if k == 0 { Seq::empty() } else { crc_table_bytes(shards, (k - 1) as nat) + spec_u32_to_le_bytes(spec_crc32c(shards[k - 1])) }
}

/// The encoded segment `index` carrying `chunk`.
pub open spec fn spec_encode_segment(index: u32, chunk: Seq<u8>) -> Seq<u8> {
    let cw = rs_codeword(data_shards_of(chunk));
    let crc = spec_crc32c(chunk);
    spec_segment_header_bytes(SegmentHeader { segment_index: index, data_len: chunk.len() as u32, segment_crc32: crc })
        + crc_table_bytes(cw, 10) + concat_shards(cw, 10) + spec_footer_bytes(crc)
}

/// The codec's parity shards of `chunk` are two shards of 4096 bytes.
pub open spec fn parity_well_sized(chunk: Seq<u8>) -> bool {
    &&& spec_rs_parity(data_shards_of(chunk)).len() == 2
    &&& forall|j: int| 0 <= j < 2 ==> (#[trigger] spec_rs_parity(data_shards_of(chunk))[j]).len() == 4096
}

proof fn lemma_concat_shards_piece(shards: Seq<Seq<u8>>, k: nat, j: int)
    requires
        k <= shards.len(),
        0 <= j < k,
        forall|i: int| 0 <= i < k ==> (#[trigger] shards[i]).len() == 4096,
    ensures
        concat_shards(shards, k).subrange(4096 * j, 4096 * (j + 1)) == shards[j],
    decreases k,
{
    lemma_concat_shards_len(shards, k);
    lemma_concat_shards_len(shards, (k - 1) as nat);
    let prev = concat_shards(shards, (k - 1) as nat);
    if j < k - 1 {
        lemma_concat_shards_piece(shards, (k - 1) as nat, j);
        assert(concat_shards(shards, k).subrange(4096 * j, 4096 * (j + 1)) =~= prev.subrange(4096 * j, 4096 * (j + 1)));
    } else {
        assert(concat_shards(shards, k).subrange(4096 * j, 4096 * (j + 1)) =~= shards[j]);
    }
}

proof fn lemma_crc_table(shards: Seq<Seq<u8>>, k: nat, j: int)
    requires
        k <= shards.len(),
        0 <= j < k,
    ensures
        crc_table_bytes(shards, k).len() == 4 * k,
        crc_table_bytes(shards, k).subrange(4 * j, 4 * j + 4) == spec_u32_to_le_bytes(spec_crc32c(shards[j])),
    decreases k,
{
    vstd::bytes::lemma_auto_spec_u32_to_from_le_bytes();
    assert(spec_u32_to_le_bytes(spec_crc32c(shards[k - 1])).len() == 4);
    if k > 1 {
        lemma_crc_table(shards, (k - 1) as nat, if j < k - 1 { j } else { 0 });
    }
    let prev = crc_table_bytes(shards, (k - 1) as nat);
    if j < k - 1 {
        assert(crc_table_bytes(shards, k).subrange(4 * j, 4 * j + 4) =~= prev.subrange(4 * j, 4 * j + 4));
    } else {
        assert(crc_table_bytes(shards, k).subrange(4 * j, 4 * j + 4) =~= spec_u32_to_le_bytes(spec_crc32c(shards[j])));
    }
}

proof fn lemma_concat_data_shards(chunk: Seq<u8>, k: nat)
    requires
        chunk.len() <= 32768,
        k <= 8,
    ensures
        concat_shards(data_shards_of(chunk), k) == padded_chunk(chunk).subrange(0, (4096 * k) as int),
    decreases k,
{
    if k > 0 {
        lemma_concat_data_shards(chunk, (k - 1) as nat);
        assert(concat_shards(data_shards_of(chunk), k) =~= padded_chunk(chunk).subrange(0, (4096 * k) as int));
    } else {
        assert(padded_chunk(chunk).subrange(0, 0) =~= Seq::<u8>::empty());
    }
}

proof fn lemma_count_missing_all_some(s: Seq<Option<Seq<u8>>>)
    requires
        forall|i: int| 0 <= i < s.len() ==> (#[trigger] s[i]) is Some,
    ensures
        count_missing(s) == 0,
    decreases s.len(),
{
    if s.len() > 0 {
        assert forall|i: int| 0 <= i < s.drop_last().len() implies (#[trigger] s.drop_last()[i]) is Some by {
            assert(s.drop_last()[i] == s[i]);
        }
        lemma_count_missing_all_some(s.drop_last());
        assert(s[s.len() - 1] is Some);
    }
}

proof fn lemma_first_bad_none(seg: Seq<u8>, shards: Seq<Seq<u8>>, k: nat)
    requires
        forall|i: int| 0 <= i < k ==> spec_crc32c(#[trigger] shards[i]) == crc_entry(seg, i),
    ensures
        first_bad_shard(seg, shards, k) is None,
    decreases k,
{
    if k > 0 {
        lemma_first_bad_none(seg, shards, (k - 1) as nat);
        assert(spec_crc32c(shards[k - 1]) == crc_entry(seg, k - 1));
    }
}

proof fn lemma_concat_prefix_eq(a: Seq<Seq<u8>>, b: Seq<Seq<u8>>, k: nat)
    requires
        forall|i: int| 0 <= i < k ==> #[trigger] a[i] == b[i],
    ensures
        concat_shards(a, k) == concat_shards(b, k),
    decreases k,
{
    if k > 0 {
        lemma_concat_prefix_eq(a, b, (k - 1) as nat);
        assert(a[k - 1] == b[k - 1]);
    }
}

/// Layout facts of an encoded segment.
proof fn lemma_encoding_layout(index: u32, chunk: Seq<u8>)
    requires
        chunk.len() <= 32768,
        parity_well_sized(chunk),
    ensures
        spec_encode_segment(index, chunk).len() == 41032,
        rs_codeword(data_shards_of(chunk)).len() == 10,
        forall|i: int| 0 <= i < 10 ==> (#[trigger] rs_codeword(data_shards_of(chunk))[i]).len() == 4096,
        spec_parse_segment_header(spec_encode_segment(index, chunk).subrange(0, 24), index) == Ok::<SegmentHeader, RsError>(
            SegmentHeader { segment_index: index, data_len: chunk.len() as u32, segment_crc32: spec_crc32c(chunk) }),
        spec_footer_ok(spec_encode_segment(index, chunk).subrange(41024, 41032), spec_crc32c(chunk)),
        forall|i: int| 0 <= i < 10 ==> #[trigger] shard_at(spec_encode_segment(index, chunk), i) == rs_codeword(data_shards_of(chunk))[i]
            && crc_entry(spec_encode_segment(index, chunk), i) == spec_crc32c(rs_codeword(data_shards_of(chunk))[i]),
{
    vstd::bytes::lemma_auto_spec_u32_to_from_le_bytes();
    let data = data_shards_of(chunk);
    let cw = rs_codeword(data);
    let crc = spec_crc32c(chunk);
    let h = SegmentHeader { segment_index: index, data_len: chunk.len() as u32, segment_crc32: crc };
    let hb = spec_segment_header_bytes(h);
    let seg = spec_encode_segment(index, chunk);
    assert(cw.len() == 10);
    assert forall|i: int| 0 <= i < 10 implies (#[trigger] cw[i]).len() == 4096 by {
        if i >= 8 {
            assert(cw[i] == spec_rs_parity(data)[i - 8]);
        }
    }
    assert(spec_u32_to_le_bytes(1).len() == 4);
    assert(spec_u32_to_le_bytes(index).len() == 4);
    assert(spec_u32_to_le_bytes(chunk.len() as u32).len() == 4);
    assert(spec_u32_to_le_bytes(crc).len() == 4);
    assert(hb.len() == 24);
    lemma_crc_table(cw, 10, 0);
    lemma_concat_shards_len(cw, 10);
    let t = crc_table_bytes(cw, 10);
    let sh = concat_shards(cw, 10);
    assert(seg.len() == 41032);
    assert(seg.subrange(0, 24) =~= hb);
    assert(hb.subrange(0, 4) =~= segment_magic());
    assert(hb.subrange(4, 8) =~= spec_u32_to_le_bytes(1));
    assert(hb.subrange(8, 12) =~= spec_u32_to_le_bytes(index));
    assert(hb.subrange(12, 16) =~= spec_u32_to_le_bytes(chunk.len() as u32));
    assert(hb.subrange(16, 20) =~= spec_u32_to_le_bytes(crc));
    let fb = spec_footer_bytes(crc);
    assert(seg.subrange(41024, 41032) =~= fb);
    assert(fb.subrange(0, 4) =~= footer_magic());
    assert(fb.subrange(4, 8) =~= spec_u32_to_le_bytes(crc));
    assert forall|i: int| 0 <= i < 10 implies #[trigger] shard_at(seg, i) == cw[i] && crc_entry(seg, i) == spec_crc32c(cw[i]) by {
        lemma_concat_shards_piece(cw, 10, i);
        lemma_crc_table(cw, 10, i);
        assert(shard_at(seg, i) =~= sh.subrange(4096 * i, 4096 * (i + 1)));
        assert(seg.subrange(24 + 4 * i, 28 + 4 * i) =~= t.subrange(4 * i, 4 * i + 4));
    }
}

/// A segment whose header, CRC table and footer are those of the encoding
/// of `chunk`, and whose shards rebuild to the codeword of `chunk`, decodes
/// to `chunk`.
proof fn lemma_decode_from_codeword(seg: Seq<u8>, index: u32, chunk: Seq<u8>)
    requires
        chunk.len() <= 32768,
        parity_well_sized(chunk),
        seg.len() == 41032,
        seg.subrange(0, 64) == spec_encode_segment(index, chunk).subrange(0, 64),
        seg.subrange(41024, 41032) == spec_encode_segment(index, chunk).subrange(41024, 41032),
        count_missing(present_shards(seg)) <= 2,
        rebuilt_shards(seg) == rs_codeword(data_shards_of(chunk)),
    ensures
        spec_decode_segment(index, seg) == Ok::<Seq<u8>, RsError>(chunk),
{
    let e = spec_encode_segment(index, chunk);
    let data = data_shards_of(chunk);
    let cw = rs_codeword(data);
    lemma_encoding_layout(index, chunk);
    assert(seg.subrange(0, 24) =~= seg.subrange(0, 64).subrange(0, 24));
    assert(e.subrange(0, 24) =~= e.subrange(0, 64).subrange(0, 24));
    assert forall|i: int| 0 <= i < 10 implies #[trigger] crc_entry(seg, i) == crc_entry(e, i) by {
        assert(seg.subrange(24 + 4 * i, 28 + 4 * i) =~= seg.subrange(0, 64).subrange(24 + 4 * i, 28 + 4 * i));
        assert(e.subrange(24 + 4 * i, 28 + 4 * i) =~= e.subrange(0, 64).subrange(24 + 4 * i, 28 + 4 * i));
    }
    let rebuilt = rebuilt_shards(seg);
    assert forall|i: int| 0 <= i < 10 implies spec_crc32c(#[trigger] rebuilt[i]) == crc_entry(seg, i) by {
        assert(shard_at(e, i) == cw[i]);
    }
    lemma_first_bad_none(seg, rebuilt, 10);
    lemma_concat_data_shards(chunk, 8);
    lemma_concat_prefix_eq(rebuilt, data, 8);
    assert(padded_chunk(chunk).subrange(0, 32768).subrange(0, chunk.len() as int) =~= chunk);
}

/// An encoded segment decodes back to its chunk.
proof fn lemma_segment_roundtrip(index: u32, chunk: Seq<u8>)
    requires
        chunk.len() <= 32768,
        parity_well_sized(chunk),
    ensures
        spec_encode_segment(index, chunk).len() == 41032,
        spec_decode_segment(index, spec_encode_segment(index, chunk)) == Ok::<Seq<u8>, RsError>(chunk),
{
    let seg = spec_encode_segment(index, chunk);
    lemma_encoding_layout(index, chunk);
    let cw = rs_codeword(data_shards_of(chunk));
    assert forall|i: int| 0 <= i < 10 implies (#[trigger] present_shards(seg)[i]) is Some by {
        assert(shard_at(seg, i) == cw[i]);
    }
    lemma_count_missing_all_some(present_shards(seg));
    assert(rebuilt_shards(seg) =~= cw);
    lemma_decode_from_codeword(seg, index, chunk);
}

/// `seg` is the encoded segment `index` of `chunk` in which at most two
/// shards are damaged, each failing its CRC check; header, CRC table and
/// footer are intact.
pub open spec fn damaged_encoding(seg: Seq<u8>, index: u32, chunk: Seq<u8>) -> bool {
    let e = spec_encode_segment(index, chunk);
    &&& chunk.len() <= 32768
    &&& parity_well_sized(chunk)
    &&& seg.len() == 41032
    &&& seg.subrange(0, 64) == e.subrange(0, 64)
    &&& seg.subrange(41024, 41032) == e.subrange(41024, 41032)
    &&& count_missing(present_shards(seg)) <= 2
    &&& forall|i: int| 0 <= i < 10 && shard_intact(seg, i) ==> #[trigger] shard_at(seg, i) == shard_at(e, i)
}

/// The codec rebuilds codewords from the shards that `seg` has intact.
pub open spec fn codec_rebuilds(seg: Seq<u8>) -> bool {
    0 < count_missing(present_shards(seg)) <= 2 ==> forall|data: Seq<Seq<u8>>| valid_data_shards(data)
        && #[trigger] agrees_with_codeword(present_shards(seg), data)
        ==> spec_rs_reconstruct(present_shards(seg)) == rs_codeword(data)
}

proof fn lemma_damaged_decodes(seg: Seq<u8>, index: u32, chunk: Seq<u8>)
    requires
        damaged_encoding(seg, index, chunk),
        codec_rebuilds(seg),
    ensures
        spec_decode_segment(index, seg) == Ok::<Seq<u8>, RsError>(chunk),
{
    let e = spec_encode_segment(index, chunk);
    let data = data_shards_of(chunk);
    let cw = rs_codeword(data);
    lemma_encoding_layout(index, chunk);
    let present = present_shards(seg);
    assert forall|i: int| 0 <= i < 10 && (#[trigger] present[i]) is Some implies present[i]->0 == cw[i] by {
        assert(shard_at(seg, i) == shard_at(e, i));
    }
    assert(agrees_with_codeword(present, data));
    assert(valid_data_shards(data));
    if count_missing(present) == 0 {
        lemma_count_missing_bound(present);
        assert forall|i: int| 0 <= i < 10 implies #[trigger] rebuilt_shards(seg)[i] == cw[i] by {
            assert(present[i] is Some);
            assert(shard_at(seg, i) == shard_at(e, i));
        }
        assert(rebuilt_shards(seg) =~= cw);
    }
    lemma_decode_from_codeword(seg, index, chunk);
}

fn zero_shard() -> (r: Vec<u8>)
    ensures
        r@ == Seq::new(4096, |i: int| 0u8),
{
    let mut v: Vec<u8> = Vec::with_capacity(RS_SHARD_BYTES);
    let mut i: usize = 0;
    while i < RS_SHARD_BYTES
        invariant
            0 <= i <= 4096,
            v@ == Seq::new(i as nat, |k: int| 0u8),
        decreases 4096 - i,
    {
        v.push(0);
        i += 1;
        assert(v@ =~= Seq::new(i as nat, |k: int| 0u8));
    }
    v
}

/// Encodes one segment: the chunk padded to eight data shards, two parity
/// shards, the shard CRC table, the header and the footer.
fn encode_segment(segment_index: u32, chunk: &[u8], encoded: &mut Vec<u8>) -> (r: Result<(), RsError>)
    requires
        chunk@.len() <= 32768,
    ensures
        r is Ok,
        final(encoded)@ == old(encoded)@ + spec_encode_segment(segment_index, chunk@),
        parity_well_sized(chunk@),
{
    let ghost padded = padded_chunk(chunk@);
    let mut data_block: Vec<u8> = crate::healed::bytes::copy_range(chunk, 0, chunk.len());
    assert(chunk@.subrange(0, chunk@.len() as int) =~= chunk@);
    while data_block.len() < RS_DATA_BYTES_PER_SEGMENT
        invariant
            chunk@.len() <= data_block@.len() <= 32768,
            padded == padded_chunk(chunk@),
            data_block@ == padded.subrange(0, data_block@.len() as int),
        decreases 32768 - data_block@.len(),
    {
        data_block.push(0);
        assert(data_block@ =~= padded.subrange(0, data_block@.len() as int));
    }
    assert(padded.subrange(0, 32768) =~= padded);

    let mut shards: Vec<Vec<u8>> = Vec::with_capacity(RS_TOTAL_SHARDS);
    let mut i: usize = 0;
    while i < RS_DATA_SHARDS
        invariant
            0 <= i <= 8,
            data_block@ == padded,
            padded == padded_chunk(chunk@),
            padded.len() == 32768,
            shards@.len() == i,
            shards_view(shards@) == data_shards_of(chunk@).subrange(0, i as int),
        decreases 8 - i,
    {
        let start = i * RS_SHARD_BYTES;
        shards.push(crate::healed::bytes::copy_range(data_block.as_slice(), start, start + RS_SHARD_BYTES));
        i += 1;
        assert(shards_view(shards@) =~= data_shards_of(chunk@).subrange(0, i as int));
    }
    let ghost mid = shards@;
    assert(shards_view(mid) =~= data_shards_of(chunk@));
    shards.push(zero_shard());
    shards.push(zero_shard());
    let ghost before = shards@;
    assert forall|j: int| 0 <= j < 8 implies #[trigger] before[j] == mid[j] by {}
    assert(shards_view(before).subrange(0, 8) =~= data_shards_of(chunk@)) by {
        assert forall|j: int| 0 <= j < 8 implies shards_view(before)[j] == data_shards_of(chunk@)[j] by {
            assert(before[j] == mid[j]);
            assert(shards_view(mid)[j] == data_shards_of(chunk@)[j]);
        }
    }
    assert forall|j: int| 0 <= j < 10 implies (#[trigger] before[j])@.len() == 4096 by {
        if j < 8 {
            assert(shards_view(mid)[j] == data_shards_of(chunk@)[j]);
        }
    }
    match rs_encode_parity(&mut shards) {
        Ok(()) => {},
        Err(e) => return Err(RsError::Reconstruct(e)),
    }
    let ghost cw = rs_codeword(data_shards_of(chunk@));
    assert forall|j: int| 0 <= j < 10 implies shards_view(shards@)[j] == cw[j] by {
        if j >= 8 {
            assert(shards@[8 + (j - 8)] == shards@[j]);
        }
    }
    assert(shards_view(shards@) =~= cw);
    assert forall|j: int| 0 <= j < 2 implies (#[trigger] spec_rs_parity(data_shards_of(chunk@))[j]).len() == 4096 by {
        assert(shards@[8 + j]@ == spec_rs_parity(data_shards_of(chunk@))[j]);
    }
    assert forall|i: int| 0 <= i < 10 implies (#[trigger] shards@[i])@ == cw[i] by {
        assert(shards_view(shards@)[i] == cw[i]);
    }

    let segment_crc32 = crc32_iscsi(chunk);
    let header = SegmentHeader { segment_index, data_len: chunk.len() as u32, segment_crc32 };
    let hb = header.to_bytes();
    let ghost start = encoded@;
    append_bytes(encoded, hb.as_slice());

    let mut i: usize = 0;
    while i < RS_TOTAL_SHARDS
        invariant
            0 <= i <= 10,
            shards@.len() == 10,
            forall|j: int| 0 <= j < 10 ==> (#[trigger] shards@[j])@ == cw[j],
            encoded@ == start + hb@ + crc_table_bytes(cw, i as nat),
        decreases 10 - i,
    {
        let c = crc32_iscsi(shards[i].as_slice());
        push_u32_le(encoded, c);
        i += 1;
        assert(encoded@ =~= start + hb@ + crc_table_bytes(cw, i as nat));
    }

    let mut i: usize = 0;
    while i < RS_TOTAL_SHARDS
        invariant
            0 <= i <= 10,
            shards@.len() == 10,
            forall|j: int| 0 <= j < 10 ==> (#[trigger] shards@[j])@ == cw[j],
            encoded@ == start + hb@ + crc_table_bytes(cw, 10) + concat_shards(cw, i as nat),
        decreases 10 - i,
    {
        append_bytes(encoded, shards[i].as_slice());
        i += 1;
        assert(encoded@ =~= start + hb@ + crc_table_bytes(cw, 10) + concat_shards(cw, i as nat));
    }
    let fb = footer_to_bytes(segment_crc32);
    append_bytes(encoded, fb.as_slice());
    assert(final(encoded)@ =~= start + spec_encode_segment(segment_index, chunk@));
    Ok(())
}

// ─────────────────────────────────────────
//  Records
// ─────────────────────────────────────────

/// Number of segments a payload of `len` bytes needs.
pub open spec fn spec_segment_count(len: nat) -> nat {
    if len == 0 { 0 } else { ((len - 1) as nat) / 32768 + 1 }
}

/// Chunk `k` of a payload: its bytes `[32768 k, 32768 (k + 1))`, cut at the end.
pub open spec fn segment_chunk(payload: Seq<u8>, k: int) -> Seq<u8> {
    payload.subrange(32768 * k, if 32768 * (k + 1) <= payload.len() { 32768 * (k + 1) } else { payload.len() as int })
}

/// The first `n` encoded segments of a payload.
pub open spec fn segments_bytes(payload: Seq<u8>, n: nat) -> Seq<u8>
    decreases n,
{
    if n == 0 {
        Seq::empty()
    } else {
        segments_bytes(payload, (n - 1) as nat) + spec_encode_segment((n - 1) as u32, segment_chunk(payload, n - 1))
    }
}

/// Total length of a record with `count` segments.
pub open spec fn spec_expected_record_len(count: u32) -> int {
    32 + 41032 * count
}

/// A payload too large for a record on this machine.
pub open spec fn record_too_large(len: nat) -> bool {
    spec_segment_count(len) > u32::MAX || spec_expected_record_len(spec_segment_count(len) as u32) > usize::MAX
}

/// The record of `(sequence, payload)`.
pub open spec fn spec_encode_record(sequence: u64, payload: Seq<u8>) -> Seq<u8> {
    let n = spec_segment_count(payload.len());
    spec_record_header_bytes(RecordHeader { sequence, payload_len: payload.len() as u64, segment_count: n as u32 })
        + segments_bytes(payload, n)
}

/// The header of a record, checked against the record's length.
pub open spec fn spec_parse_record(bytes: Seq<u8>) -> Result<RecordHeader, RsError> {
    if bytes.len() < 32 {
        Err(RsError::SlotTooShort)
    } else {
        match spec_parse_record_header_bytes(bytes.subrange(0, 32)) {
            Err(e) => Err(e),
            Ok(h) => if spec_expected_record_len(h.segment_count) > usize::MAX {
                Err(RsError::PayloadTooLarge)
            } else if bytes.len() != spec_expected_record_len(h.segment_count) {
                Err(RsError::InvalidRecordLength {
                    expected: spec_expected_record_len(h.segment_count) as usize,
                    actual: bytes.len() as usize,
                })
            } else {
                Ok(h)
            },
        }
    }
}

/// Encoded segment `k` of a record.
pub open spec fn segment_bytes_for(bytes: Seq<u8>, k: int) -> Seq<u8> {
    bytes.subrange(32 + 41032 * k, 32 + 41032 * (k + 1))
}

/// The data of the first `n` segments of a record, or the first error.
pub open spec fn spec_decode_segments(bytes: Seq<u8>, n: nat) -> Result<Seq<u8>, RsError>
    decreases n,
{
    if n == 0 {
        Ok(Seq::empty())
    } else {
        match spec_decode_segments(bytes, (n - 1) as nat) {
            Err(e) => Err(e),
            Ok(acc) => match spec_decode_segment((n - 1) as u32, segment_bytes_for(bytes, n - 1)) {
                Err(e) => Err(e),
                Ok(chunk) => Ok(acc + chunk),
            },
        }
    }
}

/// The first `m` bytes of `p`, or all of it.
pub open spec fn prefix_upto(p: Seq<u8>, m: int) -> Seq<u8> {
    p.subrange(0, if m <= p.len() { m } else { p.len() as int })
}

/// `bytes` is the record of `(sequence, payload)` in which every segment has
/// at most two damaged shards, each failing its CRC check, and headers,
/// CRC tables and footers are intact.
pub open spec fn damaged_record(bytes: Seq<u8>, sequence: u64, payload: Seq<u8>) -> bool {
    let n = spec_segment_count(payload.len());
    &&& !record_too_large(payload.len())
    &&& bytes.len() == spec_expected_record_len(n as u32)
    &&& bytes.subrange(0, 32) == spec_record_header_bytes(
        RecordHeader { sequence, payload_len: payload.len() as u64, segment_count: n as u32 })
    &&& forall|k: int| 0 <= k < n ==> #[trigger] damaged_encoding(segment_bytes_for(bytes, k), k as u32, segment_chunk(payload, k))
}

/// Decoding of a record into sequence number, payload and segment count.
pub open spec fn spec_decode_record(bytes: Seq<u8>) -> Result<(u64, Seq<u8>, u32), RsError> {
    match spec_parse_record(bytes) {
        Err(e) => Err(e),
        Ok(h) => if h.payload_len > usize::MAX {
            Err(RsError::PayloadTooLarge)
        } else if h.segment_count == 0 {
            if h.payload_len != 0 {
                Err(RsError::DecodedPayloadLengthMismatch { expected: h.payload_len, actual: 0 })
            } else {
                Ok((h.sequence, Seq::empty(), 0u32))
            }
        } else {
            match spec_decode_segments(bytes, h.segment_count as nat) {
                Err(e) => Err(e),
                Ok(p) => if p.len() != h.payload_len {
                    Err(RsError::DecodedPayloadLengthMismatch { expected: h.payload_len, actual: p.len() as usize })
                } else {
                    Ok((h.sequence, p, h.segment_count))
                },
            }
        },
    }
}

pub(crate) proof fn lemma_record_header_roundtrip(h: RecordHeader)
    ensures
        spec_record_header_bytes(h).len() == 32,
        spec_parse_record_header_bytes(spec_record_header_bytes(h)) == Ok::<RecordHeader, RsError>(h),
{
    vstd::bytes::lemma_auto_spec_u32_to_from_le_bytes();
    vstd::bytes::lemma_auto_spec_u64_to_from_le_bytes();
    let b = spec_record_header_bytes(h);
    assert(b.subrange(0, 4) =~= record_magic());
    assert(b.subrange(4, 8) =~= spec_u32_to_le_bytes(1));
    assert(b.subrange(8, 16) =~= spec_u64_to_le_bytes(h.sequence));
    assert(b.subrange(16, 24) =~= spec_u64_to_le_bytes(h.payload_len));
    assert(b.subrange(24, 28) =~= spec_u32_to_le_bytes(h.segment_count));
}

proof fn lemma_segments_bytes(payload: Seq<u8>, n: nat, k: int)
    requires
        forall|j: int| 0 <= j < n ==> parity_well_sized(#[trigger] segment_chunk(payload, j)),
        forall|j: int| 0 <= j < n ==> (#[trigger] segment_chunk(payload, j)).len() <= 32768,
        0 <= k < n,
    ensures
        segments_bytes(payload, n).len() == 41032 * n,
        segments_bytes(payload, n).subrange(41032 * k, 41032 * (k + 1)) == spec_encode_segment(k as u32, segment_chunk(payload, k)),
    decreases n,
{
    let last = spec_encode_segment((n - 1) as u32, segment_chunk(payload, n - 1));
    lemma_segment_roundtrip((n - 1) as u32, segment_chunk(payload, n - 1));
    if n > 1 {
        lemma_segments_bytes(payload, (n - 1) as nat, if k < n - 1 { k } else { 0 });
    }
    let prev = segments_bytes(payload, (n - 1) as nat);
    assert(prev.len() == 41032 * (n - 1));
    if k < n - 1 {
        assert(segments_bytes(payload, n).subrange(41032 * k, 41032 * (k + 1)) =~= prev.subrange(41032 * k, 41032 * (k + 1)));
    } else {
        assert(segments_bytes(payload, n).subrange(41032 * k, 41032 * (k + 1)) =~= last);
    }
}

proof fn lemma_chunk_facts(payload: Seq<u8>, k: int)
    requires
        0 <= k < spec_segment_count(payload.len()),
    ensures
        segment_chunk(payload, k).len() <= 32768,
        segment_chunk(payload, k).len() > 0,
        32768 * k < payload.len(),
{
    let n = spec_segment_count(payload.len());
    assert(32768 * k < payload.len()) by (nonlinear_arith)
        requires k < n, n == ((payload.len() - 1) as nat) / 32768 + 1, payload.len() > 0, k >= 0;
}

proof fn lemma_decode_segments_roundtrip(bytes: Seq<u8>, payload: Seq<u8>, m: nat)
    requires
        m <= spec_segment_count(payload.len()),
        forall|j: int| 0 <= j < spec_segment_count(payload.len()) ==> parity_well_sized(#[trigger] segment_chunk(payload, j)),
        bytes.len() >= 32 + 41032 * spec_segment_count(payload.len()),
        forall|j: int| 0 <= j < spec_segment_count(payload.len()) ==> #[trigger] segment_bytes_for(bytes, j)
            == spec_encode_segment(j as u32, segment_chunk(payload, j)),
    ensures
        spec_decode_segments(bytes, m) == Ok::<Seq<u8>, RsError>(
            payload.subrange(0, if 32768 * m <= payload.len() { (32768 * m) as int } else { payload.len() as int })),
    decreases m,
{
    if m == 0 {
        assert(payload.subrange(0, 0) =~= Seq::<u8>::empty());
    } else {
        lemma_decode_segments_roundtrip(bytes, payload, (m - 1) as nat);
        lemma_chunk_facts(payload, m - 1);
        assert(segment_bytes_for(bytes, m - 1) == spec_encode_segment((m - 1) as u32, segment_chunk(payload, m - 1)));
        lemma_segment_roundtrip((m - 1) as u32, segment_chunk(payload, m - 1));
        let end = if 32768 * m <= payload.len() { (32768 * m) as int } else { payload.len() as int };
        assert(payload.subrange(0, 32768 * (m - 1)) + segment_chunk(payload, m - 1) =~= payload.subrange(0, end));
    }
}

/// An encoded record decodes back to its sequence number, payload and
/// segment count.
proof fn lemma_record_roundtrip(sequence: u64, payload: Seq<u8>)
    requires
        !record_too_large(payload.len()),
        forall|j: int| 0 <= j < spec_segment_count(payload.len()) ==> parity_well_sized(#[trigger] segment_chunk(payload, j)),
    ensures
        spec_encode_record(sequence, payload).len() == spec_expected_record_len(spec_segment_count(payload.len()) as u32),
        spec_decode_record(spec_encode_record(sequence, payload))
            == Ok::<(u64, Seq<u8>, u32), RsError>((sequence, payload, spec_segment_count(payload.len()) as u32)),
        forall|j: int| 0 <= j < spec_segment_count(payload.len()) ==> spec_decode_segment(j as u32,
            #[trigger] segment_bytes_for(spec_encode_record(sequence, payload), j))
            == Ok::<Seq<u8>, RsError>(segment_chunk(payload, j)),
{
    let n = spec_segment_count(payload.len());
    let h = RecordHeader { sequence, payload_len: payload.len() as u64, segment_count: n as u32 };
    let bytes = spec_encode_record(sequence, payload);
    lemma_record_header_roundtrip(h);
    let hb = spec_record_header_bytes(h);
    let sb = segments_bytes(payload, n);
    assert forall|j: int| 0 <= j < n implies (#[trigger] segment_chunk(payload, j)).len() <= 32768 by {
        lemma_chunk_facts(payload, j);
    }
    if n > 0 {
        lemma_segments_bytes(payload, n, 0);
    }
    assert(sb.len() == 41032 * n);
    assert(bytes.subrange(0, 32) =~= hb);
    assert forall|j: int| 0 <= j < n implies #[trigger] segment_bytes_for(bytes, j)
        == spec_encode_segment(j as u32, segment_chunk(payload, j)) by {
        lemma_segments_bytes(payload, n, j);
        assert(segment_bytes_for(bytes, j) =~= sb.subrange(41032 * j, 41032 * (j + 1)));
    }
    assert forall|j: int| 0 <= j < n implies spec_decode_segment(j as u32, #[trigger] segment_bytes_for(bytes, j))
        == Ok::<Seq<u8>, RsError>(segment_chunk(payload, j)) by {
        lemma_chunk_facts(payload, j);
        lemma_segment_roundtrip(j as u32, segment_chunk(payload, j));
    }
    lemma_decode_segments_roundtrip(bytes, payload, n);
    if n > 0 {
        assert(32768 * n >= payload.len()) by (nonlinear_arith)
            requires n == ((payload.len() - 1) as nat) / 32768 + 1, payload.len() > 0;
    } else {
        assert(payload.len() == 0);
    }
    assert(payload.subrange(0, payload.len() as int) =~= payload);
}

/// Bytes `[start, end)` of the decoded payload that segments `first .. k`
/// contribute, or the first segment error.
pub open spec fn spec_range_segments(bytes: Seq<u8>, start: int, eff_end: int, first: nat, k: nat) -> Result<Seq<u8>, RsError>
    decreases k,
{
    if k <= first {
        Ok(Seq::empty())
    } else {
        match spec_range_segments(bytes, start, eff_end, first, (k - 1) as nat) {
            Err(e) => Err(e),
            Ok(acc) => match spec_decode_segment((k - 1) as u32, segment_bytes_for(bytes, k - 1)) {
                Err(e) => Err(e),
                Ok(chunk) => {
                    let seg_start = 32768 * (k - 1);
                    let seg_end = seg_start + chunk.len();
                    let cs = if start > seg_start { start } else { seg_start };
                    let ce = if eff_end < seg_end { eff_end } else { seg_end };
                    Ok(acc + if cs < ce { chunk.subrange(cs - seg_start, ce - seg_start) } else { Seq::empty() })
                },
            },
        }
    }
}

/// Decoding of the payload bytes `[start, end)` of a record, reading only
/// the segments that hold them; the range is cut at the payload's end.
pub open spec fn spec_decode_range(bytes: Seq<u8>, start: usize, end: usize) -> Result<Seq<u8>, RsError> {
    if start > end {
        Err(RsError::InvalidPayloadRange { start, end })
    } else {
        match spec_parse_record(bytes) {
            Err(e) => Err(e),
            Ok(h) => if h.payload_len > usize::MAX {
                Err(RsError::PayloadTooLarge)
            } else {
                let max_bytes = if 32768 * h.segment_count > usize::MAX { usize::MAX as int } else { 32768 * h.segment_count };
                let safe = if h.payload_len < max_bytes { h.payload_len as int } else { max_bytes };
                if h.segment_count == 0 || start == end || start >= safe {
                    Ok(Seq::empty())
                } else {
                    let eff_end = if end < safe { end as int } else { safe };
                    spec_range_segments(bytes, start as int, eff_end, (start / 32768) as nat, ((eff_end - 1) / 32768 + 1) as nat)
                }
            },
        }
    }
}

proof fn lemma_range_segments_of_payload(bytes: Seq<u8>, p: Seq<u8>, start: int, eff_end: int, first: nat, k: nat)
    requires
        forall|j: int| 0 <= j < spec_segment_count(p.len()) ==> spec_decode_segment(j as u32,
            #[trigger] segment_bytes_for(bytes, j)) == Ok::<Seq<u8>, RsError>(segment_chunk(p, j)),
        0 <= start < eff_end <= p.len(),
        first == start / 32768,
        first < k <= (eff_end - 1) / 32768 + 1,
    ensures
        spec_range_segments(bytes, start, eff_end, first, k)
            == Ok::<Seq<u8>, RsError>(p.subrange(start, if eff_end < 32768 * k { eff_end } else { (32768 * k) as int })),
    decreases k,
{
    let n = spec_segment_count(p.len());
    let j = k - 1;
    assert(32768 * j <= eff_end - 1 && j < n) by (nonlinear_arith)
        requires j == k - 1, k <= (eff_end - 1) / 32768 + 1, eff_end <= p.len(), eff_end >= 1,
            n == ((p.len() - 1) as nat) / 32768 + 1, k >= 1;
    assert(32768 * first <= start < 32768 * (first + 1)) by (nonlinear_arith)
        requires first == start / 32768, start >= 0;
    assert(spec_decode_segment(j as u32, segment_bytes_for(bytes, j)) == Ok::<Seq<u8>, RsError>(segment_chunk(p, j)));
    let chunk = segment_chunk(p, j);
    let seg_start = 32768 * j;
    let seg_end = seg_start + chunk.len();
    assert(seg_end == if 32768 * (j + 1) <= p.len() { 32768 * (j + 1) } else { p.len() as int });
    if k == first + 1 {
        assert(spec_range_segments(bytes, start, eff_end, first, j as nat) == Ok::<Seq<u8>, RsError>(Seq::<u8>::empty()));
        let ce = if eff_end < seg_end { eff_end } else { seg_end };
        assert(chunk.subrange(start - seg_start, ce - seg_start) =~= p.subrange(start, ce));
        assert(Seq::<u8>::empty() + p.subrange(start, ce) =~= p.subrange(start, ce));
    } else {
        lemma_range_segments_of_payload(bytes, p, start, eff_end, first, j as nat);
        assert(32768 * j < eff_end);
        let ce = if eff_end < seg_end { eff_end } else { seg_end };
        assert(chunk.subrange(0, ce - seg_start) =~= p.subrange(seg_start, ce));
        assert(p.subrange(start, seg_start) + p.subrange(seg_start, ce) =~= p.subrange(start, ce));
    }
}

/// A range read of an encoded record gives the payload's bytes in the range,
/// cut at the payload's end.
proof fn lemma_record_range_read(sequence: u64, payload: Seq<u8>, start: usize, end: usize)
    requires
        !record_too_large(payload.len()),
        forall|j: int| 0 <= j < spec_segment_count(payload.len()) ==> parity_well_sized(#[trigger] segment_chunk(payload, j)),
        start <= end,
    ensures
        spec_decode_range(spec_encode_record(sequence, payload), start, end) == Ok::<Seq<u8>, RsError>(
            payload.subrange(
                if start <= payload.len() { start as int } else { payload.len() as int },
                if end <= payload.len() { end as int } else { payload.len() as int })),
{
    let bytes = spec_encode_record(sequence, payload);
    let n = spec_segment_count(payload.len());
    lemma_record_roundtrip(sequence, payload);
    let h = spec_parse_record(bytes)->Ok_0;
    assert(spec_parse_record(bytes) is Ok);
    assert(h.payload_len == payload.len());
    assert(h.segment_count == n);
    let len = payload.len() as int;
    if n > 0 {
        assert(32768 * n >= len) by (nonlinear_arith)
            requires n == ((len - 1) as nat) / 32768 + 1, len > 0;
    } else {
        assert(len == 0);
    }
    let max_bytes = if 32768 * h.segment_count > usize::MAX { usize::MAX as int } else { 32768 * h.segment_count };
    let safe = if h.payload_len < max_bytes { h.payload_len as int } else { max_bytes };
    assert(len <= usize::MAX);
    assert(safe == len);
    if h.segment_count == 0 || start == end || start >= safe {
        let lo = if start <= len { start as int } else { len };
        let hi = if end <= len { end as int } else { len };
        assert(payload.subrange(lo, hi) =~= Seq::<u8>::empty());
    } else {
        let eff_end = if end < safe { end as int } else { safe };
        let first = (start / 32768) as nat;
        let last1 = ((eff_end - 1) / 32768 + 1) as nat;
        assert(first < last1) by (nonlinear_arith)
            requires first == start / 32768, start < eff_end, start >= 0,
                last1 == (eff_end - 1) / 32768 + 1;
        lemma_range_segments_of_payload(bytes, payload, start as int, eff_end, first, last1);
        assert(eff_end <= 32768 * last1) by (nonlinear_arith)
            requires last1 == (eff_end - 1) / 32768 + 1, eff_end >= 1;
    }
}

/// Reed-Solomon record codec for large payloads.
pub struct RsStrategy;

impl RsStrategy {
    /// Number of segments a payload of `payload_len` bytes needs.
    pub fn segment_count_for_payload_len(payload_len: usize) -> (r: usize)
        ensures
            r == spec_segment_count(payload_len as nat),
    {
        if payload_len == 0 {
            0
        } else {
            (payload_len - 1) / RS_DATA_BYTES_PER_SEGMENT + 1
        }
    }

    fn expected_record_len(segment_count: u32) -> (r: Result<usize, RsError>)
        ensures
            spec_expected_record_len(segment_count) > usize::MAX ==> (r matches Err(e) && e is PayloadTooLarge),
            spec_expected_record_len(segment_count) <= usize::MAX ==> (r matches Ok(n) && n == spec_expected_record_len(segment_count)),
    {
        let segments_len = match (segment_count as usize).checked_mul(RS_ENCODED_SEGMENT_BYTES) {
            Some(n) => n,
            None => return Err(RsError::PayloadTooLarge),
        };
        match RS_RECORD_HEADER_BYTES.checked_add(segments_len) {
            Some(n) => Ok(n),
            None => Err(RsError::PayloadTooLarge),
        }
    }

    fn payload_len_usize(payload_len: u64) -> (r: Result<usize, RsError>)
        ensures
            payload_len > usize::MAX ==> (r matches Err(e) && e is PayloadTooLarge),
            payload_len <= usize::MAX ==> (r matches Ok(n) && n == payload_len),
    {
        if payload_len > usize::MAX as u64 {
            Err(RsError::PayloadTooLarge)
        } else {
            Ok(payload_len as usize)
        }
    }

    fn parse_record_header(bytes: &[u8]) -> (r: Result<RecordHeader, RsError>)
        ensures
            match spec_parse_record(bytes@) {
                Ok(h) => r == Ok::<RecordHeader, RsError>(h),
                Err(e) => r matches Err(x) && x == e,
            },
    {
        if bytes.len() < RS_RECORD_HEADER_BYTES {
            return Err(RsError::SlotTooShort);
        }
        let header = match RecordHeader::from_bytes(slice_subrange(bytes, 0, RS_RECORD_HEADER_BYTES)) {
            Ok(h) => h,
            Err(e) => return Err(e),
        };
        let expected_len = match Self::expected_record_len(header.segment_count) {
            Ok(n) => n,
            Err(e) => return Err(e),
        };
        if bytes.len() != expected_len {
            return Err(RsError::InvalidRecordLength { expected: expected_len, actual: bytes.len() });
        }
        Ok(header)
    }

    fn segment_bytes_for(bytes: &[u8], segment_index: usize) -> (r: &[u8])
        requires
            32 + 41032 * (segment_index + 1) <= bytes.len(),
        ensures
            r@ == segment_bytes_for(bytes@, segment_index as int),
    {
        let offset = 32 + segment_index * 41032;
        slice_subrange(bytes, offset, offset + 41032)
    }

    /// Encodes `(sequence, payload)` as a record: a header and one encoded
    /// segment per 32 KiB of payload. Fails when the record would not fit in
    /// memory addresses or count more than `u32::MAX` segments. The record
    /// decodes back to `(sequence, payload)`.
    pub fn encode_record(sequence: u64, payload: &[u8]) -> (r: Result<Vec<u8>, RsError>)
        ensures
            record_too_large(payload@.len()) ==> (r matches Err(e) && e is PayloadTooLarge),
            !record_too_large(payload@.len()) ==> (r matches Ok(v) && v@ == spec_encode_record(sequence, payload@)),
            r matches Ok(v) ==> spec_decode_record(v@) == Ok::<(u64, Seq<u8>, u32), RsError>(
                (sequence, payload@, spec_segment_count(payload@.len()) as u32)),
            r matches Ok(v) ==> forall|start: usize, end: usize| start <= end ==> #[trigger] spec_decode_range(v@, start, end)
                == Ok::<Seq<u8>, RsError>(payload@.subrange(
                    if start <= payload@.len() { start as int } else { payload@.len() as int },
                    if end <= payload@.len() { end as int } else { payload@.len() as int })),
    {
        let segment_count = Self::segment_count_for_payload_len(payload.len());
        if segment_count > u32::MAX as usize {
            return Err(RsError::PayloadTooLarge);
        }
        let estimated_len = match Self::expected_record_len(segment_count as u32) {
            Ok(n) => n,
            Err(e) => return Err(e),
        };
        let header = RecordHeader { sequence, payload_len: payload.len() as u64, segment_count: segment_count as u32 };
        let mut encoded: Vec<u8> = Vec::with_capacity(estimated_len);
        let hb = header.to_bytes();
        append_bytes(&mut encoded, hb.as_slice());
        let mut k: usize = 0;
        while k < segment_count
            invariant
                segment_count == spec_segment_count(payload@.len()),
                0 <= k <= segment_count,
                encoded@ == hb@ + segments_bytes(payload@, k as nat),
                hb@ == spec_record_header_bytes(header),
                forall|j: int| 0 <= j < k ==> parity_well_sized(#[trigger] segment_chunk(payload@, j)),
            decreases segment_count - k,
        {
            proof {
                lemma_chunk_facts(payload@, k as int);
                assert(32768 * k < payload@.len());
                assert(payload@.len() == payload.len());
            }
            let start = k * 32768;
            let end = if payload.len() - start >= 32768 { start + 32768 } else { payload.len() };
            let chunk = slice_subrange(payload, start, end);
            match encode_segment(k as u32, chunk, &mut encoded) {
                Ok(()) => {},
                Err(e) => return Err(e),
            }
            k += 1;
            assert(encoded@ =~= hb@ + segments_bytes(payload@, k as nat));
        }
        proof {
            lemma_record_roundtrip(sequence, payload@);
            assert forall|start: usize, end: usize| start <= end implies #[trigger] spec_decode_range(encoded@, start, end)
                == Ok::<Seq<u8>, RsError>(payload@.subrange(
                    if start <= payload@.len() { start as int } else { payload@.len() as int },
                    if end <= payload@.len() { end as int } else { payload@.len() as int })) by {
                lemma_record_range_read(sequence, payload@, start, end);
            }
        }
        Ok(encoded)
    }

    /// Reads the record header and checks the record's length, without
    /// decoding the segments.
    pub fn inspect_record(bytes: &[u8]) -> (r: Result<RsRecordInfo, RsError>)
        ensures
            match spec_parse_record(bytes@) {
                Err(e) => r matches Err(x) && x == e,
                Ok(h) => if h.payload_len > usize::MAX {
                    r matches Err(e) && e is PayloadTooLarge
                } else {
                    r == Ok::<RsRecordInfo, RsError>(RsRecordInfo {
                        sequence: h.sequence,
                        payload_len: h.payload_len as usize,
                        segment_count: h.segment_count,
                    })
                },
            },
    {
        let header = match Self::parse_record_header(bytes) {
            Ok(h) => h,
            Err(e) => return Err(e),
        };
        let payload_len = match Self::payload_len_usize(header.payload_len) {
            Ok(n) => n,
            Err(e) => return Err(e),
        };
        Ok(RsRecordInfo { sequence: header.sequence, payload_len, segment_count: header.segment_count })
    }

    /// Decodes a whole record, rebuilding up to two damaged shards per
    /// segment.
    pub fn decode_record(bytes: &[u8]) -> (r: Result<RsDecodedRecord, RsError>)
        ensures
            match spec_decode_record(bytes@) {
                Ok((s, p, c)) => r matches Ok(rec) && rec.sequence == s && rec.payload@ == p && rec.segment_count == c,
                Err(e) => r matches Err(x) && x == e,
            },
            forall|s: u64, p: Seq<u8>| #[trigger] damaged_record(bytes@, s, p)
                ==> (r matches Ok(rec) && rec.sequence == s && rec.payload@ == p),
            r matches Ok(rec) ==> rec.payload@.len() <= bytes@.len(),
    {
        proof {
            assert forall|s: u64, p: Seq<u8>| #[trigger] damaged_record(bytes@, s, p) implies
                spec_parse_record(bytes@) == Ok::<RecordHeader, RsError>(RecordHeader {
                    sequence: s,
                    payload_len: p.len() as u64,
                    segment_count: spec_segment_count(p.len()) as u32,
                }) by {
                lemma_record_header_roundtrip(RecordHeader {
                    sequence: s,
                    payload_len: p.len() as u64,
                    segment_count: spec_segment_count(p.len()) as u32,
                });
            }
        }
        let header = match Self::parse_record_header(bytes) {
            Ok(h) => h,
            Err(e) => return Err(e),
        };
        let payload_len = match Self::payload_len_usize(header.payload_len) {
            Ok(n) => n,
            Err(e) => return Err(e),
        };
        let mut payload: Vec<u8> = Vec::new();
        if header.segment_count == 0 {
            if header.payload_len != 0 {
                return Err(RsError::DecodedPayloadLengthMismatch { expected: header.payload_len, actual: 0 });
            }
            return Ok(RsDecodedRecord { sequence: header.sequence, payload, segment_count: 0 });
        }
        let count = header.segment_count;
        let mut k: u32 = 0;
        while k < count
            invariant
                0 <= k <= count,
                count == header.segment_count,
                count > 0,
                header.payload_len <= usize::MAX,
                spec_parse_record(bytes@) == Ok::<RecordHeader, RsError>(header),
                bytes@.len() == spec_expected_record_len(count),
                spec_decode_segments(bytes@, k as nat) == Ok::<Seq<u8>, RsError>(payload@),
                payload@.len() <= 32768 * k,
                forall|s: u64, p: Seq<u8>| #[trigger] damaged_record(bytes@, s, p) ==>
                    header == (RecordHeader { sequence: s, payload_len: p.len() as u64, segment_count: spec_segment_count(p.len()) as u32 })
                    && count == spec_segment_count(p.len())
                    && payload@ == prefix_upto(p, 32768 * k),
            decreases count - k,
        {
            let seg = Self::segment_bytes_for(bytes, k as usize);
            let chunk = match decode_segment(k, seg) {
                Ok(c) => c,
                Err(e) => {
                    proof {
                        lemma_decode_segments_error_sticks(bytes@, (k + 1) as nat, count as nat);
                        assert forall|s: u64, p: Seq<u8>| #[trigger] damaged_record(bytes@, s, p) implies false by {
                            assert(damaged_encoding(segment_bytes_for(bytes@, k as int), k, segment_chunk(p, k as int)));
                        }
                    }
                    return Err(e);
                },
            };
            let ghost before = payload@;
            append_bytes(&mut payload, chunk.as_slice());
            proof {
                assert forall|s: u64, p: Seq<u8>| #[trigger] damaged_record(bytes@, s, p) implies
                    payload@ == prefix_upto(p, 32768 * (k + 1)) by {
                    assert(damaged_encoding(segment_bytes_for(bytes@, k as int), k, segment_chunk(p, k as int)));
                    lemma_chunk_facts(p, k as int);
                    lemma_full_chunk(p, k as int, count as nat);
                    assert(before + segment_chunk(p, k as int) =~= prefix_upto(p, 32768 * (k + 1)));
                }
            }
            k += 1;
        }
        proof {
            assert forall|s: u64, p: Seq<u8>| #[trigger] damaged_record(bytes@, s, p) implies payload@ == p by {
                lemma_full_chunk(p, count - 1, count as nat);
                assert(prefix_upto(p, 32768 * count) =~= p);
            }
        }
        if payload.len() != payload_len {
            return Err(RsError::DecodedPayloadLengthMismatch { expected: header.payload_len, actual: payload.len() });
        }
        Ok(RsDecodedRecord { sequence: header.sequence, payload, segment_count: header.segment_count })
    }

    /// Decodes the payload bytes `range` of a record (cut at the payload's
    /// end), decoding only the segments that hold them.
    pub fn decode_payload_range(bytes: &[u8], range: Range<usize>) -> (r: Result<Vec<u8>, RsError>)
        ensures
            match spec_decode_range(bytes@, range.start, range.end) {
                Ok(p) => r matches Ok(v) && v@ == p,
                Err(e) => r matches Err(x) && x == e,
            },
    {
        let start = range.start;
        let end = range.end;
        if start > end {
            return Err(RsError::InvalidPayloadRange { start, end });
        }
        let header = match Self::parse_record_header(bytes) {
            Ok(h) => h,
            Err(e) => return Err(e),
        };
        let payload_len = match Self::payload_len_usize(header.payload_len) {
            Ok(n) => n,
            Err(e) => return Err(e),
        };
        let max_segments = header.segment_count as usize;
        let max_bytes = if max_segments > usize::MAX / 32768 { usize::MAX } else { max_segments * 32768 };
        let safe_payload_len = if payload_len < max_bytes { payload_len } else { max_bytes };
        if header.segment_count == 0 || start == end || start >= safe_payload_len {
            return Ok(Vec::new());
        }
        let effective_end = if end < safe_payload_len { end } else { safe_payload_len };
        if effective_end <= start {
            return Ok(Vec::new());
        }
        let first_segment = start / 32768;
        let last_segment = (effective_end - 1) / 32768;
        let count = header.segment_count;
        proof {
            assert(last_segment < count) by (nonlinear_arith)
                requires
                    last_segment == (effective_end - 1) / 32768,
                    effective_end <= max_bytes,
                    max_bytes == usize::MAX || max_bytes == max_segments * 32768,
                    max_segments == count,
                    max_bytes == usize::MAX ==> max_segments > usize::MAX / 32768,
                    effective_end >= 1;
            assert(first_segment <= last_segment) by (nonlinear_arith)
                requires first_segment == start / 32768, last_segment == (effective_end - 1) / 32768, start < effective_end;
            assert(32768 * last_segment <= effective_end - 1) by (nonlinear_arith)
                requires last_segment == (effective_end - 1) / 32768, effective_end >= 1;
        }
        let mut partial: Vec<u8> = Vec::new();
        let mut k: usize = first_segment;
        while k <= last_segment
            invariant
                first_segment <= k <= last_segment + 1,
                last_segment < count,
                start == range.start,
                end == range.end,
                32768 * last_segment <= effective_end - 1,
                bytes@.len() == spec_expected_record_len(count),
                spec_range_segments(bytes@, start as int, effective_end as int, first_segment as nat, k as nat)
                    == Ok::<Seq<u8>, RsError>(partial@),
                spec_decode_range(bytes@, start, end) == spec_range_segments(bytes@, start as int, effective_end as int,
                    first_segment as nat, (last_segment + 1) as nat),
            decreases last_segment + 1 - k,
        {
            let seg = Self::segment_bytes_for(bytes, k);
            let chunk = match decode_segment(k as u32, seg) {
                Ok(c) => c,
                Err(e) => {
                    proof { lemma_range_segments_error_sticks(bytes@, start as int, effective_end as int, first_segment as nat, (k + 1) as nat, (last_segment + 1) as nat); }
                    return Err(e);
                },
            };
            proof {
                assert(32768 * (k + 1) <= 41032 * count) by (nonlinear_arith) requires k < count;
            }
            let segment_start = k * 32768;
            let segment_end = segment_start + chunk.len();
            let copy_start = if start > segment_start { start } else { segment_start };
            let copy_end = if effective_end < segment_end { effective_end } else { segment_end };
            if copy_start < copy_end {
                let piece = slice_subrange(chunk.as_slice(), copy_start - segment_start, copy_end - segment_start);
                append_bytes(&mut partial, piece);
            }
            k += 1;
            assert(partial@ =~= spec_range_segments(bytes@, start as int, effective_end as int, first_segment as nat, k as nat)->Ok_0);
        }
        Ok(partial)
    }

    /// The sequence number of a record header, if the first 32 bytes hold a
    /// valid one.
    pub fn peek_sequence(header_bytes: &[u8]) -> (r: Option<u64>)
        ensures
            header_bytes@.len() < 32 ==> r is None,
            header_bytes@.len() >= 32 ==> r == (match spec_parse_record_header_bytes(header_bytes@.subrange(0, 32)) {
                Ok(h) => Some(h.sequence),
                Err(_) => None,
            }),
    {
        if header_bytes.len() < RS_RECORD_HEADER_BYTES {
            return None;
        }
        match RecordHeader::from_bytes(slice_subrange(header_bytes, 0, RS_RECORD_HEADER_BYTES)) {
            Ok(h) => Some(h.sequence),
            Err(_) => None,
        }
    }
}

proof fn lemma_range_segments_error_sticks(bytes: Seq<u8>, start: int, eff_end: int, first: nat, k: nat, m: nat)
    requires
        k <= m,
        spec_range_segments(bytes, start, eff_end, first, k) is Err,
    ensures
        spec_range_segments(bytes, start, eff_end, first, m) == spec_range_segments(bytes, start, eff_end, first, k),
    decreases m - k,
{
    if k < m {
        lemma_range_segments_error_sticks(bytes, start, eff_end, first, k, (m - 1) as nat);
    }
}

proof fn lemma_full_chunk(p: Seq<u8>, k: int, n: nat)
    requires
        n == spec_segment_count(p.len()),
        0 <= k < n,
    ensures
        k < n - 1 ==> 32768 * (k + 1) <= p.len(),
        k == n - 1 ==> 32768 * (k + 1) >= p.len(),
{
    assert(k < n - 1 ==> 32768 * (k + 1) <= p.len()) by (nonlinear_arith)
        requires n == ((p.len() - 1) as nat) / 32768 + 1, p.len() > 0, 0 <= k;
    assert(k == n - 1 ==> 32768 * (k + 1) >= p.len()) by (nonlinear_arith)
        requires n == ((p.len() - 1) as nat) / 32768 + 1, p.len() > 0;
}

proof fn lemma_decode_segments_error_sticks(bytes: Seq<u8>, k: nat, m: nat)
    requires
        k <= m,
        spec_decode_segments(bytes, k) is Err,
    ensures
        spec_decode_segments(bytes, m) == spec_decode_segments(bytes, k),
    decreases m - k,
{
    if k < m {
        lemma_decode_segments_error_sticks(bytes, k, (m - 1) as nat);
    }
}

} // verus!
