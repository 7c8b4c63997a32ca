//! Triple modular redundancy for small payloads: three copies of a header
//! and of the payload, restored by a bitwise majority vote.

use vstd::prelude::*;
use vstd::bytes::{
    spec_u32_from_le_bytes, spec_u32_to_le_bytes, spec_u64_from_le_bytes, spec_u64_to_le_bytes,
    u32_from_le_bytes, u32_to_le_bytes, u64_from_le_bytes, u64_to_le_bytes,
};
use vstd::slice::slice_subrange;

use crate::healed::bytes::{append_bytes, has_magic};
use crate::healed::crc::{crc32_iscsi, spec_crc32c};

verus! {

/// Bytes of one header copy.
pub const TMR_HEADER_BYTES: usize = 24;

/// Number of copies.
pub const TMR_REPLICA_COUNT: usize = 3;

/// Bytes of the three header copies.
pub const TMR_HEADER_GROUP_BYTES: usize = 72;

/// Format version written in the header.
pub const TMR_VERSION: u32 = 1;

/// `"TMR1"`.
pub open spec fn tmr_magic() -> Seq<u8> {
    seq![0x54u8, 0x4Du8, 0x52u8, 0x31u8]
}

/// A slot restored by majority vote.
#[derive(Debug, Clone, PartialEq, Eq)]
pub struct TmrDecodedSlot {
    pub sequence: u64,
    pub payload: Vec<u8>,
}

/// Errors of TMR encoding and decoding.
#[derive(Debug, Clone, Copy, PartialEq, Eq, Structural)]
pub enum TmrError {
    PayloadTooLarge,
    SlotTooShort,
    InvalidReplicaLength,
    InvalidMagic,
    UnsupportedVersion(u32),
    ChecksumMismatch,
}

/// Header of a TMR slot.
#[derive(Debug, Clone, Copy, PartialEq, Eq, Structural)]
pub struct TmrHeader {
    pub sequence: u64,
    pub payload_len: u32,
    pub crc32: u32,
}

/// The 24-byte image of a header: magic, version, sequence, length, CRC (little-endian).
pub open spec fn spec_header_bytes(h: TmrHeader) -> Seq<u8> {
    tmr_magic() + spec_u32_to_le_bytes(1) + spec_u64_to_le_bytes(h.sequence)
        + spec_u32_to_le_bytes(h.payload_len) + spec_u32_to_le_bytes(h.crc32)
}

/// Parse of a 24-byte header image.
pub open spec fn spec_parse_header(b: Seq<u8>) -> Result<TmrHeader, TmrError> {
    if b.subrange(0, 4) != tmr_magic() {
        Err(TmrError::InvalidMagic)
    } else if spec_u32_from_le_bytes(b.subrange(4, 8)) != 1 {
        Err(TmrError::UnsupportedVersion(spec_u32_from_le_bytes(b.subrange(4, 8))))
    } else {
        Ok(TmrHeader {
            sequence: spec_u64_from_le_bytes(b.subrange(8, 16)),
            payload_len: spec_u32_from_le_bytes(b.subrange(16, 20)),
            crc32: spec_u32_from_le_bytes(b.subrange(20, 24)),
        })
    }
}

/// Bitwise majority of three bytes.
pub open spec fn maj(a: u8, b: u8, c: u8) -> u8 {
    (a & b) | (a & c) | (b & c)
}

/// Byte-wise majority of three sequences, over their common length.
pub open spec fn spec_vote(a: Seq<u8>, b: Seq<u8>, c: Seq<u8>) -> Seq<u8> {
    let n = if a.len() <= b.len() && a.len() <= c.len() { a.len() } else if b.len() <= c.len() { b.len() } else { c.len() };
    Seq::new(n, |i: int| maj(a[i], b[i], c[i]))
}

/// The encoded slot: three header copies, then three payload copies.
pub open spec fn spec_encode_tmr(sequence: u64, payload: Seq<u8>) -> Seq<u8> {
    let h = spec_header_bytes(TmrHeader { sequence, payload_len: payload.len() as u32, crc32: spec_crc32c(payload) });
    h + h + h + payload + payload + payload
}

/// The payload copy `k` (0, 1 or 2) of a slot with replicas of `n` bytes.
pub open spec fn payload_replica(bytes: Seq<u8>, n: int, k: int) -> Seq<u8> {
    bytes.subrange(72 + k * n, 72 + (k + 1) * n)
}

/// The header copy `k` (0, 1 or 2).
pub open spec fn header_replica(bytes: Seq<u8>, k: int) -> Seq<u8> {
    bytes.subrange(24 * k, 24 * k + 24)
}

/// The voted header of the first 72 bytes.
pub open spec fn spec_voted_header(bytes: Seq<u8>) -> Result<TmrHeader, TmrError> {
    spec_parse_header(spec_vote(header_replica(bytes, 0), header_replica(bytes, 1), header_replica(bytes, 2)))
}

/// Decoding of a slot.
pub open spec fn spec_decode_tmr(bytes: Seq<u8>) -> Result<(u64, Seq<u8>), TmrError> {
    if bytes.len() < 72 {
        Err(TmrError::SlotTooShort)
    } else if (bytes.len() - 72) % 3 != 0 {
        Err(TmrError::InvalidReplicaLength)
    } else {
        let n = (bytes.len() - 72) / 3;
        match spec_voted_header(bytes) {
            Err(e) => Err(e),
            Ok(h) => if h.payload_len != n {
                Err(TmrError::InvalidReplicaLength)
            } else {
                let p = spec_vote(payload_replica(bytes, n, 0), payload_replica(bytes, n, 1), payload_replica(bytes, n, 2));
                if spec_crc32c(p) != h.crc32 { Err(TmrError::ChecksumMismatch) } else { Ok((h.sequence, p)) }
            },
        }
    }
}

impl TmrHeader {
    /// Header for `payload`: its length and CRC; fails when the length exceeds `u32::MAX`.
    pub fn new(sequence: u64, payload: &[u8]) -> (r: Result<TmrHeader, TmrError>)
        ensures
            payload@.len() > u32::MAX ==> r == Err::<TmrHeader, TmrError>(TmrError::PayloadTooLarge),
            payload@.len() <= u32::MAX ==> r == Ok::<TmrHeader, TmrError>(TmrHeader {
                sequence,
                payload_len: payload@.len() as u32,
                crc32: spec_crc32c(payload@),
            }),
    {
        if payload.len() > u32::MAX as usize {
            return Err(TmrError::PayloadTooLarge);
        }
        Ok(TmrHeader { sequence, payload_len: payload.len() as u32, crc32: crc32_iscsi(payload) })
    }

    /// The 24-byte image of the header.
    pub fn to_bytes(self) -> (r: Vec<u8>)
        ensures
            r@ == spec_header_bytes(self),
    {
        let mut out: Vec<u8> = Vec::with_capacity(TMR_HEADER_BYTES);
        out.push(0x54);
        out.push(0x4D);
        out.push(0x52);
        out.push(0x31);
        let v = u32_to_le_bytes(TMR_VERSION);
        append_bytes(&mut out, v.as_slice());
        let s = u64_to_le_bytes(self.sequence);
        append_bytes(&mut out, s.as_slice());
        let l = u32_to_le_bytes(self.payload_len);
        append_bytes(&mut out, l.as_slice());
        let c = u32_to_le_bytes(self.crc32);
        append_bytes(&mut out, c.as_slice());
        assert(out@ =~= spec_header_bytes(self));
        out
    }

    /// Parses a 24-byte header image.
    pub fn from_bytes(bytes: &[u8]) -> (r: Result<TmrHeader, TmrError>)
        requires
            bytes@.len() == 24,
        ensures
            r == spec_parse_header(bytes@),
    {
        let magic: [u8; 4] = [0x54, 0x4D, 0x52, 0x31];
        assert(magic@ =~= tmr_magic());
        if !has_magic(bytes, 0, magic) {
            return Err(TmrError::InvalidMagic);
        }
        let version = u32_from_le_bytes(slice_subrange(bytes, 4, 8));
        if version != TMR_VERSION {
            return Err(TmrError::UnsupportedVersion(version));
        }
        Ok(TmrHeader {
            sequence: u64_from_le_bytes(slice_subrange(bytes, 8, 16)),
            payload_len: u32_from_le_bytes(slice_subrange(bytes, 16, 20)),
            crc32: u32_from_le_bytes(slice_subrange(bytes, 20, 24)),
        })
    }
}

/// Byte-wise majority vote of three copies (over their common length).
pub fn majority_vote_bytes(a: &[u8], b: &[u8], c: &[u8]) -> (r: Vec<u8>)
    ensures
        r@ == spec_vote(a@, b@, c@),
{
    let n = if a.len() <= b.len() && a.len() <= c.len() {
        a.len()
    } else if b.len() <= c.len() {
        b.len()
    } else {
        c.len()
    };
    let mut out: Vec<u8> = Vec::with_capacity(n);
    let mut i: usize = 0;
    while i < n
        invariant
            0 <= i <= n,
            n <= a@.len() && n <= b@.len() && n <= c@.len(),
            n == spec_vote(a@, b@, c@).len(),
            out@ == spec_vote(a@, b@, c@).subrange(0, i as int),
        decreases n - i,
    {
        let (x, y, z) = (a[i], b[i], c[i]);
        out.push((x & y) | (x & z) | (y & z));
        i += 1;
        assert(out@ =~= spec_vote(a@, b@, c@).subrange(0, i as int));
    }
    assert(out@ =~= spec_vote(a@, b@, c@));
    out
}

/// Triple modular redundancy codec for small payloads.
pub struct TmrStrategy;

impl TmrStrategy {
    /// Encodes three header copies followed by three payload copies; fails
    /// when the payload is longer than `u32::MAX` bytes.
    pub fn encode_tmr(sequence: u64, payload: &[u8]) -> (r: Result<Vec<u8>, TmrError>)
        requires
            72 + 3 * payload@.len() <= usize::MAX,
        ensures
            payload@.len() > u32::MAX ==> r == Err::<Vec<u8>, TmrError>(TmrError::PayloadTooLarge),
            payload@.len() <= u32::MAX ==> (r matches Ok(v) && v@ == spec_encode_tmr(sequence, payload@)),
    {
        let header = match TmrHeader::new(sequence, payload) {
            Ok(h) => h,
            Err(e) => return Err(e),
        };
        let hb = header.to_bytes();
        let mut encoded: Vec<u8> = Vec::with_capacity(TMR_HEADER_GROUP_BYTES + payload.len() * 3);
        append_bytes(&mut encoded, hb.as_slice());
        append_bytes(&mut encoded, hb.as_slice());
        append_bytes(&mut encoded, hb.as_slice());
        append_bytes(&mut encoded, payload);
        append_bytes(&mut encoded, payload);
        append_bytes(&mut encoded, payload);
        Ok(encoded)
    }

    fn decode_header_with_vote(bytes: &[u8]) -> (r: Result<TmrHeader, TmrError>)
        requires
            bytes@.len() >= 72,
        ensures
            r == spec_voted_header(bytes@),
    {
        let voted = majority_vote_bytes(
            slice_subrange(bytes, 0, 24),
            slice_subrange(bytes, 24, 48),
            slice_subrange(bytes, 48, 72),
        );
        TmrHeader::from_bytes(voted.as_slice())
    }

    /// Restores a slot by majority vote over the three copies and checks the
    /// voted payload against the voted header.
    pub fn decode_tmr_with_vote(bytes: &[u8]) -> (r: Result<TmrDecodedSlot, TmrError>)
        ensures
            match spec_decode_tmr(bytes@) {
                Ok((s, p)) => r matches Ok(slot) && slot.sequence == s && slot.payload@ == p,
                Err(e) => r == Err::<TmrDecodedSlot, TmrError>(e),
            },
            r matches Ok(slot) ==> slot.payload@.len() <= bytes@.len(),
    {
        if bytes.len() < TMR_HEADER_GROUP_BYTES {
            return Err(TmrError::SlotTooShort);
        }
        let payload_replicas_bytes = bytes.len() - TMR_HEADER_GROUP_BYTES;
        if payload_replicas_bytes % TMR_REPLICA_COUNT != 0 {
            return Err(TmrError::InvalidReplicaLength);
        }
        let payload_len = payload_replicas_bytes / TMR_REPLICA_COUNT;
        let header = match Self::decode_header_with_vote(bytes) {
            Ok(h) => h,
            Err(e) => return Err(e),
        };
        if header.payload_len as usize != payload_len {
            return Err(TmrError::InvalidReplicaLength);
        }
        let start = TMR_HEADER_GROUP_BYTES;
        let payload = majority_vote_bytes(
            slice_subrange(bytes, start, start + payload_len),
            slice_subrange(bytes, start + payload_len, start + payload_len * 2),
            slice_subrange(bytes, start + payload_len * 2, start + payload_len * 3),
        );
        if crc32_iscsi(payload.as_slice()) != header.crc32 {
            return Err(TmrError::ChecksumMismatch);
        }
        Ok(TmrDecodedSlot { sequence: header.sequence, payload })
    }

    /// The sequence number in the voted header, if the first 72 bytes hold a valid one.
    pub fn peek_sequence(header_bytes: &[u8]) -> (r: Option<u64>)
        ensures
            header_bytes@.len() < 72 ==> r is None,
            header_bytes@.len() >= 72 ==> r == (match spec_voted_header(header_bytes@) {
                Ok(h) => Some(h.sequence),
                Err(_) => None,
            }),
    {
        if header_bytes.len() < TMR_HEADER_GROUP_BYTES {
            return None;
        }
        match Self::decode_header_with_vote(header_bytes) {
            Ok(h) => Some(h.sequence),
            Err(_) => None,
        }
    }
}


// ─────────────────────────────────────────
//  Laws
// ─────────────────────────────────────────

/// Two of three bytes equal to `v`.
pub open spec fn two_agree(x: u8, y: u8, z: u8, v: u8) -> bool {
    (x == v && y == v) || (x == v && z == v) || (y == v && z == v)
}

/// The majority of three bytes of which two agree is the agreed byte.
pub proof fn lemma_maj_two_agree(x: u8, y: u8, z: u8, v: u8)
    requires
        two_agree(x, y, z, v),
    ensures
        maj(x, y, z) == v,
{
    assert(((x == v && y == v) || (x == v && z == v) || (y == v && z == v)) ==> ((x & y) | (x & z) | (y & z)) == v) by (bit_vector);
}

/// Voting three copies of one sequence gives the sequence back.
pub proof fn lemma_vote_identical(a: Seq<u8>)
    ensures
        spec_vote(a, a, a) == a,
{
    assert forall|i: int| 0 <= i < a.len() implies spec_vote(a, a, a)[i] == a[i] by {
        lemma_maj_two_agree(a[i], a[i], a[i], a[i]);
    }
    assert(spec_vote(a, a, a) =~= a);
}

/// A header image parses back to the header.
pub proof fn lemma_header_roundtrip(h: TmrHeader)
    ensures
        spec_header_bytes(h).len() == 24,
        spec_parse_header(spec_header_bytes(h)) == Ok::<TmrHeader, TmrError>(h),
{
    vstd::bytes::lemma_auto_spec_u32_to_from_le_bytes();
    vstd::bytes::lemma_auto_spec_u64_to_from_le_bytes();
    let b = spec_header_bytes(h);
    assert(b.subrange(0, 4) =~= tmr_magic());
    assert(b.subrange(4, 8) =~= spec_u32_to_le_bytes(1));
    assert(b.subrange(8, 16) =~= spec_u64_to_le_bytes(h.sequence));
    assert(b.subrange(16, 20) =~= spec_u32_to_le_bytes(h.payload_len));
    assert(b.subrange(20, 24) =~= spec_u32_to_le_bytes(h.crc32));
}

/// `bytes` differs from the encoding of `(sequence, payload)` at no position in
/// more than one of the three copies.
pub open spec fn single_copy_corruption(bytes: Seq<u8>, sequence: u64, payload: Seq<u8>) -> bool {
    let e = spec_encode_tmr(sequence, payload);
    let n = payload.len() as int;
    &&& bytes.len() == e.len()
    &&& forall|i: int| 0 <= i < 24 ==> #[trigger] two_agree(bytes[i], bytes[24 + i], bytes[48 + i], e[i])
    &&& forall|j: int| 0 <= j < n ==> #[trigger] two_agree(bytes[72 + j], bytes[72 + n + j], bytes[72 + 2 * n + j], payload[j])
}

/// Triple redundancy masks any corruption confined to one copy per
/// position: decoding still yields the encoded sequence number and payload.
/// In particular an untouched slot decodes to what was encoded.
pub proof fn lemma_tmr_masks_single_copy_corruption(bytes: Seq<u8>, sequence: u64, payload: Seq<u8>)
    requires
        payload.len() <= u32::MAX,
        single_copy_corruption(bytes, sequence, payload),
    ensures
        spec_decode_tmr(bytes) == Ok::<(u64, Seq<u8>), TmrError>((sequence, payload)),
{
    let h = TmrHeader { sequence, payload_len: payload.len() as u32, crc32: spec_crc32c(payload) };
    let hb = spec_header_bytes(h);
    lemma_header_roundtrip(h);
    let e = spec_encode_tmr(sequence, payload);
    let n = payload.len() as int;
    assert(bytes.len() == 72 + 3 * n);
    assert((bytes.len() - 72) % 3 == 0 && (bytes.len() - 72) / 3 == n);
    let hv = spec_vote(header_replica(bytes, 0), header_replica(bytes, 1), header_replica(bytes, 2));
    assert forall|i: int| 0 <= i < 24 implies hv[i] == hb[i] by {
        assert(two_agree(bytes[i], bytes[24 + i], bytes[48 + i], e[i]));
        assert(e[i] == hb[i]);
        lemma_maj_two_agree(bytes[i], bytes[24 + i], bytes[48 + i], hb[i]);
    }
    assert(hv =~= hb);
    let pv = spec_vote(payload_replica(bytes, n, 0), payload_replica(bytes, n, 1), payload_replica(bytes, n, 2));
    assert forall|j: int| 0 <= j < n implies pv[j] == payload[j] by {
        assert(two_agree(bytes[72 + j], bytes[72 + n + j], bytes[72 + 2 * n + j], payload[j]));
        lemma_maj_two_agree(bytes[72 + j], bytes[72 + n + j], bytes[72 + 2 * n + j], payload[j]);
    }
    assert(pv =~= payload);
}

/// Encoding and then decoding gives back the sequence number and payload.
pub proof fn lemma_tmr_roundtrip(sequence: u64, payload: Seq<u8>)
    requires
        payload.len() <= u32::MAX,
    ensures
        spec_decode_tmr(spec_encode_tmr(sequence, payload)) == Ok::<(u64, Seq<u8>), TmrError>((sequence, payload)),
{
    let e = spec_encode_tmr(sequence, payload);
    let h = TmrHeader { sequence, payload_len: payload.len() as u32, crc32: spec_crc32c(payload) };
    lemma_header_roundtrip(h);
    let n = payload.len() as int;
    assert forall|i: int| 0 <= i < 24 implies #[trigger] two_agree(e[i], e[24 + i], e[48 + i], e[i]) by {}
    assert forall|j: int| 0 <= j < n implies #[trigger] two_agree(e[72 + j], e[72 + n + j], e[72 + 2 * n + j], payload[j]) by {}
    lemma_tmr_masks_single_copy_corruption(e, sequence, payload);
}

/// No bit position of `x`, `y`, `z` differs from `v` in more than one of
/// the three bytes.
pub open spec fn bits_two_agree(x: u8, y: u8, z: u8, v: u8) -> bool {
    (((x ^ v) & (y ^ v)) | ((x ^ v) & (z ^ v)) | ((y ^ v) & (z ^ v))) == 0
}

/// The bitwise majority of three bytes that differ from `v` in no bit
/// position in more than one of them is `v`.
pub proof fn lemma_maj_bits_two_agree(x: u8, y: u8, z: u8, v: u8)
    requires
        bits_two_agree(x, y, z, v),
    ensures
        maj(x, y, z) == v,
{
    assert((((x ^ v) & (y ^ v)) | ((x ^ v) & (z ^ v)) | ((y ^ v) & (z ^ v))) == 0
        ==> ((x & y) | (x & z) | (y & z)) == v) by (bit_vector);
}

/// `bytes` differs from the encoding of `(sequence, payload)` at no bit
/// position in more than one of the three copies.
pub open spec fn single_copy_bit_corruption(bytes: Seq<u8>, sequence: u64, payload: Seq<u8>) -> bool {
    let e = spec_encode_tmr(sequence, payload);
    let n = payload.len() as int;
    &&& bytes.len() == e.len()
    &&& forall|i: int| 0 <= i < 24 ==> #[trigger] bits_two_agree(bytes[i], bytes[24 + i], bytes[48 + i], e[i])
    &&& forall|j: int| 0 <= j < n ==> #[trigger] bits_two_agree(bytes[72 + j], bytes[72 + n + j],
        bytes[72 + 2 * n + j], payload[j])
}

/// Bitwise voting masks any corruption that touches each bit position in
/// at most one of the three copies, even where two copies of a byte are
/// corrupted in different bits: decoding still yields the encoded sequence
/// number and payload.
pub proof fn lemma_tmr_masks_single_copy_bit_corruption(bytes: Seq<u8>, sequence: u64, payload: Seq<u8>)
    requires
        payload.len() <= u32::MAX,
        single_copy_bit_corruption(bytes, sequence, payload),
    ensures
        spec_decode_tmr(bytes) == Ok::<(u64, Seq<u8>), TmrError>((sequence, payload)),
{
    let h = TmrHeader { sequence, payload_len: payload.len() as u32, crc32: spec_crc32c(payload) };
    let hb = spec_header_bytes(h);
    lemma_header_roundtrip(h);
    let e = spec_encode_tmr(sequence, payload);
    let n = payload.len() as int;
    assert(bytes.len() == 72 + 3 * n);
    assert((bytes.len() - 72) % 3 == 0 && (bytes.len() - 72) / 3 == n);
    let hv = spec_vote(header_replica(bytes, 0), header_replica(bytes, 1), header_replica(bytes, 2));
    assert forall|i: int| 0 <= i < 24 implies hv[i] == hb[i] by {
        assert(bits_two_agree(bytes[i], bytes[24 + i], bytes[48 + i], e[i]));
        assert(e[i] == hb[i]);
        lemma_maj_bits_two_agree(bytes[i], bytes[24 + i], bytes[48 + i], hb[i]);
    }
    assert(hv =~= hb);
    let pv = spec_vote(payload_replica(bytes, n, 0), payload_replica(bytes, n, 1), payload_replica(bytes, n, 2));
    assert forall|j: int| 0 <= j < n implies pv[j] == payload[j] by {
        assert(bits_two_agree(bytes[72 + j], bytes[72 + n + j], bytes[72 + 2 * n + j], payload[j]));
        lemma_maj_bits_two_agree(bytes[72 + j], bytes[72 + n + j], bytes[72 + 2 * n + j], payload[j]);
    }
    assert(pv =~= payload);
}

} // verus!
