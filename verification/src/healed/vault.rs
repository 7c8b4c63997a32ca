//! The decisions of a rolling-update vault over several storage slots: how
//! a slot is encoded and decoded, which slot the next generation goes to,
//! which slot holds the latest data, what scrubbing repairs. The slots
//! themselves are read and written by the caller.

use vstd::prelude::*;
use vstd::slice::slice_subrange;
use std::ops::Range;

use crate::bitflip::{flipped_as_configured, spec_available_bits, BitFlipConfig, BitFlipError, BitFlipWriterError};
use crate::healed::bytes::copy_range;
use crate::healed::compression::{
    is_compressed_payload, maybe_compress_payload, maybe_decompress_payload, spec_is_compressed, spec_maybe_compress,
    spec_maybe_decompress, CompressionPolicy,
};
use crate::healed::error::{not_found_error, spec_io_error_kind, spec_is_recoverable, Error, IoErrorKind};
use crate::healed::ecc::spec_block_size;
use crate::healed::frame::{
    lemma_pad, spec_block_count, spec_encoded_block_size, spec_frame_bytes, spec_padded_len, spec_recover,
    spec_recover_meta, StorageFrame,
};
use crate::healed::level::{DataClass, ProtectionLevel, SMALL_DATA_THRESHOLD_BYTES};
use crate::healed::metadata::{header_word, spec_decode_word, MetaData};
use crate::healed::rs::{
    record_too_large, spec_decode_range, spec_decode_record, spec_decode_segments, spec_encode_record,
    spec_parse_record, spec_parse_record_header_bytes, RsError, RsStrategy,
};
use crate::healed::tmr::{spec_decode_tmr, spec_encode_tmr, spec_voted_header, TmrStrategy};

verus! {

/// Bytes read from the start of a slot to find a frame's sequence number.
pub const FRAME_HEADER_SCAN_BYTES: usize = 32;

/// Bytes read from the start of a slot to find its sequence number.
pub const SLOT_SCAN_BYTES: usize = 72;

/// Maps an error of the fault-injecting writer to the library's error.
pub fn map_bitflip_writer_error(error: BitFlipWriterError) -> (r: Error)
    ensures
        match error {
            BitFlipWriterError::BitFlip(e) => r == Error::BitFlip(e),
            BitFlipWriterError::Io(_) => r is Io,
        },
{
    match error {
        BitFlipWriterError::BitFlip(e) => Error::BitFlip(e),
        BitFlipWriterError::Io(e) => Error::Io(e),
    }
}

/// How a slot is encoded.
#[derive(Debug, Clone, Copy, PartialEq, Eq, Structural)]
pub enum SlotEncoding {
    Tmr,
    Rs,
    Frame(ProtectionLevel),
}

/// The content of a decoded slot.
#[derive(Debug, Clone, PartialEq, Eq)]
pub struct SlotPayload {
    pub sequence: u64,
    pub payload: Vec<u8>,
    pub data_class: DataClass,
    pub encoding: SlotEncoding,
}

/// The class of a payload of `len` bytes.
pub open spec fn spec_class_of(len: nat) -> DataClass {
    if len < 4096 { DataClass::Small } else { DataClass::Large }
}

/// What a slot decodes to: sequence, payload, class and encoding; the error
/// `None` stands for an I/O error of the decompressor.
#[verifier::opaque]
pub open spec fn spec_decode_slot(bytes: Seq<u8>) -> Result<(u64, Seq<u8>, DataClass, SlotEncoding), Option<Error>> {
    match spec_decode_tmr(bytes) {
        Ok((s, p)) => Ok((s, p, DataClass::Small, SlotEncoding::Tmr)),
        Err(_) => match spec_decode_record(bytes) {
            Ok((s, p, _)) => Ok((s, p, DataClass::Large, SlotEncoding::Rs)),
            Err(_) => match spec_recover(bytes) {
                Err(e) => Err(Some(e)),
                Ok((m, p)) => if spec_is_compressed(p) {
                    match spec_maybe_decompress(p) {
                        None => Err(None),
                        Some(d) => Ok((m.sequence, p, spec_class_of(d.len()), SlotEncoding::Frame(m.level))),
                    }
                } else {
                    Ok((m.sequence, p, spec_class_of(p.len()), SlotEncoding::Frame(m.level)))
                },
            },
        },
    }
}

/// Decodes a slot: as a TMR slot, else as a Reed-Solomon record, else as a
/// frame; a frame's class is that of its decompressed payload.
pub fn decode_slot_payload(bytes: &[u8]) -> (r: Result<SlotPayload, Error>)
    ensures
        match spec_decode_slot(bytes@) {
            Ok((s, p, c, e)) => r matches Ok(slot) && slot.sequence == s && slot.payload@ == p && slot.data_class == c
                && slot.encoding == e,
            Err(Some(e)) => r matches Err(x) && x == e,
            Err(None) => r matches Err(Error::Io(_)),
        },
        r matches Ok(slot) ==> slot.payload@.len() <= bytes@.len(),
        r matches Ok(slot) ==> (slot.encoding is Tmr ==> 72 + 3 * slot.payload@.len() == bytes@.len()),
        r matches Ok(slot) ==> (slot.encoding is Frame ==> slot.payload@.len() + 40 <= bytes@.len()),
{
    reveal(spec_decode_slot);
    match TmrStrategy::decode_tmr_with_vote(bytes) {
        Ok(slot) => {
            proof {
                let n = (bytes@.len() - 72) / 3;
                assert(crate::healed::tmr::payload_replica(bytes@, n, 0).len() == n);
                assert(crate::healed::tmr::payload_replica(bytes@, n, 1).len() == n);
                assert(crate::healed::tmr::payload_replica(bytes@, n, 2).len() == n);
            }
            return Ok(SlotPayload {
                sequence: slot.sequence,
                payload: slot.payload,
                data_class: DataClass::Small,
                encoding: SlotEncoding::Tmr,
            });
        },
        Err(_) => {},
    }
    match RsStrategy::decode_record(bytes) {
        Ok(record) => {
            return Ok(SlotPayload {
                sequence: record.sequence,
                payload: record.payload,
                data_class: DataClass::Large,
                encoding: SlotEncoding::Rs,
            });
        },
        Err(_) => {},
    }
    let frame = match StorageFrame::recover(bytes) {
        Ok(f) => f,
        Err(e) => return Err(e),
    };
    proof {
        let m = frame.meta;
        lemma_pad(Seq::new(m.payload_len as nat, |i: int| 0u8), m.level);
        let n = spec_block_count(m.payload_len as nat, m.level);
        let bs = spec_block_size(m.level);
        let ebs = spec_encoded_block_size(m.level);
        assert(n * bs == spec_padded_len(m.payload_len as nat, m.level)) by (nonlinear_arith)
            requires
                n == spec_padded_len(m.payload_len as nat, m.level) / bs,
                spec_padded_len(m.payload_len as nat, m.level) % bs == 0,
                bs > 0;
        assert(n * bs <= n * ebs) by (nonlinear_arith) requires bs <= ebs;
    }
    let level = frame.meta.level;
    let original_len = if is_compressed_payload(frame.payload.as_slice()) {
        match maybe_decompress_payload(frame.payload.as_slice()) {
            Ok(d) => d.len(),
            Err(e) => return Err(e),
        }
    } else {
        frame.payload.len()
    };
    let data_class = DataClass::from_payload_len(original_len);
    Ok(SlotPayload { sequence: frame.meta.sequence, payload: frame.payload, data_class, encoding: SlotEncoding::Frame(level) })
}

/// The bytes a slot payload is encoded to.
#[verifier::opaque]
pub open spec fn spec_encode_slot(sequence: u64, payload: Seq<u8>, encoding: SlotEncoding) -> Seq<u8> {
    match encoding {
        SlotEncoding::Tmr => spec_encode_tmr(sequence, payload),
        SlotEncoding::Rs => spec_encode_record(sequence, payload),
        SlotEncoding::Frame(level) => spec_frame_bytes(MetaData { sequence, level, payload_len: payload.len() as u32 }, payload),
    }
}

/// A payload can be encoded again with its encoding: TMR takes payloads up
/// to `u32::MAX` bytes, Reed-Solomon records those that fit in memory.
pub open spec fn spec_encodable(payload: Seq<u8>, encoding: SlotEncoding) -> bool {
    match encoding {
        SlotEncoding::Tmr => payload.len() <= u32::MAX,
        SlotEncoding::Rs => !record_too_large(payload.len()),
        SlotEncoding::Frame(_) => true,
    }
}

/// Encodes a slot payload with its encoding; TMR refuses payloads over
/// `u32::MAX` bytes, Reed-Solomon records that do not fit in memory.
pub fn encode_slot_payload(slot: &SlotPayload) -> (r: Result<Vec<u8>, Error>)
    requires
        slot.encoding is Tmr ==> 72 + 3 * slot.payload@.len() <= usize::MAX,
        slot.encoding is Frame ==> slot.payload@.len() + 8 <= usize::MAX,
    ensures
        match slot.encoding {
            SlotEncoding::Tmr => slot.payload@.len() > u32::MAX ==> (r matches Err(Error::Tmr(_))),
            SlotEncoding::Rs => record_too_large(slot.payload@.len()) ==> (r matches Err(Error::Rs(_))),
            SlotEncoding::Frame(_) => true,
        },
        r matches Ok(v) ==> v@ == spec_encode_slot(slot.sequence, slot.payload@, slot.encoding),
        (match slot.encoding {
            SlotEncoding::Tmr => slot.payload@.len() <= u32::MAX,
            SlotEncoding::Rs => !record_too_large(slot.payload@.len()),
            SlotEncoding::Frame(_) => true,
        }) ==> r is Ok,
{
    reveal(spec_encode_slot);
    match slot.encoding {
        SlotEncoding::Tmr => match TmrStrategy::encode_tmr(slot.sequence, slot.payload.as_slice()) {
            Ok(v) => Ok(v),
            Err(e) => Err(Error::Tmr(e)),
        },
        SlotEncoding::Rs => match RsStrategy::encode_record(slot.sequence, slot.payload.as_slice()) {
            Ok(v) => Ok(v),
            Err(e) => Err(Error::Rs(e)),
        },
        SlotEncoding::Frame(level) => {
            let payload = copy_range(slot.payload.as_slice(), 0, slot.payload.len());
            assert(slot.payload@.subrange(0, slot.payload@.len() as int) =~= slot.payload@);
            let frame = StorageFrame::new(payload, slot.sequence, level);
            frame.to_bytes()
        },
    }
}

/// The sequence number of a frame's headers: the primary's, or the
/// secondary's when the primary does not decode.
pub open spec fn spec_scan_frame_sequence(h: Seq<u8>) -> Option<u64> {
    if h.len() < 32 {
        None
    } else {
        match spec_decode_word(header_word(h.subrange(0, 16))) {
            Some(m) => Some(m.sequence),
            None => match spec_decode_word(header_word(h.subrange(16, 32))) {
                Some(m) => Some(m.sequence),
                None => None,
            },
        }
    }
}

/// The sequence number of a TMR header group, if valid.
pub open spec fn spec_peek_tmr(h: Seq<u8>) -> Option<u64> {
    if h.len() < 72 {
        None
    } else {
        match spec_voted_header(h) {
            Ok(x) => Some(x.sequence),
            Err(_) => None,
        }
    }
}

/// The sequence number of a record header, if valid.
pub open spec fn spec_peek_rs(h: Seq<u8>) -> Option<u64> {
    if h.len() < 32 {
        None
    } else {
        match spec_parse_record_header_bytes(h.subrange(0, 32)) {
            Ok(x) => Some(x.sequence),
            Err(_) => None,
        }
    }
}

/// The sequence number found at the start of a slot: TMR, record or frame.
pub open spec fn spec_scan_slot_sequence(h: Seq<u8>) -> Option<u64> {
    match spec_peek_tmr(h) {
        Some(s) => Some(s),
        None => match spec_peek_rs(h) {
            Some(s) => Some(s),
            None => spec_scan_frame_sequence(h),
        },
    }
}

/// The sequence number in a frame's headers.
pub fn scan_frame_sequence(header_bytes: &[u8]) -> (r: Option<u64>)
    ensures
        r == spec_scan_frame_sequence(header_bytes@),
{
    if header_bytes.len() < FRAME_HEADER_SCAN_BYTES {
        return None;
    }
    let primary = StorageFrame::header_at(header_bytes, 0);
    match primary.decode() {
        Some(meta) => return Some(meta.sequence),
        None => {},
    }
    let secondary = StorageFrame::header_at(header_bytes, 16);
    match secondary.decode() {
        Some(meta) => Some(meta.sequence),
        None => None,
    }
}

/// The sequence number at the start of a slot, whatever its encoding.
pub fn scan_slot_sequence(header_bytes: &[u8]) -> (r: Option<u64>)
    ensures
        r == spec_scan_slot_sequence(header_bytes@),
{
    match TmrStrategy::peek_sequence(header_bytes) {
        Some(s) => return Some(s),
        None => {},
    }
    match RsStrategy::peek_sequence(header_bytes) {
        Some(s) => return Some(s),
        None => {},
    }
    scan_frame_sequence(header_bytes)
}

// ─────────────────────────────────────────
//  Choosing the slot of the next generation
// ─────────────────────────────────────────

/// The bytes of optional header reads.
pub open spec fn opt_bytes_view(v: Seq<Option<Vec<u8>>>) -> Seq<Option<Seq<u8>>> {
    Seq::new(v.len(), |i: int| match v[i] {
        Some(b) => Some(b@),
        None => None,
    })
}

/// The sequence number found in each slot header (`None` for a slot that
/// could not be read or holds none).
pub open spec fn slot_sequences(headers: Seq<Option<Seq<u8>>>) -> Seq<Option<u64>> {
    Seq::new(headers.len(), |i: int| match headers[i] {
        Some(b) => spec_scan_slot_sequence(b),
        None => None,
    })
}

/// The largest of the first `k` sequence numbers.
pub open spec fn max_sequence(seqs: Seq<Option<u64>>, k: nat) -> Option<u64>
    decreases k,
{
    if k == 0 {
        None
    } else {
        match (max_sequence(seqs, (k - 1) as nat), seqs[k - 1]) {
            (None, x) => x,
            (Some(m), None) => Some(m),
            (Some(m), Some(x)) => Some(if x > m { x } else { m }),
        }
    }
}

/// The sequence number of the next generation: one more than the largest
/// found (saturating), or 1 when none is found.
pub open spec fn spec_next_sequence(seqs: Seq<Option<u64>>) -> u64 {
    match max_sequence(seqs, seqs.len()) {
        None => 1,
        Some(m) => if m == u64::MAX { m } else { (m + 1) as u64 },
    }
}

/// The first of the first `k` slots without a sequence number.
pub open spec fn first_empty(seqs: Seq<Option<u64>>, k: nat) -> Option<nat>
    decreases k,
{
    if k == 0 {
        None
    } else {
        match first_empty(seqs, (k - 1) as nat) {
            Some(j) => Some(j),
            None => if seqs[k - 1] is None { Some((k - 1) as nat) } else { None },
        }
    }
}

/// The first of the first `k` slots with the smallest sequence number.
pub open spec fn oldest_slot(seqs: Seq<Option<u64>>, k: nat) -> nat
    decreases k,
{
    if k <= 1 {
        0
    } else {
        let j = oldest_slot(seqs, (k - 1) as nat);
        if (seqs[k - 1]->0) < (seqs[j as int]->0) { (k - 1) as nat } else { j }
    }
}

/// The slot the next generation goes to: the slot its sequence number
/// points at (modulo the slot count) when that slot is empty, else the
/// first empty slot, else the slot of the oldest generation.
pub open spec fn spec_target_slot(seqs: Seq<Option<u64>>) -> nat {
    let n = seqs.len();
    let preferred = ((spec_next_sequence(seqs) as usize) as int % n as int) as nat;
    match first_empty(seqs, n) {
        Some(f) => if seqs[preferred as int] is None { preferred } else { f },
        None => oldest_slot(seqs, n),
    }
}

proof fn lemma_first_empty_none(seqs: Seq<Option<u64>>, k: nat)
    requires
        k <= seqs.len(),
        first_empty(seqs, k) is None,
    ensures
        forall|i: int| 0 <= i < k ==> (#[trigger] seqs[i]) is Some,
    decreases k,
{
    if k > 0 {
        lemma_first_empty_none(seqs, (k - 1) as nat);
    }
}

proof fn lemma_first_empty_sticks(seqs: Seq<Option<u64>>, k: nat, m: nat)
    requires
        k <= m,
        first_empty(seqs, k) is Some,
    ensures
        first_empty(seqs, m) == first_empty(seqs, k),
    decreases m - k,
{
    if k < m {
        lemma_first_empty_sticks(seqs, k, (m - 1) as nat);
    }
}

proof fn lemma_first_empty_is_empty(seqs: Seq<Option<u64>>, k: nat)
    requires
        k <= seqs.len(),
        first_empty(seqs, k) is Some,
    ensures
        first_empty(seqs, k)->0 < k,
        seqs[first_empty(seqs, k)->0 as int] is None,
    decreases k,
{
    if k > 0 && first_empty(seqs, (k - 1) as nat) is Some {
        lemma_first_empty_is_empty(seqs, (k - 1) as nat);
    }
}

proof fn lemma_max_sequence_bound(seqs: Seq<Option<u64>>, k: nat)
    requires
        k <= seqs.len(),
    ensures
        max_sequence(seqs, k) is None <==> forall|i: int| 0 <= i < k ==> (#[trigger] seqs[i]) is None,
        max_sequence(seqs, k) matches Some(m) ==> forall|i: int| 0 <= i < k && (#[trigger] seqs[i]) is Some ==> seqs[i]->0 <= m,
    decreases k,
{
    if k > 0 {
        lemma_max_sequence_bound(seqs, (k - 1) as nat);
    }
}

proof fn lemma_oldest_slot(seqs: Seq<Option<u64>>, k: nat)
    requires
        1 <= k <= seqs.len(),
        forall|i: int| 0 <= i < k ==> (#[trigger] seqs[i]) is Some,
    ensures
        oldest_slot(seqs, k) < k,
        forall|i: int| 0 <= i < k ==> seqs[oldest_slot(seqs, k) as int]->0 <= (#[trigger] seqs[i])->0,
        forall|i: int| 0 <= i < oldest_slot(seqs, k) ==> seqs[oldest_slot(seqs, k) as int]->0 < (#[trigger] seqs[i])->0,
    decreases k,
{
    if k > 1 {
        lemma_oldest_slot(seqs, (k - 1) as nat);
    }
}

/// A header read that failed with an error that is not recoverable.
pub open spec fn read_is_fatal(rd: Result<Vec<u8>, Error>) -> bool {
    rd matches Err(e) && !spec_is_recoverable(e)
}

/// What header reads give of each slot: the bytes read, or nothing where a
/// read failed.
pub open spec fn headers_of_reads(reads: Seq<Result<Vec<u8>, Error>>) -> Seq<Option<Seq<u8>>> {
    Seq::new(reads.len(), |i: int| match reads[i] {
        Ok(v) => Some(v@),
        Err(_) => None,
    })
}

/// Sorts the header reads of the slots: a read that failed with a
/// recoverable error counts as an empty slot; the first read (by slot
/// index) that failed with any other error is returned.
pub fn headers_from_reads(reads: Vec<Result<Vec<u8>, Error>>) -> (r: Result<Vec<Option<Vec<u8>>>, Error>)
    ensures
        (exists|i: int| 0 <= i < reads@.len() && #[trigger] read_is_fatal(reads@[i])) <==> r is Err,
        r matches Err(e) ==> exists|i: int| 0 <= i < reads@.len() && #[trigger] read_is_fatal(reads@[i])
            && reads@[i] == Err::<Vec<u8>, Error>(e)
            && forall|j: int| 0 <= j < i ==> !read_is_fatal(#[trigger] reads@[j]),
        r matches Ok(h) ==> opt_bytes_view(h@) == headers_of_reads(reads@),
{
    let ghost orig = reads@;
    let n = reads.len();
    let mut rest = reads;
    let mut headers: Vec<Option<Vec<u8>>> = Vec::with_capacity(n);
    let mut k: usize = 0;
    while k < n
        invariant
            n == orig.len(),
            orig == reads@,
            0 <= k <= n,
            rest@ == orig.subrange(k as int, n as int),
            headers@.len() == k,
            opt_bytes_view(headers@) == headers_of_reads(orig).subrange(0, k as int),
            forall|j: int| 0 <= j < k ==> !read_is_fatal(#[trigger] orig[j]),
        decreases n - k,
    {
        let rd = rest.remove(0);
        assert(rd == orig[k as int]);
        match rd {
            Ok(v) => headers.push(Some(v)),
            Err(e) => {
                if e.is_recoverable() {
                    headers.push(None);
                } else {
                    proof {
                        assert(orig[k as int] == Err::<Vec<u8>, Error>(e));
                        assert(read_is_fatal(orig[k as int]));
                        assert(reads@ == orig);
                    }
                    return Err(e);
                }
            },
        }
        k += 1;
        assert(rest@ =~= orig.subrange(k as int, n as int));
        assert(opt_bytes_view(headers@) =~= headers_of_reads(orig).subrange(0, k as int));
    }
    assert(opt_bytes_view(headers@) =~= headers_of_reads(orig));
    Ok(headers)
}

/// Chooses the sequence number and the slot of the next generation from
/// the header reads of all slots: the first read that failed with an error
/// that is not recoverable is returned; otherwise the choice of
/// `next_generation_target`, with the slots whose reads failed counted as
/// empty.
pub fn generation_target_from_reads(reads: Vec<Result<Vec<u8>, Error>>) -> (r: Result<(u64, usize), Error>)
    requires
        reads@.len() >= 1,
    ensures
        (exists|i: int| 0 <= i < reads@.len() && #[trigger] read_is_fatal(reads@[i])) <==> r is Err,
        r matches Err(e) ==> exists|i: int| 0 <= i < reads@.len() && #[trigger] read_is_fatal(reads@[i])
            && reads@[i] == Err::<Vec<u8>, Error>(e)
            && forall|j: int| 0 <= j < i ==> !read_is_fatal(#[trigger] reads@[j]),
        r matches Ok((s, t)) ==> spec_generation_target(headers_of_reads(reads@)) == (s, t as nat)
            && t < reads@.len(),
{
    let ghost orig = reads@;
    let headers = match headers_from_reads(reads) {
        Ok(h) => h,
        Err(e) => return Err(e),
    };
    assert(opt_bytes_view(headers@).len() == headers@.len());
    let (s, t) = next_generation_target(headers.as_slice());
    Ok((s, t))
}

/// Chooses the sequence number and the slot of the next generation from
/// what the header reads of all slots gave (`None` for a slot that could
/// not be read).
///
/// The new sequence number is larger than every one found (unless the
/// largest is `u64::MAX`); an empty slot is never passed over for one that
/// holds data; a full set of slots loses its oldest generation.
pub fn next_generation_target(headers: &[Option<Vec<u8>>]) -> (r: (u64, usize))
    requires
        headers@.len() >= 1,
    ensures
        r.0 == spec_next_sequence(slot_sequences(opt_bytes_view(headers@))),
        r.1 == spec_target_slot(slot_sequences(opt_bytes_view(headers@))),
        r.1 < headers@.len(),
        forall|i: int| 0 <= i < headers@.len() && (#[trigger] slot_sequences(opt_bytes_view(headers@))[i]) is Some
            ==> slot_sequences(opt_bytes_view(headers@))[i]->0 < r.0 || slot_sequences(opt_bytes_view(headers@))[i]->0 == u64::MAX,
        (exists|i: int| 0 <= i < headers@.len() && #[trigger] slot_sequences(opt_bytes_view(headers@))[i] is None)
            ==> slot_sequences(opt_bytes_view(headers@))[r.1 as int] is None,
        (forall|i: int| 0 <= i < headers@.len() ==> #[trigger] slot_sequences(opt_bytes_view(headers@))[i] is Some)
            ==> forall|i: int| 0 <= i < headers@.len() ==> (#[trigger] slot_sequences(opt_bytes_view(headers@))[i])->0
                >= slot_sequences(opt_bytes_view(headers@))[r.1 as int]->0,
{
    let n = headers.len();
    let ghost all = slot_sequences(opt_bytes_view(headers@));
    let mut seqs: Vec<Option<u64>> = Vec::with_capacity(n);
    let mut i: usize = 0;
    while i < n
        invariant
            0 <= i <= n,
            n == headers@.len(),
            all == slot_sequences(opt_bytes_view(headers@)),
            seqs@ == all.subrange(0, i as int),
        decreases n - i,
    {
        let s = match &headers[i] {
            Some(h) => scan_slot_sequence(h.as_slice()),
            None => None,
        };
        seqs.push(s);
        i += 1;
        assert(seqs@ =~= all.subrange(0, i as int));
    }
    assert(seqs@ =~= all);

    let mut max_sequence_found: Option<u64> = None;
    let mut first_empty_slot: Option<usize> = None;
    let mut i: usize = 0;
    while i < n
        invariant
            0 <= i <= n,
            n == seqs@.len(),
            max_sequence_found == max_sequence(seqs@, i as nat),
            first_empty_slot == (match first_empty(seqs@, i as nat) {
                Some(j) => Some(j as usize),
                None => None::<usize>,
            }),
        decreases n - i,
    {
        match seqs[i] {
            Some(s) => {
                max_sequence_found = match max_sequence_found {
                    None => Some(s),
                    Some(m) => Some(if s > m { s } else { m }),
                };
            },
            None => {
                if first_empty_slot.is_none() {
                    first_empty_slot = Some(i);
                }
            },
        }
        i += 1;
    }
    let next_sequence = match max_sequence_found {
        None => 1,
        Some(m) => m.saturating_add(1),
    };
    proof { lemma_max_sequence_bound(seqs@, n as nat); }
    let target = match first_empty_slot {
        Some(f) => {
            let preferred = (next_sequence as usize) % n;
            if seqs[preferred].is_none() {
                preferred
            } else {
                proof { lemma_first_empty_is_empty(seqs@, n as nat); }
                f
            }
        },
        None => {
            proof {
                lemma_first_empty_none(seqs@, n as nat);
                lemma_oldest_slot(seqs@, n as nat);
            }
            let mut oldest: usize = 0;
            let mut i: usize = 1;
            while i < n
                invariant
                    1 <= i <= n,
                    n == seqs@.len(),
                    forall|j: int| 0 <= j < n ==> (#[trigger] seqs@[j]) is Some,
                    oldest == oldest_slot(seqs@, i as nat),
                    oldest < i,
                decreases n - i,
            {
                let s = match seqs[i] { Some(s) => s, None => 0 };
                let o = match seqs[oldest] { Some(s) => s, None => 0 };
                if s < o {
                    oldest = i;
                }
                i += 1;
            }
            oldest
        },
    };
    proof {
        if exists|i: int| 0 <= i < n && #[trigger] all[i] is None {
            if first_empty(seqs@, n as nat) is None {
                lemma_first_empty_none(seqs@, n as nat);
            }
            lemma_first_empty_is_empty(seqs@, n as nat);
        }
    }
    (next_sequence, target)
}

// ─────────────────────────────────────────
//  Choosing the latest slot
// ─────────────────────────────────────────

/// Slot `i` decoded and matches the expected class.
pub open spec fn is_candidate(slots: Seq<Option<SlotPayload>>, expected: Option<DataClass>, i: int) -> bool {
    &&& slots[i] is Some
    &&& (expected matches Some(c) ==> slots[i]->0.data_class == c)
}

/// The decoded slot to load: the one with the largest sequence number among
/// those of the expected class (the first of them on a tie); `None` when no
/// slot qualifies.
pub fn select_latest(slots: &[Option<SlotPayload>], expected: Option<DataClass>) -> (r: Option<usize>)
    ensures
        r is None <==> forall|i: int| 0 <= i < slots@.len() ==> !is_candidate(slots@, expected, i),
        r matches Some(k) ==> k < slots@.len() && is_candidate(slots@, expected, k as int),
        r matches Some(k) ==> forall|j: int| 0 <= j < slots@.len() && is_candidate(slots@, expected, j)
            ==> (slots@[j])->0.sequence <= (slots@[k as int])->0.sequence,
        r matches Some(k) ==> forall|j: int| 0 <= j < k && is_candidate(slots@, expected, j)
            ==> (slots@[j])->0.sequence < (slots@[k as int])->0.sequence,
{
    let mut best: Option<usize> = None;
    let mut i: usize = 0;
    while i < slots.len()
        invariant
            0 <= i <= slots@.len(),
            best is None <==> forall|j: int| 0 <= j < i ==> !is_candidate(slots@, expected, j),
            best matches Some(k) ==> k < i && is_candidate(slots@, expected, k as int),
            best matches Some(k) ==> forall|j: int| 0 <= j < i && is_candidate(slots@, expected, j)
                ==> (slots@[j])->0.sequence <= (slots@[k as int])->0.sequence,
            best matches Some(k) ==> forall|j: int| 0 <= j < k && is_candidate(slots@, expected, j)
                ==> (slots@[j])->0.sequence < (slots@[k as int])->0.sequence,
        decreases slots@.len() - i,
    {
        match &slots[i] {
            Some(slot) => {
                let matches = match expected {
                    Some(c) => slot.data_class == c,
                    None => true,
                };
                assert(matches == is_candidate(slots@, expected, i as int));
                if matches {
                    match best {
                        None => {
                            best = Some(i);
                        },
                        Some(k) => {
                            let current = match &slots[k] {
                                Some(b) => b.sequence,
                                None => 0,
                            };
                            if slot.sequence > current {
                                best = Some(i);
                            }
                        },
                    }
                }
            },
            None => {
                assert(!is_candidate(slots@, expected, i as int));
            },
        }
        i += 1;
    }
    best
}

// ─────────────────────────────────────────
//  Large-data slots and range reads
// ─────────────────────────────────────────

/// The sequence number of a large-data slot header: a record's, else a
/// frame's.
pub open spec fn spec_large_sequence(h: Option<Seq<u8>>) -> Option<u64> {
    match h {
        None => None,
        Some(b) => match spec_peek_rs(b) {
            Some(s) => Some(s),
            None => spec_scan_frame_sequence(b),
        },
    }
}

/// `a` comes before `b` in the large-slot order: newer first, and the lower
/// slot first between equals.
pub open spec fn newer_first(seqs: Seq<Option<u64>>, a: int, b: int) -> bool {
    seqs[a]->0 > seqs[b]->0 || (seqs[a]->0 == seqs[b]->0 && a < b)
}

/// The slots whose headers hold a record or frame sequence number, newest
/// first (the lower slot first between equals).
#[verifier::spinoff_prover]
#[verifier::rlimit(40)]
pub fn large_slot_order(headers: &[Option<Vec<u8>>]) -> (r: Vec<usize>)
    ensures
        forall|k: int| 0 <= k < r@.len() ==> (#[trigger] r@[k]) < headers@.len()
            && spec_large_sequence(opt_bytes_view(headers@)[r@[k] as int]) is Some,
        forall|i: int| 0 <= i < headers@.len() && (#[trigger] spec_large_sequence(opt_bytes_view(headers@)[i])) is Some
            ==> r@.contains(i as usize),
        forall|a: int, b: int| 0 <= a < b < r@.len() ==> newer_first(
            Seq::new(headers@.len(), |i: int| spec_large_sequence(opt_bytes_view(headers@)[i])),
            #[trigger] r@[a] as int,
            #[trigger] r@[b] as int,
        ),
{
    let ghost seqs = Seq::new(headers@.len(), |i: int| spec_large_sequence(opt_bytes_view(headers@)[i]));
    let mut order: Vec<usize> = Vec::new();
    let mut order_seqs: Vec<u64> = Vec::new();
    let mut i: usize = 0;
    while i < headers.len()
        invariant
            0 <= i <= headers@.len(),
            seqs == Seq::new(headers@.len(), |i: int| spec_large_sequence(opt_bytes_view(headers@)[i])),
            order@.len() == order_seqs@.len(),
            forall|k: int| 0 <= k < order@.len() ==> (#[trigger] order@[k]) < i && seqs[order@[k] as int] is Some
                && seqs[order@[k] as int]->0 == order_seqs@[k],
            forall|j: int| 0 <= j < i && (#[trigger] seqs[j]) is Some ==> order@.contains(j as usize),
            forall|a: int, b: int| 0 <= a < b < order@.len() ==> newer_first(seqs, #[trigger] order@[a] as int, #[trigger] order@[b] as int),
        decreases headers@.len() - i,
    {
        let s = match &headers[i] {
            Some(h) => match RsStrategy::peek_sequence(h.as_slice()) {
                Some(s) => Some(s),
                None => scan_frame_sequence(h.as_slice()),
            },
            None => None,
        };
        assert(s == seqs[i as int]);
        match s {
            Some(seq) => {
                let mut pos: usize = 0;
                while pos < order_seqs.len() && order_seqs[pos] >= seq
                    invariant
                        0 <= pos <= order_seqs@.len(),
                        forall|k: int| 0 <= k < pos ==> order_seqs@[k] >= seq,
                    decreases order_seqs@.len() - pos,
                {
                    pos += 1;
                }
                let ghost before = order@;
                let ghost before_seqs = order_seqs@;
                order.insert(pos, i);
                order_seqs.insert(pos, seq);
                proof {
                    before.insert_ensures(pos as int, i);
                    before_seqs.insert_ensures(pos as int, seq);
                    assert forall|a: int, b: int| 0 <= a < b < order@.len() implies
                        newer_first(seqs, #[trigger] order@[a] as int, #[trigger] order@[b] as int) by {
                        if b < pos {
                            assert(order@[a] == before[a] && order@[b] == before[b]);
                        } else if b == pos {
                            assert(order@[a] == before[a]);
                            assert(before_seqs[a] >= seq);
                        } else if a < pos {
                            assert(order@[a] == before[a] && order@[b] == before[b - 1]);
                        } else if a == pos {
                            assert(order@[b] == before[b - 1]);
                            assert(pos < before.len());
                            assert(before_seqs[pos as int] < seq);
                            if b - 1 > pos {
                                assert(newer_first(seqs, before[pos as int] as int, before[b - 1] as int));
                            }
                            assert(before_seqs[b - 1] == seqs[before[b - 1] as int]->0);
                            assert(before_seqs[pos as int] == seqs[before[pos as int] as int]->0);
                        } else {
                            assert(order@[a] == before[a - 1] && order@[b] == before[b - 1]);
                        }
                    }
                    assert forall|j: int| 0 <= j < i + 1 && (#[trigger] seqs[j]) is Some implies order@.contains(j as usize) by {
                        if j < i {
                            let k = choose|k: int| 0 <= k < before.len() && before[k] == j as usize;
                            if k < pos {
                                assert(order@[k] == j as usize);
                            } else {
                                assert(order@[k + 1] == j as usize);
                            }
                        } else {
                            assert(order@[pos as int] == i);
                        }
                    }
                }
            },
            None => {},
        }
        i += 1;
    }
    assert forall|j: int| 0 <= j < headers@.len() && (#[trigger] spec_large_sequence(opt_bytes_view(headers@)[j])) is Some
        implies order@.contains(j as usize) by {
        assert(seqs[j] is Some);
    }
    order
}

/// The bytes `[start, end)` of `p`, cut at its end.
pub open spec fn clamp_range(p: Seq<u8>, start: usize, end: usize) -> Seq<u8> {
    let s = if (start as int) < p.len() { start as int } else { p.len() as int };
    let e = if (end as int) < p.len() { end as int } else { p.len() as int };
    p.subrange(s, e)
}

/// What a range read makes of one large-data slot: `Ok(Some(bytes))` to
/// return, `Ok(None)` to try the next slot; the error `None` stands for an
/// I/O error of the decompressor.
///
/// A record with a compressed payload is decoded whole and decompressed; a
/// record without is read over the range only; a slot that is no record is
/// recovered as a frame.
pub open spec fn spec_range_from_slot(bytes: Seq<u8>, start: usize, end: usize) -> Result<Option<Seq<u8>>, Option<Error>> {
    let from_record: Option<Result<Option<Seq<u8>>, Option<Error>>> = match spec_decode_range(bytes, 0, 14) {
        Err(_) => None,
        Ok(prefix) => if spec_is_compressed(prefix) {
            Some(match spec_decode_record(bytes) {
                Err(_) => Ok(None),
                Ok((_, p, _)) => match spec_maybe_decompress(p) {
                    None => Err(None),
                    Some(d) => Ok(Some(clamp_range(d, start, end))),
                },
            })
        } else {
            match spec_decode_range(bytes, start, end) {
                Ok(part) => Some(Ok(Some(part))),
                Err(_) => None,
            }
        },
    };
    match from_record {
        Some(x) => x,
        None => match spec_recover(bytes) {
            Err(_) => Ok(None),
            Ok((_, p)) => match spec_maybe_decompress(p) {
                None => Err(None),
                Some(d) => Ok(Some(clamp_range(d, start, end))),
            },
        },
    }
}

fn clamped_copy(p: &[u8], start: usize, end: usize) -> (r: Vec<u8>)
    requires
        start <= end,
    ensures
        r@ == clamp_range(p@, start, end),
{
    let s = if start < p.len() { start } else { p.len() };
    let e = if end < p.len() { end } else { p.len() };
    copy_range(p, s, e)
}

/// Reads the payload bytes `[start, end)` from one large-data slot.
pub fn range_from_slot(bytes: &[u8], start: usize, end: usize) -> (r: Result<Option<Vec<u8>>, Error>)
    requires
        start <= end,
    ensures
        match spec_range_from_slot(bytes@, start, end) {
            Ok(None) => r matches Ok(None),
            Ok(Some(p)) => r matches Ok(Some(v)) && v@ == p,
            Err(Some(e)) => r matches Err(x) && x == e,
            Err(None) => r matches Err(Error::Io(_)),
        },
{
    match RsStrategy::decode_payload_range(bytes, 0..14) {
        Ok(prefix) => {
            if is_compressed_payload(prefix.as_slice()) {
                let record = match RsStrategy::decode_record(bytes) {
                    Ok(record) => record,
                    Err(_) => return Ok(None),
                };
                let payload = match maybe_decompress_payload(record.payload.as_slice()) {
                    Ok(p) => p,
                    Err(e) => return Err(e),
                };
                return Ok(Some(clamped_copy(payload.as_slice(), start, end)));
            }
            match RsStrategy::decode_payload_range(bytes, start..end) {
                Ok(partial) => return Ok(Some(partial)),
                Err(_) => {},
            }
        },
        Err(_) => {},
    }
    let frame = match StorageFrame::recover(bytes) {
        Ok(frame) => frame,
        Err(_) => return Ok(None),
    };
    let payload = match maybe_decompress_payload(frame.payload.as_slice()) {
        Ok(p) => p,
        Err(e) => return Err(e),
    };
    Ok(Some(clamped_copy(payload.as_slice(), start, end)))
}

// ─────────────────────────────────────────
//  Scrubbing
// ─────────────────────────────────────────

/// Tallies of one scrub pass over the slots.
#[derive(Debug, Clone, Copy, PartialEq, Eq, Structural)]
pub struct ScrubReport {
    pub scanned_slots: usize,
    pub healthy_slots: usize,
    pub repaired_slots: usize,
    pub recoverable_error_slots: usize,
    pub budget_skipped_slots: usize,
}

impl Default for ScrubReport {
    fn default() -> (r: ScrubReport)
        ensures
            r == (ScrubReport {
                scanned_slots: 0,
                healthy_slots: 0,
                repaired_slots: 0,
                recoverable_error_slots: 0,
                budget_skipped_slots: 0,
            }),
    {
        ScrubReport { scanned_slots: 0, healthy_slots: 0, repaired_slots: 0, recoverable_error_slots: 0, budget_skipped_slots: 0 }
    }
}

/// What scrubbing found in one slot.
#[derive(Debug, Clone, PartialEq, Eq)]
pub enum SlotCheck {
    /// The slot could not be read or decoded (a recoverable error).
    Unavailable,
    /// The slot holds exactly the encoding of its content.
    Healthy,
    /// The slot decodes but differs from the encoding of its content, which
    /// is to be written back.
    Repair(Vec<u8>),
}

/// The check of a slot's bytes: `Ok(None)` for an unavailable slot,
/// `Ok(Some(empty))` for a healthy one, `Ok(Some(bytes))` for the repair to
/// write, `Err` for a fatal decoding error; `None` when an I/O error of the
/// decompressor decides.
pub open spec fn spec_check_slot(bytes: Seq<u8>) -> Option<Result<Option<Seq<u8>>, Error>> {
    match spec_decode_slot(bytes) {
        Err(Some(e)) => if spec_is_recoverable(e) { Some(Ok(None)) } else { Some(Err(e)) },
        Err(None) => None,
        Ok((s, p, _, enc)) => {
            let again = spec_encode_slot(s, p, enc);
            if again == bytes { Some(Ok(Some(Seq::empty()))) } else { Some(Ok(Some(again))) }
        },
    }
}

fn same_bytes(a: &[u8], b: &[u8]) -> (r: bool)
    ensures
        r == (a@ == b@),
{
    if a.len() != b.len() {
        return false;
    }
    let mut i: usize = 0;
    while i < a.len()
        invariant
            a@.len() == b@.len(),
            0 <= i <= a@.len(),
            forall|j: int| 0 <= j < i ==> a@[j] == b@[j],
        decreases a@.len() - i,
    {
        if a[i] != b[i] {
            return false;
        }
        i += 1;
    }
    assert(a@ =~= b@);
    true
}

/// Decodes a slot and re-encodes its content to see whether it needs a
/// repair; a decoding error that is recoverable makes the slot
/// unavailable, any other is returned.
pub fn check_slot(bytes: &[u8]) -> (r: Result<SlotCheck, Error>)
    ensures
        spec_decode_slot(bytes@) matches Ok((s, p, _, enc)) ==> (
            (r matches Ok(SlotCheck::Healthy) ==> spec_encode_slot(s, p, enc) == bytes@)
            && (r matches Ok(SlotCheck::Repair(v)) ==> v@ == spec_encode_slot(s, p, enc) && v@ != bytes@)
            && (r matches Err(x) ==> (x is Tmr || x is Rs))
            && !(r matches Ok(SlotCheck::Unavailable))),
        r matches Ok(SlotCheck::Repair(_)) ==> spec_decode_slot(bytes@) is Ok,
        r matches Ok(SlotCheck::Healthy) ==> spec_decode_slot(bytes@) is Ok,
        spec_decode_slot(bytes@) matches Ok((_, p, _, enc)) && spec_encodable(p, enc) ==> r is Ok,
        spec_check_slot(bytes@) matches Some(Ok(None)) ==> (r matches Ok(SlotCheck::Unavailable)),
        spec_check_slot(bytes@) matches Some(Err(e)) ==> (r matches Err(x) && x == e),
{
    let decoded = match decode_slot_payload(bytes) {
        Ok(d) => d,
        Err(e) => {
            if e.is_recoverable() {
                return Ok(SlotCheck::Unavailable);
            }
            return Err(e);
        },
    };
    let len = bytes.len();
    assert(len == bytes@.len());
    let repaired = match encode_slot_payload(&decoded) {
        Ok(v) => v,
        Err(e) => {
            return Err(e);
        },
    };
    if same_bytes(repaired.as_slice(), bytes) {
        Ok(SlotCheck::Healthy)
    } else {
        Ok(SlotCheck::Repair(repaired))
    }
}

/// Scrub outcome of one slot.
#[derive(Debug, Clone, Copy, PartialEq, Eq, Structural)]
pub enum ScrubOutcome {
    Unavailable,
    Healthy,
    NeedsRepair,
}

/// Updates the tallies with one slot's outcome and says whether its
/// repair is written: repairs are written while fewer than
/// `max_repair_writes` have been, the others counted as skipped.
pub fn scrub_step(report: ScrubReport, outcome: ScrubOutcome, max_repair_writes: usize) -> (r: (ScrubReport, bool))
    requires
        report.scanned_slots < usize::MAX,
        report.healthy_slots < usize::MAX,
        report.repaired_slots < usize::MAX,
        report.recoverable_error_slots < usize::MAX,
        report.budget_skipped_slots < usize::MAX,
    ensures
        r.0.scanned_slots == report.scanned_slots + 1,
        outcome == ScrubOutcome::Unavailable ==> !r.1 && r.0 == (ScrubReport {
            scanned_slots: (report.scanned_slots + 1) as usize,
            recoverable_error_slots: (report.recoverable_error_slots + 1) as usize,
            ..report
        }),
        outcome == ScrubOutcome::Healthy ==> !r.1 && r.0 == (ScrubReport {
            scanned_slots: (report.scanned_slots + 1) as usize,
            healthy_slots: (report.healthy_slots + 1) as usize,
            ..report
        }),
        outcome == ScrubOutcome::NeedsRepair && report.repaired_slots >= max_repair_writes ==> !r.1 && r.0 == (ScrubReport {
            scanned_slots: (report.scanned_slots + 1) as usize,
            budget_skipped_slots: (report.budget_skipped_slots + 1) as usize,
            ..report
        }),
        outcome == ScrubOutcome::NeedsRepair && report.repaired_slots < max_repair_writes ==> r.1 && r.0 == (ScrubReport {
            scanned_slots: (report.scanned_slots + 1) as usize,
            repaired_slots: (report.repaired_slots + 1) as usize,
            ..report
        }),
{
    let mut next = report;
    next.scanned_slots = report.scanned_slots + 1;
    match outcome {
        ScrubOutcome::Unavailable => {
            next.recoverable_error_slots = report.recoverable_error_slots + 1;
            (next, false)
        },
        ScrubOutcome::Healthy => {
            next.healthy_slots = report.healthy_slots + 1;
            (next, false)
        },
        ScrubOutcome::NeedsRepair => {
            if report.repaired_slots >= max_repair_writes {
                next.budget_skipped_slots = report.budget_skipped_slots + 1;
                (next, false)
            } else {
                next.repaired_slots = report.repaired_slots + 1;
                (next, true)
            }
        },
    }
}

// ─────────────────────────────────────────
//  Encoding a generation for saving
// ─────────────────────────────────────────

/// `std::io::Error::new` of kind `InvalidInput` reporting a serialised size
/// at or above the small-data threshold.
#[verifier::external_body]
fn oversize_error(len: usize, threshold: usize) -> (r: std::io::Error)
    ensures
        spec_io_error_kind(r) == IoErrorKind::InvalidInput,
{
    std::io::Error::new(
        std::io::ErrorKind::InvalidInput,
        format!("Serialized payload size {len} exceeds small-data threshold {threshold}"),
    )
}

/// `std::io::Error::new` of kind `InvalidInput` reporting a serialised size
/// below the small-data threshold.
#[verifier::external_body]
fn undersize_error(len: usize, threshold: usize) -> (r: std::io::Error)
    ensures
        spec_io_error_kind(r) == IoErrorKind::InvalidInput,
{
    std::io::Error::new(
        std::io::ErrorKind::InvalidInput,
        format!("Serialized payload size {len} is below large-data threshold {threshold}"),
    )
}

/// The slot bytes of a small payload: compressed as the policy says, then
/// stored with triple modular redundancy. Payloads at or above the
/// threshold are refused.
///
/// The slot decodes as a TMR slot with the sequence number, and the stored
/// payload decompresses to `serialized` (unless `serialized` itself starts
/// with a compression header and was stored as it is).
pub fn encode_small_slot(serialized: &[u8], policy: CompressionPolicy, sequence: u64) -> (r: Result<Vec<u8>, Error>)
    requires
        serialized@.len() <= usize::MAX / 4,
    ensures
        serialized@.len() >= 4096 ==> (r matches Err(Error::Io(_))),
        serialized@.len() < 4096 ==> match spec_maybe_compress(serialized@, DataClass::Small, policy) {
            Some(p) => r matches Ok(v) && v@ == spec_encode_tmr(sequence, p),
            None => r matches Err(Error::Io(_)),
        },
        r matches Ok(v) ==> spec_decode_tmr(v@) matches Ok((s, p)) && s == sequence
            && (p != serialized@ || !spec_is_compressed(serialized@) ==> spec_maybe_decompress(p) == Some(serialized@)),
{
    if serialized.len() >= SMALL_DATA_THRESHOLD_BYTES {
        return Err(Error::Io(oversize_error(serialized.len(), SMALL_DATA_THRESHOLD_BYTES)));
    }
    let payload = match maybe_compress_payload(serialized, DataClass::Small, policy) {
        Ok(p) => p,
        Err(e) => return Err(e),
    };
    proof {
        assert(payload@.len() <= u32::MAX);
        crate::healed::tmr::lemma_tmr_roundtrip(sequence, payload@);
    }
    match TmrStrategy::encode_tmr(sequence, payload.as_slice()) {
        Ok(v) => Ok(v),
        Err(e) => Err(Error::Tmr(e)),
    }
}

/// The slot bytes of a large payload: compressed as the policy says, then
/// stored as a Reed-Solomon record. Payloads below the threshold are
/// refused.
pub fn encode_large_slot(serialized: &[u8], policy: CompressionPolicy, sequence: u64) -> (r: Result<Vec<u8>, Error>)
    ensures
        serialized@.len() < 4096 ==> (r matches Err(Error::Io(_))),
        serialized@.len() >= 4096 ==> match spec_maybe_compress(serialized@, DataClass::Large, policy) {
            Some(p) => if record_too_large(p.len()) {
                r matches Err(Error::Rs(_))
            } else {
                r matches Ok(v) && v@ == spec_encode_record(sequence, p)
            },
            None => r matches Err(Error::Io(_)),
        },
        r matches Ok(v) ==> spec_decode_record(v@) matches Ok((s, p, _)) && s == sequence
            && (p != serialized@ || !spec_is_compressed(serialized@) ==> spec_maybe_decompress(p) == Some(serialized@)),
{
    if serialized.len() < SMALL_DATA_THRESHOLD_BYTES {
        return Err(Error::Io(undersize_error(serialized.len(), SMALL_DATA_THRESHOLD_BYTES)));
    }
    let payload = match maybe_compress_payload(serialized, DataClass::Large, policy) {
        Ok(p) => p,
        Err(e) => return Err(e),
    };
    match RsStrategy::encode_record(sequence, payload.as_slice()) {
        Ok(v) => Ok(v),
        Err(e) => Err(Error::Rs(e)),
    }
}

/// Record bytes `b` decode to payload `p`, and every range read of them
/// gives the bytes of `p` in the range, cut at its end.
pub open spec fn record_reads_back(b: Seq<u8>, p: Seq<u8>) -> bool {
    &&& spec_decode_record(b) is Ok
    &&& spec_decode_record(b)->Ok_0.1 == p
    &&& forall|start: usize, end: usize| start <= end ==> #[trigger] spec_decode_range(b, start, end)
        == Ok::<Seq<u8>, RsError>(clamp_range(p, start, end))
}

/// Slot bytes `b` decode, by the decoder of their own encoding (a record
/// or a frame), to sequence number `s` and a payload that decompresses to
/// `serialized`.
pub open spec fn own_roundtrip(b: Seq<u8>, s: u64, serialized: Seq<u8>) -> bool {
    ||| spec_decode_record(b) is Ok && spec_decode_record(b)->Ok_0.0 == s
        && spec_maybe_decompress(spec_decode_record(b)->Ok_0.1) == Some(serialized)
    ||| spec_recover(b) is Ok && spec_recover(b)->Ok_0.0.sequence == s
        && spec_maybe_decompress(spec_recover(b)->Ok_0.1) == Some(serialized)
}

/// The slot bytes of a generation saved with `save`: compressed as the
/// policy says for the payload's class, then a Reed-Solomon record for
/// large payloads and a frame at `level` for small ones.
pub fn encode_save_slot(serialized: &[u8], level: ProtectionLevel, policy: CompressionPolicy, sequence: u64) -> (r: Result<Vec<u8>, Error>)
    requires
        serialized@.len() <= usize::MAX / 4,
    ensures
        match spec_maybe_compress(serialized@, spec_class_of(serialized@.len()), policy) {
            None => r matches Err(Error::Io(_)),
            Some(p) => if serialized@.len() >= 4096 {
                if record_too_large(p.len()) {
                    r matches Err(Error::Rs(_))
                } else {
                    r matches Ok(v) && v@ == spec_encode_record(sequence, p)
                }
            } else {
                r matches Ok(v) && v@ == spec_frame_bytes(MetaData { sequence, level, payload_len: p.len() as u32 }, p)
            },
        },
        !spec_is_compressed(serialized@) ==> (r matches Ok(v) ==> own_roundtrip(v@, sequence, serialized@)),
{
    let data_class = DataClass::from_payload_len(serialized.len());
    let payload = match maybe_compress_payload(serialized, data_class, policy) {
        Ok(p) => p,
        Err(e) => return Err(e),
    };
    match data_class {
        DataClass::Large => match RsStrategy::encode_record(sequence, payload.as_slice()) {
            Ok(v) => Ok(v),
            Err(e) => Err(Error::Rs(e)),
        },
        DataClass::Small => {
            let frame = StorageFrame::new(payload, sequence, level);
            frame.to_bytes()
        },
    }
}

// ─────────────────────────────────────────
//  Backends
// ─────────────────────────────────────────

#[verifier::external_type_specification]
#[verifier::external_body]
pub struct ExPathBuf(std::path::PathBuf);

/// Slots kept as files `<filename_base>.<index>` in a directory; the file
/// operations are the caller's.
pub struct FileSystemBackend {
    dir: std::path::PathBuf,
    filename_base: String,
    bitflip_config: Option<BitFlipConfig>,
}

impl FileSystemBackend {
    /// A backend in `dir` whose files are named after `filename_base`,
    /// without fault injection.
    pub fn new(dir: std::path::PathBuf, filename_base: String) -> (r: FileSystemBackend)
        ensures
            r.dir() == dir,
            r.filename_base()@ == filename_base@,
            r.bitflip_config() is None,
    {
        FileSystemBackend { dir, filename_base, bitflip_config: None }
    }

    /// The backend with fault injection on writes (for tests).
    pub fn with_bitflip_for_tests(self, config: BitFlipConfig) -> (r: FileSystemBackend)
        ensures
            r.dir() == self.dir(),
            r.filename_base()@ == self.filename_base()@,
            r.bitflip_config() == Some(config),
    {
        FileSystemBackend { dir: self.dir, filename_base: self.filename_base, bitflip_config: Some(config) }
    }

    /// The directory of the slot files.
    pub closed spec fn dir(&self) -> std::path::PathBuf {
        self.dir
    }

    /// The file name stem.
    pub closed spec fn filename_base(&self) -> String {
        self.filename_base
    }

    /// The fault injection on writes, if any.
    pub closed spec fn bitflip_config(&self) -> Option<BitFlipConfig> {
        self.bitflip_config
    }

    /// The directory of the slot files.
    pub fn directory(&self) -> (r: &std::path::PathBuf)
        ensures
            *r == self.dir(),
    {
        &self.dir
    }

    /// The file name stem.
    pub fn file_stem(&self) -> (r: &String)
        ensures
            r@ == self.filename_base()@,
    {
        &self.filename_base
    }

    /// The fault injection on writes, if any.
    pub fn fault_injection(&self) -> (r: Option<BitFlipConfig>)
        ensures
            r == self.bitflip_config(),
    {
        self.bitflip_config
    }
}

/// `std::io::Error::new` of kind `InvalidInput` reporting slot bytes too
/// long for their bit count to fit in `usize`.
#[verifier::external_body]
fn slot_too_large_error(len: usize) -> (r: std::io::Error)
    ensures
        spec_io_error_kind(r) == IoErrorKind::InvalidInput,
{
    std::io::Error::new(std::io::ErrorKind::InvalidInput, format!("Encoded slot of {len} bytes is too large"))
}

/// `std::io::Error::new` of kind `InvalidInput` reporting a range whose
/// start lies after its end.
#[verifier::external_body]
fn invalid_range_error(start: usize, end: usize) -> (r: std::io::Error)
    ensures
        spec_io_error_kind(r) == IoErrorKind::InvalidInput,
{
    std::io::Error::new(
        std::io::ErrorKind::InvalidInput,
        format!("Invalid large range: start {start} is greater than end {end}"),
    )
}

/// `std::io::Error::new` of kind `NotFound` for an empty memory slot.
#[verifier::external_body]
fn slot_not_found_error(index: usize) -> (r: std::io::Error)
    ensures
        spec_io_error_kind(r) == IoErrorKind::NotFound,
{
    std::io::Error::new(std::io::ErrorKind::NotFound, format!("Memory slot {index} not found"))
}

/// `std::io::Error::new` of kind `InvalidInput` for a slot index out of range.
#[verifier::external_body]
fn slot_index_error(index: usize) -> (r: std::io::Error)
    ensures
        spec_io_error_kind(r) == IoErrorKind::InvalidInput,
{
    std::io::Error::new(std::io::ErrorKind::InvalidInput, format!("Memory slot index {index} is out of bounds"))
}

/// Slots held in memory, for tests and data that lives as long as the
/// process.
#[derive(Debug, Clone)]
pub struct MemoryBackend {
    slots: Vec<Option<Vec<u8>>>,
    bitflip_config: Option<BitFlipConfig>,
}

impl View for MemoryBackend {
    type V = Seq<Option<Seq<u8>>>;

    closed spec fn view(&self) -> Seq<Option<Seq<u8>>> {
        opt_bytes_view(self.slots@)
    }
}

impl MemoryBackend {
    /// `num_slots` empty slots, without fault injection.
    pub fn new(num_slots: usize) -> (r: MemoryBackend)
        requires
            num_slots > 0,
        ensures
            r@ == Seq::new(num_slots as nat, |i: int| None::<Seq<u8>>),
            r.fault_config() is None,
    {
        let mut slots: Vec<Option<Vec<u8>>> = Vec::with_capacity(num_slots);
        let mut i: usize = 0;
        while i < num_slots
            invariant
                0 <= i <= num_slots,
                slots@.len() == i,
                forall|j: int| 0 <= j < i ==> (#[trigger] slots@[j]) is None,
            decreases num_slots - i,
        {
            slots.push(None);
            i += 1;
        }
        assert(opt_bytes_view(slots@) =~= Seq::new(num_slots as nat, |j: int| None::<Seq<u8>>));
        MemoryBackend { slots, bitflip_config: None }
    }

    /// The fault injection on writes, if any.
    pub closed spec fn fault_config(&self) -> Option<BitFlipConfig> {
        self.bitflip_config
    }

    /// The backend with fault injection on writes (for tests).
    pub fn with_bitflip_for_tests(self, config: BitFlipConfig) -> (r: MemoryBackend)
        ensures
            r@ == self@,
            r.fault_config() == Some(config),
    {
        MemoryBackend { slots: self.slots, bitflip_config: Some(config) }
    }

    /// Number of slots.
    pub fn num_slots(&self) -> (r: usize)
        ensures
            r == self@.len(),
    {
        self.slots.len()
    }

    /// The bytes of slot `index`: an `InvalidInput` error for an index out
    /// of range, a `NotFound` error for an empty slot.
    pub fn read_slot(&self, index: usize) -> (r: Result<Vec<u8>, Error>)
        ensures
            index >= self@.len() ==> (r matches Err(Error::Io(e)) && spec_io_error_kind(e) == IoErrorKind::InvalidInput),
            index < self@.len() && self@[index as int] is None ==> (r matches Err(Error::Io(e))
                && spec_io_error_kind(e) == IoErrorKind::NotFound),
            index < self@.len() && self@[index as int] is Some ==> (r matches Ok(v) && v@ == self@[index as int]->0),
    {
        if index >= self.slots.len() {
            return Err(Error::Io(slot_index_error(index)));
        }
        match &self.slots[index] {
            Some(data) => {
                assert(data@.subrange(0, data@.len() as int) =~= data@);
                Ok(copy_range(data.as_slice(), 0, data.len()))
            },
            None => Err(Error::Io(slot_not_found_error(index))),
        }
    }

    /// Stores `data` in slot `index`; with fault injection the configured
    /// bits are flipped first. Other slots are unchanged.
    pub fn write_slot(&mut self, index: usize, data: &[u8]) -> (r: Result<(), Error>)
        requires
            data@.len() * 8 <= usize::MAX,
        ensures
            index >= old(self)@.len() ==> (r matches Err(Error::Io(e)) && spec_io_error_kind(e) == IoErrorKind::InvalidInput)
                && final(self)@ == old(self)@,
            final(self)@.len() == old(self)@.len(),
            final(self).fault_config() == old(self).fault_config(),
            forall|j: int| 0 <= j < old(self)@.len() && j != index ==> #[trigger] final(self)@[j] == old(self)@[j],
            index < old(self)@.len() && old(self).fault_config() is None ==> r is Ok && final(self)@[index as int] == Some(data@),
            index < old(self)@.len() && r is Ok ==> (final(self)@[index as int] matches Some(d) && d.len() == data@.len()),
            r is Err ==> final(self)@ == old(self)@,
            (index < old(self)@.len() && old(self).fault_config() is Some) ==> ({
                let c = old(self).fault_config()->0;
                let available = spec_available_bits(data@.len() as int, c.target);
                &&& (r is Ok <==> (c.flip_bits == 0 || c.flip_bits <= available))
                &&& (r is Err ==> r == Err::<(), Error>(Error::BitFlip(BitFlipError::FlipBitsOutOfRange {
                    flip_bits: c.flip_bits, available_bits: available as usize })))
                &&& (r is Ok && c.flip_bits == 0 ==> final(self)@[index as int] == Some(data@))
                &&& (r is Ok && c.flip_bits > 0 ==> (final(self)@[index as int] matches Some(d)
                    && flipped_as_configured(data@, d, c)))
            }),
    {
        if index >= self.slots.len() {
            return Err(Error::Io(slot_index_error(index)));
        }
        let stored = match self.bitflip_config {
            Some(config) => {
                let mut writer = crate::bitflip::BitFlipWriter::new(Vec::<u8>::new(), config);
                writer.write_bytes(data);
                match writer.finish() {
                    Ok((_, out)) => out,
                    Err(e) => return Err(map_bitflip_writer_error(e)),
                }
            },
            None => copy_range(data, 0, data.len()),
        };
        assert(data@.subrange(0, data@.len() as int) =~= data@);
        let ghost before = self.slots@;
        self.slots.set(index, Some(stored));
        assert(opt_bytes_view(self.slots@) =~= opt_bytes_view(before).update(index as int, Some(stored@)));
        Ok(())
    }

    /// The first `len` bytes of slot `index` (all of them when it is
    /// shorter); errors as `read_slot`.
    pub fn read_header(&self, index: usize, len: usize) -> (r: Result<Vec<u8>, Error>)
        ensures
            index >= self@.len() ==> (r matches Err(Error::Io(e)) && spec_io_error_kind(e) == IoErrorKind::InvalidInput),
            index < self@.len() && self@[index as int] is None ==> (r matches Err(Error::Io(e))
                && spec_io_error_kind(e) == IoErrorKind::NotFound),
            index < self@.len() && self@[index as int] is Some ==> (r matches Ok(v)
                && v@ == self@[index as int]->0.subrange(0,
                    if self@[index as int]->0.len() > len { len as int } else { self@[index as int]->0.len() as int })),
    {
        let data = match self.read_slot(index) {
            Ok(d) => d,
            Err(e) => return Err(e),
        };
        if data.len() > len {
            return Ok(copy_range(data.as_slice(), 0, len));
        }
        assert(data@.subrange(0, data@.len() as int) =~= data@);
        Ok(data)
    }

    /// Nothing to prepare for memory slots.
    pub fn ensure_backend_exists(&self) -> (r: Result<(), Error>)
        ensures
            r is Ok,
    {
        Ok(())
    }
}

// ─────────────────────────────────────────
//  The storage interface
// ─────────────────────────────────────────

/// The first `len` bytes of `b` (all of it when it is shorter).
pub open spec fn prefix(b: Seq<u8>, len: nat) -> Seq<u8> {
    if b.len() > len { b.subrange(0, len as int) } else { b }
}

/// Where a vault keeps its slots. Implement it to keep them elsewhere than
/// in files or memory.
///
/// A backend whose slots are `modeled` (an implementation in verified code)
/// holds `stored` in them; it is `exact` when its reads and writes of a slot
/// in range always succeed and writes store the data unchanged (memory slots
/// without fault injection). The defaults promise nothing; a vault promises
/// what its loads return only over an exact backend.
pub trait StorageBackend {
    /// `stored` describes the slots.
    open spec fn modeled(&self) -> bool {
        false
    }

    /// What each slot holds (`None` for an empty slot).
    open spec fn stored(&self) -> Seq<Option<Seq<u8>>> {
        Seq::empty()
    }

    /// Reads and writes do exactly what `stored` says.
    open spec fn exact(&self) -> bool {
        false
    }

    /// The bytes of slot `index`; an empty slot gives an `Io` error of kind
    /// `NotFound`.
    fn read_slot(&self, index: usize) -> (r: Result<Vec<u8>, Error>)
        ensures
            self.modeled() ==> (r matches Ok(v) ==> index < self.stored().len() && self.stored()[index as int] == Some(v@)),
            self.modeled() && self.exact() && index < self.stored().len() && self.stored()[index as int] is Some ==> r is Ok,
            self.modeled() && self.exact() ==> (r matches Err(e) ==> spec_is_recoverable(e)),
    ;

    /// Stores `data` in slot `index`.
    fn write_slot(&mut self, index: usize, data: &[u8]) -> (r: Result<(), Error>)
        requires
            data@.len() * 8 <= usize::MAX,
        ensures
            final(self).modeled() == old(self).modeled(),
            final(self).exact() == old(self).exact(),
            final(self).stored().len() == old(self).stored().len(),
            forall|j: int| 0 <= j < old(self).stored().len() && j != index
                ==> #[trigger] final(self).stored()[j] == old(self).stored()[j],
            old(self).modeled() ==> (r is Ok ==> index < old(self).stored().len() && final(self).stored()[index as int] is Some),
            old(self).modeled() && old(self).exact() && index < old(self).stored().len() ==> r is Ok
                && final(self).stored() == old(self).stored().update(index as int, Some(data@)),
            old(self).modeled() && old(self).exact() && index >= old(self).stored().len()
                ==> (r matches Err(e) && spec_is_recoverable(e)) && final(self).stored() == old(self).stored(),
    ;

    /// The first `len` bytes of slot `index`, for scanning sequence numbers.
    fn read_header(&self, index: usize, len: usize) -> (r: Result<Vec<u8>, Error>)
        ensures
            self.modeled() ==> (r matches Ok(v) ==> index < self.stored().len() && self.stored()[index as int] is Some
                && v@ == prefix(self.stored()[index as int]->0, len as nat)),
            self.modeled() && self.exact() && index < self.stored().len() && self.stored()[index as int] is Some ==> r is Ok,
            self.modeled() && self.exact() ==> (r matches Err(e) ==> spec_is_recoverable(e)),
    ;

    /// Prepares the backend (creates the directory of a file backend).
    fn ensure_backend_exists(&self) -> (r: Result<(), Error>)
        ensures
            self.modeled() && self.exact() ==> r is Ok,
    ;
}

impl StorageBackend for MemoryBackend {
    open spec fn modeled(&self) -> bool {
        true
    }

    open spec fn stored(&self) -> Seq<Option<Seq<u8>>> {
        self@
    }

    open spec fn exact(&self) -> bool {
        self.fault_config() is None
    }

    fn read_slot(&self, index: usize) -> (r: Result<Vec<u8>, Error>) {
        MemoryBackend::read_slot(self, index)
    }

    fn write_slot(&mut self, index: usize, data: &[u8]) -> (r: Result<(), Error>) {
        MemoryBackend::write_slot(self, index, data)
    }

    fn read_header(&self, index: usize, len: usize) -> (r: Result<Vec<u8>, Error>) {
        MemoryBackend::read_header(self, index, len)
    }

    fn ensure_backend_exists(&self) -> (r: Result<(), Error>) {
        MemoryBackend::ensure_backend_exists(self)
    }
}

// ─────────────────────────────────────────
//  The vault
// ─────────────────────────────────────────

/// What header reads of the first `n` slots give when every read of a
/// stored slot succeeds.
pub open spec fn scanned_headers(slots: Seq<Option<Seq<u8>>>, n: nat) -> Seq<Option<Seq<u8>>> {
    Seq::new(n, |i: int| if i < slots.len() && slots[i] is Some { Some(prefix(slots[i]->0, 72)) } else { None })
}

/// `seen` is what reads gave of `all`, some of which may have failed.
pub open spec fn read_some_of(seen: Seq<Option<Seq<u8>>>, all: Seq<Option<Seq<u8>>>) -> bool {
    &&& seen.len() == all.len()
    &&& forall|i: int| 0 <= i < seen.len() ==> (#[trigger] seen[i]) is None || seen[i] == all[i]
}

/// The sequence number and slot of the next generation, seen from `headers`.
pub open spec fn spec_generation_target(headers: Seq<Option<Seq<u8>>>) -> (u64, nat) {
    (spec_next_sequence(slot_sequences(headers)), spec_target_slot(slot_sequences(headers)))
}

/// What a load sees of slot `i`: `None` when nothing is stored there, else
/// what its bytes decode to.
pub open spec fn slot_decoding(slots: Seq<Option<Seq<u8>>>, i: int)
    -> Option<Result<(u64, Seq<u8>, DataClass, SlotEncoding), Option<Error>>> {
    if 0 <= i < slots.len() && slots[i] is Some { Some(spec_decode_slot(slots[i]->0)) } else { None }
}

/// The sequence number, payload, class and encoding slot `i` decodes to.
pub open spec fn decoded_at(slots: Seq<Option<Seq<u8>>>, i: int) -> (u64, Seq<u8>, DataClass, SlotEncoding) {
    slot_decoding(slots, i)->0->Ok_0
}

/// No slot among the first `n` fails to decode with a fatal error or an I/O
/// error of the decompressor.
pub open spec fn decodes_benignly(slots: Seq<Option<Seq<u8>>>, n: nat) -> bool {
    forall|i: int| 0 <= i < n ==> match #[trigger] slot_decoding(slots, i) {
        Some(Err(Some(e))) => spec_is_recoverable(e),
        Some(Err(None)) => false,
        _ => true,
    }
}

/// Slot `i` decodes to data of the expected class.
pub open spec fn loadable(slots: Seq<Option<Seq<u8>>>, expected: Option<DataClass>, i: int) -> bool {
    &&& slot_decoding(slots, i) is Some
    &&& slot_decoding(slots, i)->0 is Ok
    &&& (expected matches Some(c) ==> decoded_at(slots, i).2 == c)
}

/// Slot `k` is the one a load picks among the first `n`: loadable, with the
/// largest sequence number, the first of those.
pub open spec fn is_latest(slots: Seq<Option<Seq<u8>>>, n: nat, expected: Option<DataClass>, k: int) -> bool {
    &&& 0 <= k < n
    &&& loadable(slots, expected, k)
    &&& forall|j: int| 0 <= j < n && #[trigger] loadable(slots, expected, j) ==> decoded_at(slots, j).0 <= decoded_at(slots, k).0
    &&& forall|j: int| 0 <= j < k && #[trigger] loadable(slots, expected, j) ==> decoded_at(slots, j).0 < decoded_at(slots, k).0
}

/// The slot a load picks, if any slot is loadable.
pub open spec fn latest_index(slots: Seq<Option<Seq<u8>>>, n: nat, expected: Option<DataClass>) -> Option<int> {
    if exists|k: int| is_latest(slots, n, expected, k) {
        Some(choose|k: int| is_latest(slots, n, expected, k))
    } else {
        None
    }
}

/// What a load returns over an exact backend whose slots decode benignly:
/// the decompressed payload of the latest slot; `None` when no slot is
/// loadable or decompression fails.
pub open spec fn spec_loaded(slots: Seq<Option<Seq<u8>>>, n: nat, expected: Option<DataClass>) -> Option<Seq<u8>> {
    match latest_index(slots, n, expected) {
        Some(k) => spec_maybe_decompress(decoded_at(slots, k).1),
        None => None,
    }
}

/// At most one slot is the latest.
pub proof fn lemma_latest_unique(slots: Seq<Option<Seq<u8>>>, n: nat, expected: Option<DataClass>, a: int, b: int)
    requires
        is_latest(slots, n, expected, a),
        is_latest(slots, n, expected, b),
    ensures
        a == b,
{
    if a < b {
        assert(loadable(slots, expected, a));
    } else if b < a {
        assert(loadable(slots, expected, b));
    }
}

/// The sequence number and slot of the next generation of an exact
/// backend's first `n` slots.
pub open spec fn spec_target(slots: Seq<Option<Seq<u8>>>, n: nat) -> (u64, nat) {
    spec_generation_target(scanned_headers(slots, n))
}

/// The slot bytes `save` writes for `serialized`; `None` when compression
/// or encoding fails.
pub open spec fn spec_save_encoding(serialized: Seq<u8>, level: ProtectionLevel, policy: CompressionPolicy, sequence: u64) -> Option<Seq<u8>> {
    match spec_maybe_compress(serialized, spec_class_of(serialized.len()), policy) {
        None => None,
        Some(p) => if serialized.len() >= 4096 {
            if record_too_large(p.len()) { None } else { Some(spec_encode_record(sequence, p)) }
        } else {
            Some(spec_frame_bytes(MetaData { sequence, level, payload_len: p.len() as u32 }, p))
        },
    }
}

/// The slot bytes `save_small` writes for `serialized`; `None` when the
/// payload is not small or compression fails.
pub open spec fn spec_small_encoding(serialized: Seq<u8>, policy: CompressionPolicy, sequence: u64) -> Option<Seq<u8>> {
    if serialized.len() >= 4096 {
        None
    } else {
        match spec_maybe_compress(serialized, DataClass::Small, policy) {
            None => None,
            Some(p) => Some(spec_encode_tmr(sequence, p)),
        }
    }
}

/// The slot bytes `save_large` writes for `serialized`; `None` when the
/// payload is not large, or compression or encoding fails.
pub open spec fn spec_large_encoding(serialized: Seq<u8>, policy: CompressionPolicy, sequence: u64) -> Option<Seq<u8>> {
    if serialized.len() < 4096 {
        None
    } else {
        match spec_maybe_compress(serialized, DataClass::Large, policy) {
            None => None,
            Some(p) => if record_too_large(p.len()) { None } else { Some(spec_encode_record(sequence, p)) },
        }
    }
}

/// What a save leaves in an exact backend's slots, given the bytes it
/// encodes for the next generation (`None` when encoding fails).
pub open spec fn spec_after_save(slots: Seq<Option<Seq<u8>>>, n: nat, encoded: Option<Seq<u8>>) -> Seq<Option<Seq<u8>>> {
    match encoded {
        Some(b) => slots.update(spec_target(slots, n).1 as int, Some(b)),
        None => slots,
    }
}

/// The record or frame sequence number in the header of each of the
/// first `n` slots of an exact backend.
pub open spec fn large_sequences(slots: Seq<Option<Seq<u8>>>, n: nat) -> Seq<Option<u64>> {
    Seq::new(n, |i: int| spec_large_sequence(scanned_headers(slots, n)[i]))
}

/// `order` lists exactly the slots with a large-data sequence number,
/// newest first (the lower slot first between equals).
pub open spec fn large_order(order: Seq<usize>, slots: Seq<Option<Seq<u8>>>, n: nat) -> bool {
    &&& forall|k: int| 0 <= k < order.len() ==> (#[trigger] order[k]) < n && large_sequences(slots, n)[order[k] as int] is Some
    &&& forall|i: int| 0 <= i < n && (#[trigger] large_sequences(slots, n)[i]) is Some ==> order.contains(i as usize)
    &&& forall|a: int, b: int| 0 <= a < b < order.len() ==> newer_first(large_sequences(slots, n), #[trigger] order[a] as int, #[trigger] order[b] as int)
}

/// Slot `i` settles a range read: it carries a large-data sequence number
/// and reading the range from it does not send the read on to the next slot.
pub open spec fn settles_range(slots: Seq<Option<Seq<u8>>>, n: nat, start: usize, end: usize, i: int) -> bool {
    &&& 0 <= i < n
    &&& large_sequences(slots, n)[i] is Some
    &&& !(spec_range_from_slot(slots[i]->0, start, end) is Ok && spec_range_from_slot(slots[i]->0, start, end)->Ok_0 is None)
}

/// Slot `k` is the newest slot that settles a range read.
pub open spec fn first_settling(slots: Seq<Option<Seq<u8>>>, n: nat, start: usize, end: usize, k: int) -> bool {
    &&& settles_range(slots, n, start, end, k)
    &&& forall|j: int| #[trigger] settles_range(slots, n, start, end, j) && j != k
        ==> newer_first(large_sequences(slots, n), k, j)
}

/// The slot that answers a range read, if any.
pub open spec fn settling_slot(slots: Seq<Option<Seq<u8>>>, n: nat, start: usize, end: usize) -> Option<int> {
    if exists|k: int| first_settling(slots, n, start, end, k) {
        Some(choose|k: int| first_settling(slots, n, start, end, k))
    } else {
        None
    }
}

/// What a scrub may leave in a slot: what was there, or, for a slot that
/// decodes, the encoding of what it decodes to.
pub open spec fn scrub_keeps(before: Option<Seq<u8>>, after: Option<Seq<u8>>) -> bool {
    ||| after == before
    ||| before is Some && spec_decode_slot(before->0) is Ok && after == Some(spec_encode_slot(
        spec_decode_slot(before->0)->Ok_0.0, spec_decode_slot(before->0)->Ok_0.1, spec_decode_slot(before->0)->Ok_0.3))
}

/// Slot `i` decodes, and its bytes are exactly the encoding of what it
/// decodes to.
pub open spec fn slot_healthy(slots: Seq<Option<Seq<u8>>>, i: int) -> bool {
    &&& 0 <= i < slots.len()
    &&& slots[i] is Some
    &&& spec_decode_slot(slots[i]->0) matches Ok((s, p, _, enc))
    &&& spec_encode_slot(s, p, enc) == slots[i]->0
}

/// Slot `i` decodes, but its bytes differ from the encoding of what it
/// decodes to.
pub open spec fn slot_needs_repair(slots: Seq<Option<Seq<u8>>>, i: int) -> bool {
    &&& 0 <= i < slots.len()
    &&& slots[i] is Some
    &&& spec_decode_slot(slots[i]->0) matches Ok((s, p, _, enc))
    &&& spec_encode_slot(s, p, enc) != slots[i]->0
}

/// The encoding of what slot bytes `b` decode to.
pub open spec fn slot_repair(b: Seq<u8>) -> Seq<u8> {
    let d = spec_decode_slot(b)->Ok_0;
    spec_encode_slot(d.0, d.1, d.3)
}

/// Number of healthy slots among the first `n`.
pub open spec fn healthy_among(slots: Seq<Option<Seq<u8>>>, n: nat) -> nat
    decreases n,
{
    if n == 0 {
        0
    } else {
        healthy_among(slots, (n - 1) as nat) + if slot_healthy(slots, n - 1) { 1nat } else { 0nat }
    }
}

/// Number of slots needing a repair among the first `n`.
pub open spec fn repairs_among(slots: Seq<Option<Seq<u8>>>, n: nat) -> nat
    decreases n,
{
    if n == 0 {
        0
    } else {
        repairs_among(slots, (n - 1) as nat) + if slot_needs_repair(slots, n - 1) { 1nat } else { 0nat }
    }
}

/// Slot `j` is among the first `n` needing a repair, and fewer than
/// `budget` slots before it do: a scrub pass rewrites it.
pub open spec fn scrub_rewrites(slots: Seq<Option<Seq<u8>>>, n: nat, budget: nat, j: int) -> bool {
    j < n && slot_needs_repair(slots, j) && repairs_among(slots, j as nat) < budget
}

/// The slots after a complete scrub pass over the first `n` of them with
/// at most `budget` repairs: in index order, each slot needing a repair is
/// rewritten with its encoding until the budget is used up.
pub open spec fn scrubbed(slots: Seq<Option<Seq<u8>>>, n: nat, budget: nat) -> Seq<Option<Seq<u8>>> {
    Seq::new(slots.len(), |j: int| if scrub_rewrites(slots, n, budget, j) { Some(slot_repair(slots[j]->0)) } else { slots[j] })
}

/// The smaller of two numbers.
pub open spec fn min_nat(a: nat, b: nat) -> nat {
    if a <= b { a } else { b }
}

proof fn lemma_counts_bounded_by(slots: Seq<Option<Seq<u8>>>, n: nat)
    ensures
        healthy_among(slots, n) + repairs_among(slots, n) <= n,
    decreases n,
{
    if n > 0 {
        lemma_counts_bounded_by(slots, (n - 1) as nat);
    }
}

/// Every slot among the first `n` that decodes shows in its header the
/// sequence number it decodes to.
pub open spec fn headers_truthful(slots: Seq<Option<Seq<u8>>>, n: nat) -> bool {
    forall|i: int| 0 <= i < n && #[trigger] loadable(slots, None, i)
        ==> slot_sequences(scanned_headers(slots, n))[i] == Some(decoded_at(slots, i).0)
}

/// No header among the first `n` slots shows the largest sequence number.
pub open spec fn below_last_sequence(slots: Seq<Option<Seq<u8>>>, n: nat) -> bool {
    forall|i: int| 0 <= i < n && (#[trigger] slot_sequences(scanned_headers(slots, n))[i]) is Some
        ==> slot_sequences(scanned_headers(slots, n))[i]->0 < u64::MAX
}

proof fn lemma_max_attained(seqs: Seq<Option<u64>>, k: nat)
    requires
        k <= seqs.len(),
    ensures
        max_sequence(seqs, k) matches Some(m) ==> exists|i: int| 0 <= i < k && seqs[i] == Some(m),
    decreases k,
{
    if k > 0 {
        lemma_max_attained(seqs, (k - 1) as nat);
        if max_sequence(seqs, k) is Some {
            let m = max_sequence(seqs, k)->0;
            if seqs[k - 1] == Some(m) {
                assert(seqs[k - 1] == Some(m));
            } else {
                let i = choose|i: int| 0 <= i < k - 1 && seqs[i] == max_sequence(seqs, (k - 1) as nat);
                assert(seqs[i] == Some(m));
            }
        }
    }
}

/// The slot of the next generation is one of the slots.
pub proof fn lemma_target_in_range(seqs: Seq<Option<u64>>)
    requires
        seqs.len() >= 1,
    ensures
        spec_target_slot(seqs) < seqs.len(),
{
    let n = seqs.len();
    match first_empty(seqs, n) {
        Some(f) => {
            lemma_first_empty_is_empty(seqs, n);
        },
        None => {
            lemma_first_empty_none(seqs, n);
            lemma_oldest_slot(seqs, n);
        },
    }
}

/// A save overwrites an empty slot when there is one, else the slot of the
/// oldest generation.
pub proof fn lemma_target_empty_or_oldest(seqs: Seq<Option<u64>>)
    requires
        seqs.len() >= 1,
    ensures
        (exists|i: int| 0 <= i < seqs.len() && #[trigger] seqs[i] is None) ==> seqs[spec_target_slot(seqs) as int] is None,
        (forall|i: int| 0 <= i < seqs.len() ==> #[trigger] seqs[i] is Some) ==> forall|i: int| 0 <= i < seqs.len()
            ==> seqs[spec_target_slot(seqs) as int]->0 <= (#[trigger] seqs[i])->0,
{
    let n = seqs.len();
    if exists|i: int| 0 <= i < n && #[trigger] seqs[i] is None {
        if first_empty(seqs, n) is None {
            lemma_first_empty_none(seqs, n);
        }
        lemma_first_empty_is_empty(seqs, n);
    }
    if forall|i: int| 0 <= i < n ==> #[trigger] seqs[i] is Some {
        if first_empty(seqs, n) is Some {
            lemma_first_empty_is_empty(seqs, n);
        }
        lemma_oldest_slot(seqs, n);
    }
}

/// The next sequence number is larger than every one the headers show,
/// unless one of them is the largest sequence number.
pub proof fn lemma_next_sequence_newer(seqs: Seq<Option<u64>>)
    requires
        forall|i: int| 0 <= i < seqs.len() && (#[trigger] seqs[i]) is Some ==> seqs[i]->0 < u64::MAX,
    ensures
        forall|i: int| 0 <= i < seqs.len() && (#[trigger] seqs[i]) is Some ==> seqs[i]->0 < spec_next_sequence(seqs),
{
    lemma_max_sequence_bound(seqs, seqs.len());
    lemma_max_attained(seqs, seqs.len());
}

/// Every slot among the first `n` whose header shows a record or frame
/// sequence number shows the same number to the slot scan.
pub open spec fn large_headers_agree(slots: Seq<Option<Seq<u8>>>, n: nat) -> bool {
    forall|i: int| 0 <= i < n && (#[trigger] large_sequences(slots, n)[i]) is Some
        ==> slot_sequences(scanned_headers(slots, n))[i] == large_sequences(slots, n)[i]
}

/// A range read right after a large save gives the saved data's bytes in
/// the range.
///
/// Over an exact backend whose first `n` slots show no header with the
/// largest sequence number, and whose record or frame headers show the
/// sequence numbers the slot scan sees, the record a large save writes (and
/// reads back, as `save_large` ensures) is the slot that answers a range
/// read, and it gives `serialized` cut to the range, when `serialized` does
/// not itself begin with a compression header (compression reversing, as
/// `save_large` ensures).
#[verifier::spinoff_prover]
pub proof fn lemma_range_read_after_save_large(
    slots: Seq<Option<Seq<u8>>>,
    n: nat,
    serialized: Seq<u8>,
    policy: CompressionPolicy,
    written: Seq<u8>,
    start: usize,
    end: usize,
)
    requires
        3 <= n <= slots.len(),
        below_last_sequence(slots, n),
        large_headers_agree(slots, n),
        spec_large_encoding(serialized, policy, spec_target(slots, n).0) == Some(written),
        record_reads_back(written, spec_maybe_compress(serialized, DataClass::Large, policy)->0),
        !spec_is_compressed(serialized),
        compression_reverses(serialized, DataClass::Large, policy),
        start <= end,
    ensures
        settling_slot(spec_after_save(slots, n, Some(written)), n, start, end) == Some(spec_target(slots, n).1 as int),
        spec_range_from_slot(written, start, end) == Ok::<Option<Seq<u8>>, Option<Error>>(
            Some(clamp_range(serialized, start, end))),
{
    let seqs = slot_sequences(scanned_headers(slots, n));
    let s = spec_next_sequence(seqs);
    let t = spec_target_slot(seqs) as int;
    lemma_target_in_range(seqs);
    lemma_next_sequence_newer(seqs);
    let after = spec_after_save(slots, n, Some(written));
    let p = spec_maybe_compress(serialized, DataClass::Large, policy)->0;
    let cnt = crate::healed::rs::spec_segment_count(p.len());
    let h = crate::healed::rs::RecordHeader { sequence: s, payload_len: p.len() as u64, segment_count: cnt as u32 };
    crate::healed::rs::lemma_record_header_roundtrip(h);
    let hb = crate::healed::rs::spec_record_header_bytes(h);
    assert(written == spec_encode_record(s, p));
    assert(written.subrange(0, 32) =~= hb);
    assert(prefix(written, 72).subrange(0, 32) =~= hb);
    assert(spec_peek_rs(prefix(written, 72)) == Some(s));
    let ls = large_sequences(slots, n);
    let la = large_sequences(after, n);
    assert(la[t] == Some(s));
    assert forall|j: int| 0 <= j < n && j != t implies #[trigger] la[j] == ls[j] by {
        assert(scanned_headers(after, n)[j] == scanned_headers(slots, n)[j]);
    }
    // The payload begins with a compression header exactly when compressed.
    assert(p.len() >= 14);
    let pre = clamp_range(p, 0, 14);
    assert(pre =~= p.subrange(0, 14));
    assert(pre.subrange(0, 4) =~= p.subrange(0, 4));
    assert(spec_is_compressed(pre) == spec_is_compressed(p));
    assert(spec_decode_range(written, 0, 14) == Ok::<Seq<u8>, RsError>(pre));
    assert(spec_decode_range(written, start, end) == Ok::<Seq<u8>, RsError>(clamp_range(p, start, end)));
    if spec_is_compressed(p) {
        assert(p != serialized);
        assert(spec_maybe_decompress(p) == Some(serialized));
    } else {
        assert(p == serialized);
    }
    assert(spec_range_from_slot(written, start, end) == Ok::<Option<Seq<u8>>, Option<Error>>(
        Some(clamp_range(serialized, start, end))));
    assert(after[t] == Some(written));
    assert(settles_range(after, n, start, end, t));
    assert forall|j: int| #[trigger] settles_range(after, n, start, end, j) && j != t
        implies newer_first(la, t, j) by {
        assert(la[j] == ls[j]);
        assert(seqs[j] == ls[j]);
    }
    assert(first_settling(after, n, start, end, t));
    let c = choose|c: int| first_settling(after, n, start, end, c);
    if c != t {
        assert(newer_first(la, c, t));
        assert(newer_first(la, t, c));
    }
}

/// Compressing `serialized` as `policy` says for `class` either fails or
/// gives bytes that decompress back to `serialized`.
pub open spec fn compression_reverses(serialized: Seq<u8>, class: DataClass, policy: CompressionPolicy) -> bool {
    spec_maybe_compress(serialized, class, policy) is Some
        ==> spec_maybe_decompress(spec_maybe_compress(serialized, class, policy)->0) == Some(serialized)
}

proof fn lemma_compress_not_longer(serialized: Seq<u8>, class: DataClass, policy: CompressionPolicy)
    ensures
        spec_maybe_compress(serialized, class, policy) is Some
            ==> spec_maybe_compress(serialized, class, policy)->0.len() <= serialized.len(),
{
    vstd::bytes::lemma_auto_spec_u64_to_from_le_bytes();
}

/// A small load right after a small save gives back the saved data.
///
/// Over an exact backend whose first `n` slots decode benignly, show in
/// their headers the sequence numbers they decode to and none of them the
/// largest one, the triple-redundant slot a small save writes becomes the
/// newest loadable slot, and a load (of small data or of any class)
/// returns the saved data when it does not itself begin with a compression
/// header (compression reversing, as `save_small` ensures).
pub proof fn lemma_load_small_after_save_small(
    slots: Seq<Option<Seq<u8>>>,
    n: nat,
    serialized: Seq<u8>,
    policy: CompressionPolicy,
    written: Seq<u8>,
)
    requires
        3 <= n <= slots.len(),
        decodes_benignly(slots, n),
        headers_truthful(slots, n),
        below_last_sequence(slots, n),
        spec_small_encoding(serialized, policy, spec_target(slots, n).0) == Some(written),
        !spec_is_compressed(serialized),
        compression_reverses(serialized, DataClass::Small, policy),
    ensures
        decodes_benignly(spec_after_save(slots, n, Some(written)), n),
        spec_loaded(spec_after_save(slots, n, Some(written)), n, Some(DataClass::Small)) == Some(serialized),
        spec_loaded(spec_after_save(slots, n, Some(written)), n, None) == Some(serialized),
{
    let seqs = slot_sequences(scanned_headers(slots, n));
    let s = spec_next_sequence(seqs);
    let t = spec_target_slot(seqs) as int;
    lemma_target_in_range(seqs);
    lemma_next_sequence_newer(seqs);
    let after = spec_after_save(slots, n, Some(written));
    let p = spec_maybe_compress(serialized, DataClass::Small, policy)->0;
    lemma_compress_not_longer(serialized, DataClass::Small, policy);
    crate::healed::tmr::lemma_tmr_roundtrip(s, p);
    reveal(spec_decode_slot);
    assert(spec_decode_slot(written) == Ok::<(u64, Seq<u8>, DataClass, SlotEncoding), Option<Error>>(
        (s, p, DataClass::Small, SlotEncoding::Tmr)));
    assert(slot_decoding(after, t) == Some(spec_decode_slot(written)));
    assert forall|i: int| 0 <= i < n implies match #[trigger] slot_decoding(after, i) {
        Some(Err(Some(e))) => spec_is_recoverable(e),
        Some(Err(None)) => false,
        _ => true,
    } by {
        if i != t {
            assert(slot_decoding(after, i) == slot_decoding(slots, i));
        }
    }
    assert forall|expected: Option<DataClass>| expected is None || expected == Some(DataClass::Small) implies
        spec_loaded(after, n, expected) == Some(serialized) by {
        assert(loadable(after, expected, t));
        assert forall|j: int| 0 <= j < n && #[trigger] loadable(after, expected, j) && j != t
            implies decoded_at(after, j).0 < decoded_at(after, t).0 by {
            assert(slot_decoding(after, j) == slot_decoding(slots, j));
            assert(loadable(slots, None, j));
            assert(seqs[j] == Some(decoded_at(slots, j).0));
        }
        assert(is_latest(after, n, expected, t));
        let c = choose|c: int| is_latest(after, n, expected, c);
        lemma_latest_unique(after, n, expected, c, t);
    }
    assert(spec_loaded(after, n, None) == Some(serialized));
    assert(spec_loaded(after, n, Some(DataClass::Small)) == Some(serialized));
}

/// A load right after a save gives back the saved data.
///
/// Over an exact backend whose first `n` slots decode benignly, show in
/// their headers the sequence numbers they decode to and none of them the
/// largest one, the generation a save writes becomes the newest loadable
/// slot and a load returns the saved data, provided the written bytes
/// decode by their own decoder to what was saved (as `save` ensures) and are
/// not taken for a TMR slot or, being a frame, for a record.
pub proof fn lemma_load_after_save(
    slots: Seq<Option<Seq<u8>>>,
    n: nat,
    serialized: Seq<u8>,
    level: ProtectionLevel,
    policy: CompressionPolicy,
    written: Seq<u8>,
)
    requires
        3 <= n <= slots.len(),
        decodes_benignly(slots, n),
        headers_truthful(slots, n),
        below_last_sequence(slots, n),
        spec_save_encoding(serialized, level, policy, spec_target(slots, n).0) == Some(written),
        own_roundtrip(written, spec_target(slots, n).0, serialized),
        spec_decode_tmr(written) is Err,
        spec_decode_record(written) is Ok ==> spec_decode_record(written)->Ok_0.0 == spec_target(slots, n).0
            && spec_maybe_decompress(spec_decode_record(written)->Ok_0.1) == Some(serialized),
    ensures
        decodes_benignly(spec_after_save(slots, n, Some(written)), n),
        spec_loaded(spec_after_save(slots, n, Some(written)), n, None) == Some(serialized),
{
    let headers = scanned_headers(slots, n);
    let seqs = slot_sequences(headers);
    let s = spec_next_sequence(seqs);
    let t = spec_target_slot(seqs) as int;
    lemma_target_in_range(seqs);
    lemma_next_sequence_newer(seqs);
    let after = spec_after_save(slots, n, Some(written));
    assert(after == slots.update(t, Some(written)));
    reveal(spec_decode_slot);
    let d = spec_decode_slot(written);
    assert(d is Ok && d->Ok_0.0 == s && spec_maybe_decompress(d->Ok_0.1) == Some(serialized));
    assert(slot_decoding(after, t) == Some(d));
    assert forall|j: int| 0 <= j < n && j != t implies #[trigger] slot_decoding(after, j) == slot_decoding(slots, j) by {}
    assert forall|i: int| 0 <= i < n implies match #[trigger] slot_decoding(after, i) {
        Some(Err(Some(e))) => spec_is_recoverable(e),
        Some(Err(None)) => false,
        _ => true,
    } by {
        if i != t {
            assert(slot_decoding(after, i) == slot_decoding(slots, i));
        }
    }
    assert(decodes_benignly(after, n));
    assert(loadable(after, None, t));
    assert forall|j: int| 0 <= j < n && #[trigger] loadable(after, None, j) && j != t
        implies decoded_at(after, j).0 < decoded_at(after, t).0 by {
        assert(slot_decoding(after, j) == slot_decoding(slots, j));
        assert(loadable(slots, None, j));
        assert(seqs[j] == Some(decoded_at(slots, j).0));
    }
    assert(is_latest(after, n, None, t));
    let c = choose|c: int| is_latest(after, n, None, c);
    lemma_latest_unique(after, n, None, c, t);
}

/// A scrub pass over the first `n` slots of an exact backend meets no
/// error: every slot decodes benignly, and what a slot decodes to can be
/// encoded again into slot bytes whose bit count fits in `usize`.
pub open spec fn scrubs_cleanly(slots: Seq<Option<Seq<u8>>>, n: nat) -> bool {
    &&& decodes_benignly(slots, n)
    &&& forall|i: int| 0 <= i < n && #[trigger] loadable(slots, None, i) ==> {
        let d = decoded_at(slots, i);
        &&& spec_encodable(d.1, d.3)
        &&& spec_encode_slot(d.0, d.1, d.3).len() * 8 <= usize::MAX
    }
}

/// Rolling-update storage of serialised data over `num_slots` slots of a
/// backend: each save writes a new generation over an empty or the oldest
/// slot, each load returns the newest generation that still decodes.
pub struct ReliableVault<B: StorageBackend> {
    backend: B,
    num_slots: usize,
    compression_policy: CompressionPolicy,
}

impl<B: StorageBackend> ReliableVault<B> {
    /// The vault rotates over at least three slots.
    pub closed spec fn wf(&self) -> bool {
        self.num_slots >= 3
    }

    /// What the backend's slots hold.
    pub closed spec fn slots(&self) -> Seq<Option<Seq<u8>>> {
        self.backend.stored()
    }

    /// Number of slots the vault rotates over.
    pub closed spec fn slot_count(&self) -> nat {
        self.num_slots as nat
    }

    /// The compression policy.
    pub closed spec fn policy(&self) -> CompressionPolicy {
        self.compression_policy
    }

    /// The backend's slots are modeled.
    pub closed spec fn modeled(&self) -> bool {
        self.backend.modeled()
    }

    /// The backend is modeled and exact.
    pub closed spec fn exact(&self) -> bool {
        self.backend.modeled() && self.backend.exact()
    }

    /// A vault over `num_slots` slots of `backend`, compressing by the
    /// default policy. Fewer than three slots are refused.
    pub fn new(backend: B, num_slots: usize) -> (r: Self)
        requires
            num_slots >= 3,
        ensures
            r.wf(),
            r.slots() == backend.stored(),
            r.modeled() == backend.modeled(),
            r.exact() == (backend.modeled() && backend.exact()),
            r.slot_count() == num_slots,
            r.policy() == (CompressionPolicy { small_enabled: true, large_enabled: true }),
    {
        ReliableVault { backend, num_slots, compression_policy: CompressionPolicy::enabled() }
    }

    /// The vault with another compression policy.
    pub fn with_compression_policy(self, compression_policy: CompressionPolicy) -> (r: Self)
        requires
            self.wf(),
        ensures
            r.wf(),
            r.slots() == self.slots(),
            r.modeled() == self.modeled(),
            r.exact() == self.exact(),
            r.slot_count() == self.slot_count(),
            r.policy() == compression_policy,
    {
        ReliableVault { backend: self.backend, num_slots: self.num_slots, compression_policy }
    }

    /// The compression policy.
    pub fn compression_policy(&self) -> (r: CompressionPolicy)
        ensures
            r == self.policy(),
    {
        self.compression_policy
    }

    /// The backend.
    pub fn backend(&self) -> (r: &B)
        ensures
            r.stored() == self.slots(),
            r.modeled() == self.modeled(),
            (r.modeled() && r.exact()) == self.exact(),
    {
        &self.backend
    }

    /// The backend, giving up the vault.
    pub fn into_backend(self) -> (r: B)
        ensures
            r.stored() == self.slots(),
            r.modeled() == self.modeled(),
            (r.modeled() && r.exact()) == self.exact(),
    {
        self.backend
    }

    /// Reads the first `SLOT_SCAN_BYTES` bytes of the slots in order,
    /// stopping after the first read that fails with an error that is not
    /// recoverable.
    fn read_header_results(&self) -> (r: Vec<Result<Vec<u8>, Error>>)
        requires
            self.wf(),
        ensures
            1 <= r@.len() <= self.slot_count(),
            forall|j: int| 0 <= j < r@.len() - 1 ==> !read_is_fatal(#[trigger] r@[j]),
            r@.len() < self.slot_count() ==> read_is_fatal(r@[r@.len() - 1]),
            self.modeled() ==> read_some_of(headers_of_reads(r@),
                scanned_headers(self.slots(), self.slot_count()).subrange(0, r@.len() as int)),
            self.exact() ==> r@.len() == self.slot_count()
                && headers_of_reads(r@) == scanned_headers(self.slots(), self.slot_count()),
            self.exact() ==> forall|j: int| 0 <= j < r@.len() ==> !read_is_fatal(#[trigger] r@[j]),
    {
        let n = self.num_slots;
        let ghost all = scanned_headers(self.slots(), n as nat);
        let mut reads: Vec<Result<Vec<u8>, Error>> = Vec::with_capacity(n);
        let mut stop = false;
        let mut i: usize = 0;
        while i < n && !stop
            invariant
                0 <= i <= n,
                n == self.num_slots,
                n >= 3,
                all == scanned_headers(self.slots(), n as nat),
                reads@.len() == i,
                stop ==> i >= 1 && read_is_fatal(reads@[i - 1]),
                forall|j: int| 0 <= j < i - 1 ==> !read_is_fatal(#[trigger] reads@[j]),
                !stop ==> forall|j: int| 0 <= j < i ==> !read_is_fatal(#[trigger] reads@[j]),
                forall|j: int| 0 <= j < i ==> match #[trigger] reads@[j] {
                    Ok(v) => self.modeled() ==> all[j] == Some(v@),
                    Err(e) => self.exact() ==> all[j] is None && spec_is_recoverable(e),
                },
            decreases n - i,
        {
            let rd = self.backend.read_header(i, SLOT_SCAN_BYTES);
            let fatal = match &rd {
                Ok(_) => false,
                Err(e) => !e.is_recoverable(),
            };
            reads.push(rd);
            i += 1;
            if fatal {
                stop = true;
            }
        }
        let ghost seen = headers_of_reads(reads@);
        proof {
            if self.modeled() {
                let part = all.subrange(0, reads@.len() as int);
                assert forall|j: int| 0 <= j < seen.len() implies (#[trigger] seen[j]) is None || seen[j] == part[j] by {
                    assert(match reads@[j] { Ok(v) => self.modeled() ==> all[j] == Some(v@),
                        Err(e) => self.exact() ==> all[j] is None && spec_is_recoverable(e) });
                }
                assert(read_some_of(seen, part));
            }
            if self.exact() {
                assert forall|j: int| 0 <= j < reads@.len() implies !read_is_fatal(#[trigger] reads@[j]) by {
                    assert(match reads@[j] { Ok(v) => self.modeled() ==> all[j] == Some(v@),
                        Err(e) => self.exact() ==> all[j] is None && spec_is_recoverable(e) });
                }
                assert(!stop);
                assert forall|j: int| 0 <= j < seen.len() implies seen[j] == all[j] by {
                    assert(match reads@[j] { Ok(v) => self.modeled() ==> all[j] == Some(v@),
                        Err(e) => self.exact() ==> all[j] is None && spec_is_recoverable(e) });
                }
                assert(seen =~= all);
            }
        }
        reads
    }

    /// Reads the first `SLOT_SCAN_BYTES` bytes of every slot; a slot that
    /// cannot be read with a recoverable error gives `None`, any other error
    /// is returned.
    fn read_headers(&self) -> (r: Result<Vec<Option<Vec<u8>>>, Error>)
        requires
            self.wf(),
        ensures
            r matches Ok(h) ==> h@.len() == self.slot_count(),
            self.modeled() ==> (r matches Ok(h) ==> read_some_of(opt_bytes_view(h@), scanned_headers(self.slots(), self.slot_count()))),
            self.exact() ==> (r matches Ok(h) && opt_bytes_view(h@) == scanned_headers(self.slots(), self.slot_count())),
    {
        let reads = self.read_header_results();
        let ghost rs = reads@;
        let r = headers_from_reads(reads);
        proof {
            if let Ok(h) = &r {
                assert(opt_bytes_view(h@).len() == h@.len());
            }
            if r is Ok {
                if rs.len() < self.slot_count() {
                    assert(read_is_fatal(rs[rs.len() - 1]));
                }
                assert(rs.len() == self.slot_count());
                assert(scanned_headers(self.slots(), self.slot_count()).subrange(0, rs.len() as int)
                    =~= scanned_headers(self.slots(), self.slot_count()));
            }

        }
        r
    }

    /// Reads the headers of all slots and chooses the sequence number and
    /// the slot of the next generation; a slot whose header cannot be read
    /// with a recoverable error counts as empty, the first other error is
    /// returned.
    fn next_generation_target(&self) -> (r: Result<(u64, usize), Error>)
        requires
            self.wf(),
        ensures
            r matches Ok((s, t)) ==> t < self.slot_count(),
            self.modeled() ==> (r matches Ok((s, t)) ==> exists|h: Seq<Option<Seq<u8>>>|
                read_some_of(h, scanned_headers(self.slots(), self.slot_count()))
                && spec_generation_target(h) == (s, t as nat)),
            self.exact() ==> (r matches Ok((s, t)) && s == spec_target(self.slots(), self.slot_count()).0
                && t as nat == spec_target(self.slots(), self.slot_count()).1),
    {
        let reads = self.read_header_results();
        let ghost rs = reads@;
        let r = generation_target_from_reads(reads);
        proof {
            let all = scanned_headers(self.slots(), self.slot_count());
            if r is Ok {
                if rs.len() < self.slot_count() {
                    assert(read_is_fatal(rs[rs.len() - 1]));
                }
                assert(rs.len() == self.slot_count());
                assert(all.subrange(0, rs.len() as int) =~= all);
                assert(self.modeled() ==> read_some_of(headers_of_reads(rs), all));
            }

        }
        r
    }

    /// The slots whose headers carry a record or frame sequence number,
    /// newest first.
    fn large_slot_indexes_desc(&self) -> (r: Result<Vec<usize>, Error>)
        requires
            self.wf(),
        ensures
            r matches Ok(order) ==> forall|k: int| 0 <= k < order@.len() ==> #[trigger] order@[k] < self.slot_count(),
            self.exact() ==> (r matches Ok(order) && large_order(order@, self.slots(), self.slot_count())),
    {
        let headers = match self.read_headers() {
            Ok(h) => h,
            Err(e) => return Err(e),
        };
        let order = large_slot_order(headers.as_slice());
        proof {
            if self.exact() {
                assert(Seq::new(headers@.len(), |i: int| spec_large_sequence(opt_bytes_view(headers@)[i]))
                    =~= large_sequences(self.slots(), self.slot_count()));
            }
        }
        Ok(order)
    }

    /// Reads and decodes every slot and picks the latest one of the
    /// expected class; slots that cannot be read or decoded with a
    /// recoverable error are passed over, any other error is returned.
    fn latest_slot(&self, expected: Option<DataClass>) -> (r: Result<SlotPayload, Error>)
        requires
            self.wf(),
        ensures
            self.modeled() ==> (r matches Ok(slot) ==> exists|k: int| 0 <= k < self.slot_count() && loadable(self.slots(), expected, k)
                && decoded_at(self.slots(), k) == (slot.sequence, slot.payload@, slot.data_class, slot.encoding)),
            self.exact() && decodes_benignly(self.slots(), self.slot_count()) ==> match r {
                Ok(slot) => exists|k: int| is_latest(self.slots(), self.slot_count(), expected, k)
                    && decoded_at(self.slots(), k) == (slot.sequence, slot.payload@, slot.data_class, slot.encoding),
                Err(e) => (forall|k: int| 0 <= k < self.slot_count() ==> !loadable(self.slots(), expected, k))
                    && (e matches Error::Io(x) && spec_io_error_kind(x) == IoErrorKind::NotFound),
            },
    {
        let n = self.num_slots;
        let ghost slots = self.slots();
        let ghost benign = self.exact() && decodes_benignly(slots, n as nat);
        let mut decoded: Vec<Option<SlotPayload>> = Vec::with_capacity(n);
        let mut i: usize = 0;
        while i < n
            invariant
                0 <= i <= n,
                n == self.num_slots,
                slots == self.slots(),
                benign == (self.exact() && decodes_benignly(slots, n as nat)),
                decoded@.len() == i,
                forall|j: int| 0 <= j < i ==> match #[trigger] decoded@[j] {
                    Some(sp) => self.modeled() ==> slot_decoding(slots, j) == Some(Ok::<(u64, Seq<u8>, DataClass, SlotEncoding), Option<Error>>(
                        (sp.sequence, sp.payload@, sp.data_class, sp.encoding))),
                    None => benign ==> !(slot_decoding(slots, j) is Some && slot_decoding(slots, j)->0 is Ok),
                },
            decreases n - i,
        {
            let bytes = match self.backend.read_slot(i) {
                Ok(b) => b,
                Err(e) => {
                    if e.is_recoverable() {
                        decoded.push(None);
                        i += 1;
                        continue;
                    }
                    return Err(e);
                },
            };
            match decode_slot_payload(bytes.as_slice()) {
                Ok(slot) => {
                    decoded.push(Some(slot));
                },
                Err(e) => {
                    if e.is_recoverable() {
                        proof {
                            if benign {
                                assert(match slot_decoding(slots, i as int) {
                                    Some(Err(Some(e))) => spec_is_recoverable(e),
                                    Some(Err(None)) => false,
                                    _ => true,
                                });
                            }
                        }
                        decoded.push(None);
                    } else {
                        return Err(e);
                    }
                },
            }
            i += 1;
        }
        proof {
            assert forall|j: int| 0 <= j < n implies
                (self.modeled() && is_candidate(decoded@, expected, j) ==> loadable(slots, expected, j)
                    && (decoded@[j])->0.sequence == decoded_at(slots, j).0)
                && (benign && loadable(slots, expected, j) ==> is_candidate(decoded@, expected, j)) by {
                assert(match decoded@[j] {
                    Some(sp) => self.modeled() ==> slot_decoding(slots, j) == Some(Ok::<(u64, Seq<u8>, DataClass, SlotEncoding), Option<Error>>(
                        (sp.sequence, sp.payload@, sp.data_class, sp.encoding))),
                    None => benign ==> !(slot_decoding(slots, j) is Some && slot_decoding(slots, j)->0 is Ok),
                });
            }
        }
        match select_latest(decoded.as_slice(), expected) {
            Some(k) => {
                let ghost before = decoded@;
                let chosen = decoded.remove(k);
                assert(chosen == before[k as int]);
                match chosen {
                    Some(slot) => {
                        proof {
                            assert(is_candidate(before, expected, k as int));
                            assert(match before[k as int] {
                                Some(sp) => self.modeled() ==> slot_decoding(slots, k as int) == Some(Ok::<(u64, Seq<u8>, DataClass, SlotEncoding), Option<Error>>(
                                    (sp.sequence, sp.payload@, sp.data_class, sp.encoding))),
                                None => benign ==> !(slot_decoding(slots, k as int) is Some && slot_decoding(slots, k as int)->0 is Ok),
                            });
                            if self.modeled() {
                                assert(loadable(slots, expected, k as int));
                            }
                            if benign {
                                assert forall|j: int| 0 <= j < n && #[trigger] loadable(slots, expected, j) implies
                                    decoded_at(slots, j).0 <= decoded_at(slots, k as int).0 by {
                                    assert(is_candidate(before, expected, j));
                                }
                                assert forall|j: int| 0 <= j < k && #[trigger] loadable(slots, expected, j) implies
                                    decoded_at(slots, j).0 < decoded_at(slots, k as int).0 by {
                                    assert(is_candidate(before, expected, j));
                                }
                                assert(is_latest(slots, n as nat, expected, k as int));
                            }
                        }
                        Ok(slot)
                    },
                    None => {
                        assert(false);
                        Err(Error::Io(not_found_error("No valid data slots found")))
                    },
                }
            },
            None => {
                proof {
                    if benign {
                        assert forall|k: int| 0 <= k < n implies !loadable(slots, expected, k) by {
                            if loadable(slots, expected, k) {
                                assert(is_candidate(decoded@, expected, k));
                            }
                        }
                    }
                }
                Err(Error::Io(not_found_error("No valid data slots found")))
            },
        }
    }

    /// The decompressed payload of the latest slot of the expected class.
    fn load_class(&self, expected: Option<DataClass>) -> (r: Result<Vec<u8>, Error>)
        requires
            self.wf(),
        ensures
            self.modeled() ==> (r matches Ok(v) ==> exists|k: int| 0 <= k < self.slot_count() && loadable(self.slots(), expected, k)
                && spec_maybe_decompress(decoded_at(self.slots(), k).1) == Some(v@)),
            self.exact() && decodes_benignly(self.slots(), self.slot_count()) ==> match spec_loaded(self.slots(), self.slot_count(), expected) {
                Some(d) => r matches Ok(v) && v@ == d,
                None => r is Err,
            },
            self.exact() && decodes_benignly(self.slots(), self.slot_count())
                && latest_index(self.slots(), self.slot_count(), expected) is None
                ==> (r matches Err(Error::Io(x)) && spec_io_error_kind(x) == IoErrorKind::NotFound),
    {
        let latest = match self.latest_slot(expected) {
            Ok(slot) => slot,
            Err(e) => {
                proof {
                    if self.exact() && decodes_benignly(self.slots(), self.slot_count()) {
                        if exists|k: int| is_latest(self.slots(), self.slot_count(), expected, k) {
                            let k = choose|k: int| is_latest(self.slots(), self.slot_count(), expected, k);
                            assert(loadable(self.slots(), expected, k));
                        }
                    }
                }
                return Err(e);
            },
        };
        proof {
            if self.exact() && decodes_benignly(self.slots(), self.slot_count()) {
                let k = choose|k: int| is_latest(self.slots(), self.slot_count(), expected, k)
                    && decoded_at(self.slots(), k) == (latest.sequence, latest.payload@, latest.data_class, latest.encoding);
                let c = choose|c: int| is_latest(self.slots(), self.slot_count(), expected, c);
                lemma_latest_unique(self.slots(), self.slot_count(), expected, k, c);
            }
        }
        maybe_decompress_payload(latest.payload.as_slice())
    }

    /// The newest generation that decodes, whatever its class.
    pub fn load(&self) -> (r: Result<Vec<u8>, Error>)
        requires
            self.wf(),
        ensures
            self.modeled() ==> (r matches Ok(v) ==> exists|k: int| 0 <= k < self.slot_count() && loadable(self.slots(), None, k)
                && spec_maybe_decompress(decoded_at(self.slots(), k).1) == Some(v@)),
            self.exact() && decodes_benignly(self.slots(), self.slot_count()) ==> match spec_loaded(self.slots(), self.slot_count(), None) {
                Some(d) => r matches Ok(v) && v@ == d,
                None => r is Err,
            },
            self.exact() && decodes_benignly(self.slots(), self.slot_count())
                && latest_index(self.slots(), self.slot_count(), None) is None
                ==> (r matches Err(Error::Io(x)) && spec_io_error_kind(x) == IoErrorKind::NotFound),
    {
        self.load_class(None)
    }

    /// The newest small-data generation that decodes.
    pub fn load_small(&self) -> (r: Result<Vec<u8>, Error>)
        requires
            self.wf(),
        ensures
            self.modeled() ==> (r matches Ok(v) ==> exists|k: int| 0 <= k < self.slot_count() && loadable(self.slots(), Some(DataClass::Small), k)
                && spec_maybe_decompress(decoded_at(self.slots(), k).1) == Some(v@)),
            self.exact() && decodes_benignly(self.slots(), self.slot_count())
                ==> match spec_loaded(self.slots(), self.slot_count(), Some(DataClass::Small)) {
                Some(d) => r matches Ok(v) && v@ == d,
                None => r is Err,
            },
            self.exact() && decodes_benignly(self.slots(), self.slot_count())
                && latest_index(self.slots(), self.slot_count(), Some(DataClass::Small)) is None
                ==> (r matches Err(Error::Io(x)) && spec_io_error_kind(x) == IoErrorKind::NotFound),
    {
        self.load_class(Some(DataClass::Small))
    }

    /// The newest large-data generation that decodes.
    pub fn load_large(&self) -> (r: Result<Vec<u8>, Error>)
        requires
            self.wf(),
        ensures
            self.modeled() ==> (r matches Ok(v) ==> exists|k: int| 0 <= k < self.slot_count() && loadable(self.slots(), Some(DataClass::Large), k)
                && spec_maybe_decompress(decoded_at(self.slots(), k).1) == Some(v@)),
            self.exact() && decodes_benignly(self.slots(), self.slot_count())
                ==> match spec_loaded(self.slots(), self.slot_count(), Some(DataClass::Large)) {
                Some(d) => r matches Ok(v) && v@ == d,
                None => r is Err,
            },
            self.exact() && decodes_benignly(self.slots(), self.slot_count())
                && latest_index(self.slots(), self.slot_count(), Some(DataClass::Large)) is None
                ==> (r matches Err(Error::Io(x)) && spec_io_error_kind(x) == IoErrorKind::NotFound),
    {
        self.load_class(Some(DataClass::Large))
    }

    /// Writes encoded slot bytes to the target slot; bytes whose bit count
    /// does not fit in `usize` are refused.
    fn write_generation(&mut self, target: usize, bytes: &[u8]) -> (r: Result<(), Error>)
        requires
            target < old(self).slot_count(),
        ensures
            final(self).wf() == old(self).wf(),
            final(self).slot_count() == old(self).slot_count(),
            final(self).policy() == old(self).policy(),
            final(self).exact() == old(self).exact(),
            final(self).slots().len() == old(self).slots().len(),
            forall|j: int| 0 <= j < old(self).slots().len() && j != target
                ==> #[trigger] final(self).slots()[j] == old(self).slots()[j],
            bytes@.len() * 8 > usize::MAX ==> r is Err && final(self).slots() == old(self).slots(),
            old(self).exact() && target < old(self).slots().len() && bytes@.len() * 8 <= usize::MAX
                ==> r is Ok && final(self).slots() == old(self).slots().update(target as int, Some(bytes@)),
    {
        if bytes.len() > usize::MAX / 8 {
            return Err(Error::Io(slot_too_large_error(bytes.len())));
        }
        self.backend.write_slot(target, bytes)
    }

    /// Saves serialised data as the next generation: a Reed-Solomon record
    /// for large data, a frame at `level` for small data, compressed as the
    /// policy says. The slot of the oldest generation (or an empty one) is
    /// overwritten.
    pub fn save(&mut self, serialized: &[u8], level: ProtectionLevel) -> (r: Result<(), Error>)
        requires
            old(self).wf(),
            serialized@.len() <= usize::MAX / 4,
        ensures
            final(self).wf(),
            final(self).slot_count() == old(self).slot_count(),
            final(self).policy() == old(self).policy(),
            final(self).exact() == old(self).exact(),
            final(self).slots().len() == old(self).slots().len(),
            forall|j: int| old(self).slot_count() <= j < old(self).slots().len()
                ==> #[trigger] final(self).slots()[j] == old(self).slots()[j],
            old(self).exact() && old(self).slot_count() <= old(self).slots().len() ==> match spec_save_encoding(
                serialized@, level, old(self).policy(), spec_target(old(self).slots(), old(self).slot_count()).0) {
                Some(b) => b.len() * 8 <= usize::MAX ==> r is Ok
                    && final(self).slots() == spec_after_save(old(self).slots(), old(self).slot_count(), Some(b)),
                None => r is Err && final(self).slots() == old(self).slots(),
            },
            old(self).exact() && !spec_is_compressed(serialized@) ==> (spec_save_encoding(serialized@, level, old(self).policy(),
                spec_target(old(self).slots(), old(self).slot_count()).0) matches Some(b)
                ==> own_roundtrip(b, spec_target(old(self).slots(), old(self).slot_count()).0, serialized@)),
    {
        match self.backend.ensure_backend_exists() {
            Ok(()) => {},
            Err(e) => return Err(e),
        }
        let (sequence, target) = match self.next_generation_target() {
            Ok(x) => x,
            Err(e) => return Err(e),
        };
        let ghost before = self.slots();
        let ghost n = self.slot_count();
        proof {
            if self.exact() {
                assert(sequence == spec_target(before, n).0);
                assert(target as nat == spec_target(before, n).1);
            }
        }
        let bytes = match encode_save_slot(serialized, level, self.compression_policy, sequence) {
            Ok(b) => b,
            Err(e) => return Err(e),
        };
        proof {
            if self.exact() {
                assert(spec_save_encoding(serialized@, level, self.policy(), sequence) == Some(bytes@));
            }
        }
        self.write_generation(target, bytes.as_slice())
    }

    /// Saves small serialised data (below the threshold) as the next
    /// generation with triple modular redundancy; larger data is refused
    /// with an `InvalidInput` error.
    pub fn save_small(&mut self, serialized: &[u8]) -> (r: Result<(), Error>)
        requires
            old(self).wf(),
            serialized@.len() <= usize::MAX / 4,
        ensures
            final(self).wf(),
            final(self).slot_count() == old(self).slot_count(),
            final(self).policy() == old(self).policy(),
            final(self).exact() == old(self).exact(),
            final(self).slots().len() == old(self).slots().len(),
            forall|j: int| old(self).slot_count() <= j < old(self).slots().len()
                ==> #[trigger] final(self).slots()[j] == old(self).slots()[j],
            serialized@.len() >= 4096 ==> (r matches Err(Error::Io(x)) && spec_io_error_kind(x) == IoErrorKind::InvalidInput)
                || (!old(self).exact() && r is Err),
            serialized@.len() >= 4096 ==> final(self).slots() == old(self).slots(),
            old(self).exact() && old(self).slot_count() <= old(self).slots().len() ==> match spec_small_encoding(
                serialized@, old(self).policy(), spec_target(old(self).slots(), old(self).slot_count()).0) {
                Some(b) => r is Ok && final(self).slots() == spec_after_save(old(self).slots(), old(self).slot_count(), Some(b)),
                None => r is Err && final(self).slots() == old(self).slots(),
            },
            old(self).exact() && serialized@.len() < 4096 && !spec_is_compressed(serialized@)
                ==> compression_reverses(serialized@, DataClass::Small, old(self).policy()),
    {
        match self.backend.ensure_backend_exists() {
            Ok(()) => {},
            Err(e) => return Err(e),
        }
        if serialized.len() >= SMALL_DATA_THRESHOLD_BYTES {
            return Err(Error::Io(oversize_error(serialized.len(), SMALL_DATA_THRESHOLD_BYTES)));
        }
        let payload = match maybe_compress_payload(serialized, DataClass::Small, self.compression_policy) {
            Ok(p) => p,
            Err(e) => return Err(e),
        };
        let (sequence, target) = match self.next_generation_target() {
            Ok(x) => x,
            Err(e) => return Err(e),
        };
        let bytes = match TmrStrategy::encode_tmr(sequence, payload.as_slice()) {
            Ok(v) => v,
            Err(e) => return Err(Error::Tmr(e)),
        };
        proof {
            vstd::bytes::lemma_auto_spec_u64_to_from_le_bytes();
            vstd::bytes::lemma_auto_spec_u32_to_from_le_bytes();
            assert(bytes@.len() == 72 + 3 * payload@.len());
        }
        self.write_generation(target, bytes.as_slice())
    }

    /// Saves large serialised data (at or above the threshold) as the next
    /// generation in a Reed-Solomon record; smaller data is refused with an
    /// `InvalidInput` error.
    pub fn save_large(&mut self, serialized: &[u8]) -> (r: Result<(), Error>)
        requires
            old(self).wf(),
        ensures
            final(self).wf(),
            final(self).slot_count() == old(self).slot_count(),
            final(self).policy() == old(self).policy(),
            final(self).exact() == old(self).exact(),
            final(self).slots().len() == old(self).slots().len(),
            forall|j: int| old(self).slot_count() <= j < old(self).slots().len()
                ==> #[trigger] final(self).slots()[j] == old(self).slots()[j],
            serialized@.len() < 4096 ==> (r matches Err(Error::Io(x)) && spec_io_error_kind(x) == IoErrorKind::InvalidInput)
                || (!old(self).exact() && r is Err),
            serialized@.len() < 4096 ==> final(self).slots() == old(self).slots(),
            old(self).exact() && old(self).slot_count() <= old(self).slots().len() ==> match spec_large_encoding(
                serialized@, old(self).policy(), spec_target(old(self).slots(), old(self).slot_count()).0) {
                Some(b) => b.len() * 8 <= usize::MAX ==> r is Ok
                    && final(self).slots() == spec_after_save(old(self).slots(), old(self).slot_count(), Some(b)),
                None => r is Err && final(self).slots() == old(self).slots(),
            },
            old(self).exact() && r is Ok ==> (spec_large_encoding(serialized@, old(self).policy(),
                spec_target(old(self).slots(), old(self).slot_count()).0) matches Some(b)
                && record_reads_back(b, spec_maybe_compress(serialized@, DataClass::Large, old(self).policy())->0)),
    {
        match self.backend.ensure_backend_exists() {
            Ok(()) => {},
            Err(e) => return Err(e),
        }
        if serialized.len() < SMALL_DATA_THRESHOLD_BYTES {
            return Err(Error::Io(undersize_error(serialized.len(), SMALL_DATA_THRESHOLD_BYTES)));
        }
        let payload = match maybe_compress_payload(serialized, DataClass::Large, self.compression_policy) {
            Ok(p) => p,
            Err(e) => return Err(e),
        };
        let (sequence, target) = match self.next_generation_target() {
            Ok(x) => x,
            Err(e) => return Err(e),
        };
        let bytes = match RsStrategy::encode_record(sequence, payload.as_slice()) {
            Ok(v) => v,
            Err(e) => return Err(Error::Rs(e)),
        };
        self.write_generation(target, bytes.as_slice())
    }

    /// The bytes `range` of the newest large-data payload: a record read
    /// over the range only when its payload is not compressed, else the
    /// whole payload decompressed and cut to the range (cut at its end).
    /// A slot that cannot be read or does not hold the range with a
    /// recoverable error sends the read on to the next newest slot.
    #[verifier::spinoff_prover]
    #[verifier::rlimit(50)]
    pub fn load_large_range(&self, range: Range<usize>) -> (r: Result<Vec<u8>, Error>)
        requires
            self.wf(),
        ensures
            range.start > range.end ==> (r matches Err(Error::Io(x)) && spec_io_error_kind(x) == IoErrorKind::InvalidInput),
            self.modeled() ==> (r matches Ok(v) ==> exists|k: int| 0 <= k < self.slot_count() && k < self.slots().len()
                && self.slots()[k] is Some
                && spec_range_from_slot(self.slots()[k]->0, range.start, range.end) == Ok::<Option<Seq<u8>>, Option<Error>>(Some(v@))),
            self.exact() && range.start <= range.end ==> match settling_slot(self.slots(), self.slot_count(), range.start, range.end) {
                Some(k) => match spec_range_from_slot(self.slots()[k]->0, range.start, range.end) {
                    Ok(Some(p)) => r matches Ok(v) && v@ == p,
                    Err(Some(e)) => r matches Err(x) && x == e,
                    _ => r matches Err(Error::Io(_)),
                },
                None => r matches Err(Error::Io(x)) && spec_io_error_kind(x) == IoErrorKind::NotFound,
            },
    {
        let start = range.start;
        let end = range.end;
        if start > end {
            return Err(Error::Io(invalid_range_error(start, end)));
        }
        let ghost slots = self.slots();
        let ghost n = self.slot_count();
        let order = match self.large_slot_indexes_desc() {
            Ok(o) => o,
            Err(e) => return Err(e),
        };
        let mut m: usize = 0;
        while m < order.len()
            invariant
                0 <= m <= order@.len(),
                slots == self.slots(),
                n == self.slot_count(),
                start <= end,
                start == range.start,
                end == range.end,
                forall|k: int| 0 <= k < order@.len() ==> #[trigger] order@[k] < n,
                self.exact() ==> large_order(order@, slots, n),
                self.exact() ==> forall|p: int| 0 <= p < m ==> !settles_range(slots, n, start, end, #[trigger] order@[p] as int),
            decreases order@.len() - m,
        {
            let index = order[m];
            proof {
                if self.exact() {
                    assert(large_sequences(slots, n)[index as int] is Some);
                    assert(scanned_headers(slots, n)[index as int] is Some);
                }
            }
            let bytes = match self.backend.read_slot(index) {
                Ok(b) => b,
                Err(e) => {
                    if e.is_recoverable() {
                        m += 1;
                        continue;
                    }
                    return Err(e);
                },
            };
            match range_from_slot(bytes.as_slice(), start, end) {
                Ok(Some(v)) => {
                    proof {
                        if self.exact() {
                            assert(settles_range(slots, n, start, end, order@[m as int] as int));
                            self.lemma_first_settling(order@, m as int, start, end);
                        }
                    }
                    return Ok(v);
                },
                Ok(None) => {},
                Err(e) => {
                    proof {
                        if self.exact() {
                            assert(settles_range(slots, n, start, end, order@[m as int] as int));
                            self.lemma_first_settling(order@, m as int, start, end);
                        }
                    }
                    return Err(e);
                },
            }
            m += 1;
        }
        proof {
            if self.exact() {
                if exists|k: int| first_settling(slots, n, start, end, k) {
                    let k = choose|k: int| first_settling(slots, n, start, end, k);
                    assert(order@.contains(k as usize));
                    let p = choose|p: int| 0 <= p < order@.len() && order@[p] == k as usize;
                    assert(!settles_range(slots, n, start, end, order@[p] as int));
                }
            }
        }
        Err(Error::Io(not_found_error("No valid large-data slots found")))
    }

    /// When the reads before position `m` of `order` all went on to the next
    /// slot and the slot at `m` settles the read, it is the first settling
    /// slot.
    proof fn lemma_first_settling(&self, order: Seq<usize>, m: int, start: usize, end: usize)
        requires
            self.exact(),
            0 <= m < order.len(),
            large_order(order, self.slots(), self.slot_count()),
            forall|p: int| 0 <= p < m ==> !settles_range(self.slots(), self.slot_count(), start, end, #[trigger] order[p] as int),
            settles_range(self.slots(), self.slot_count(), start, end, order[m] as int),
        ensures
            settling_slot(self.slots(), self.slot_count(), start, end) == Some(order[m] as int),
    {
        let slots = self.slots();
        let n = self.slot_count();
        let k = order[m] as int;
        assert forall|j: int| #[trigger] settles_range(slots, n, start, end, j) && j != k implies
            newer_first(large_sequences(slots, n), k, j) by {
            assert(order.contains(j as usize));
            let p = choose|p: int| 0 <= p < order.len() && order[p] == j as usize;
            if p < m {
                assert(!settles_range(slots, n, start, end, order[p] as int));
            } else {
                assert(p != m);
                assert(newer_first(large_sequences(slots, n), order[m] as int, order[p] as int));
            }
        }
        assert(first_settling(slots, n, start, end, k));
        let c = choose|c: int| first_settling(slots, n, start, end, c);
        if c != k {
            assert(newer_first(large_sequences(slots, n), k, c));
            assert(newer_first(large_sequences(slots, n), c, k));
        }
    }

    /// One scrub pass with no limit on repairs.
    pub fn scrub(&mut self) -> (r: Result<ScrubReport, Error>)
        requires
            old(self).wf(),
        ensures
            final(self).wf(),
            final(self).slot_count() == old(self).slot_count(),
            final(self).policy() == old(self).policy(),
            final(self).exact() == old(self).exact(),
            final(self).slots().len() == old(self).slots().len(),
            forall|j: int| old(self).slot_count() <= j < old(self).slots().len()
                ==> #[trigger] final(self).slots()[j] == old(self).slots()[j],
            old(self).exact() ==> forall|j: int| 0 <= j < old(self).slots().len()
                ==> scrub_keeps(old(self).slots()[j], #[trigger] final(self).slots()[j]),
            r matches Ok(rep) ==> rep.scanned_slots == old(self).slot_count()
                && rep.healthy_slots + rep.repaired_slots + rep.recoverable_error_slots + rep.budget_skipped_slots
                    == old(self).slot_count()
                && rep.budget_skipped_slots == 0,
            old(self).exact() && r is Ok ==> final(self).slots()
                == scrubbed(old(self).slots(), old(self).slot_count(), usize::MAX as nat),
            old(self).exact() ==> (r matches Ok(rep) ==>
                rep.healthy_slots == healthy_among(old(self).slots(), old(self).slot_count())
                && rep.repaired_slots == repairs_among(old(self).slots(), old(self).slot_count())),
            old(self).exact() && scrubs_cleanly(old(self).slots(), old(self).slot_count()) ==> r is Ok,
    {
        proof {
            lemma_counts_bounded_by(self.slots(), self.slot_count());
            assert(self.slot_count() <= usize::MAX);
        }
        self.scrub_with_budget(usize::MAX)
    }

    /// One scrub pass: every slot is read and decoded, and a slot whose
    /// bytes differ from the encoding of its content is rewritten, at most
    /// `max_repair_writes` of them (the others are counted as skipped).
    /// Slots that cannot be read or decoded with a recoverable error are
    /// counted; any other error ends the pass.
    pub fn scrub_with_budget(&mut self, max_repair_writes: usize) -> (r: Result<ScrubReport, Error>)
        requires
            old(self).wf(),
        ensures
            final(self).wf(),
            final(self).slot_count() == old(self).slot_count(),
            final(self).policy() == old(self).policy(),
            final(self).exact() == old(self).exact(),
            final(self).slots().len() == old(self).slots().len(),
            forall|j: int| old(self).slot_count() <= j < old(self).slots().len()
                ==> #[trigger] final(self).slots()[j] == old(self).slots()[j],
            old(self).exact() ==> forall|j: int| 0 <= j < old(self).slots().len()
                ==> scrub_keeps(old(self).slots()[j], #[trigger] final(self).slots()[j]),
            r matches Ok(rep) ==> rep.scanned_slots == old(self).slot_count()
                && rep.healthy_slots + rep.repaired_slots + rep.recoverable_error_slots + rep.budget_skipped_slots
                    == old(self).slot_count()
                && rep.repaired_slots <= max_repair_writes
                && (rep.budget_skipped_slots > 0 ==> rep.repaired_slots == max_repair_writes),
            old(self).exact() && r is Ok ==> final(self).slots()
                == scrubbed(old(self).slots(), old(self).slot_count(), max_repair_writes as nat),
            old(self).exact() ==> (r matches Ok(rep) ==> {
                let repairs = repairs_among(old(self).slots(), old(self).slot_count());
                &&& rep.healthy_slots == healthy_among(old(self).slots(), old(self).slot_count())
                &&& rep.repaired_slots == min_nat(repairs, max_repair_writes as nat)
                &&& rep.budget_skipped_slots == repairs - min_nat(repairs, max_repair_writes as nat)
            }),
            old(self).exact() && scrubs_cleanly(old(self).slots(), old(self).slot_count()) ==> r is Ok,
    {
        match self.backend.ensure_backend_exists() {
            Ok(()) => {},
            Err(e) => return Err(e),
        }
        let n = self.num_slots;
        let ghost start = self.slots();
        let mut report = ScrubReport::default();
        let mut i: usize = 0;
        while i < n
            invariant
                0 <= i <= n,
                n == self.num_slots,
                self.wf(),
                self.slot_count() == old(self).slot_count(),
                self.policy() == old(self).policy(),
                self.exact() == old(self).exact(),
                start == old(self).slots(),
                self.slots().len() == start.len(),
                forall|j: int| i <= j < start.len() ==> #[trigger] self.slots()[j] == start[j],
                self.exact() ==> forall|j: int| 0 <= j < start.len() ==> scrub_keeps(start[j], #[trigger] self.slots()[j]),
                report.scanned_slots == i,
                report.healthy_slots + report.repaired_slots + report.recoverable_error_slots + report.budget_skipped_slots == i,
                report.repaired_slots <= max_repair_writes,
                report.budget_skipped_slots > 0 ==> report.repaired_slots == max_repair_writes,
                n == old(self).slot_count(),
                self.exact() ==> forall|j: int| 0 <= j < i && j < start.len()
                    ==> #[trigger] self.slots()[j] == scrubbed(start, n as nat, max_repair_writes as nat)[j],
                self.exact() ==> report.healthy_slots == healthy_among(start, i as nat),
                self.exact() ==> report.repaired_slots == min_nat(repairs_among(start, i as nat), max_repair_writes as nat),
                self.exact() ==> report.budget_skipped_slots == repairs_among(start, i as nat)
                    - min_nat(repairs_among(start, i as nat), max_repair_writes as nat),
            decreases n - i,
        {
            let ghost clean = self.exact() && scrubs_cleanly(start, n as nat);
            proof {
                if clean && (i as int) < start.len() && start[i as int] is Some {
                    let b = start[i as int]->0;
                    assert(match slot_decoding(start, i as int) {
                        Some(Err(Some(e))) => spec_is_recoverable(e),
                        Some(Err(None)) => false,
                        _ => true,
                    });
                    if spec_decode_slot(b) is Ok {
                        assert(loadable(start, None, i as int));
                    }
                }
            }
            let check = match self.backend.read_slot(i) {
                Ok(bytes) => match check_slot(bytes.as_slice()) {
                    Ok(c) => {
                        proof {
                            if self.exact() {
                                assert(start[i as int] == Some(bytes@));
                                assert(c matches SlotCheck::Repair(v) ==> scrub_keeps(start[i as int], Some(v@)));
                            }
                        }
                        c
                    },
                    Err(e) => return Err(e),
                },
                Err(e) => {
                    if e.is_recoverable() {
                        SlotCheck::Unavailable
                    } else {
                        return Err(e);
                    }
                },
            };
            let outcome = match &check {
                SlotCheck::Unavailable => ScrubOutcome::Unavailable,
                SlotCheck::Healthy => ScrubOutcome::Healthy,
                SlotCheck::Repair(_) => ScrubOutcome::NeedsRepair,
            };
            let (next, write) = scrub_step(report, outcome, max_repair_writes);
            report = next;
            if write {
                match check {
                    SlotCheck::Repair(repaired) => {
                        if repaired.len() > usize::MAX / 8 {
                            return Err(Error::Io(slot_too_large_error(repaired.len())));
                        }
                        let ghost before = self.slots();
                        match self.backend.write_slot(i, repaired.as_slice()) {
                            Ok(()) => {},
                            Err(e) => return Err(e),
                        }
                        proof {
                            if self.exact() {
                                assert(scrub_keeps(start[i as int], Some(repaired@)));
                                assert forall|j: int| 0 <= j < start.len() implies scrub_keeps(start[j], #[trigger] self.slots()[j]) by {
                                    if j != i {
                                        assert(self.slots()[j] == before[j]);
                                    } else {
                                        assert(self.slots()[j] == Some(repaired@));
                                    }
                                }
                            }
                        }
                    },
                    _ => {},
                }
            }
            i += 1;
        }
        Ok(report)
    }
}

} // verus!
