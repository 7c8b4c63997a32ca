use vstd::prelude::*;
use vstd::bytes::{
    spec_u16_from_le_bytes, spec_u16_to_le_bytes, spec_u32_from_le_bytes, spec_u32_to_le_bytes,
    spec_u64_from_le_bytes, spec_u64_to_le_bytes, u16_from_le_bytes, u16_to_le_bytes,
    u32_from_le_bytes, u32_to_le_bytes, u64_from_le_bytes, u64_to_le_bytes,
};

use crate::rhythm::consts::RHYTHM_MESSAGE_WIRE_SIZE;
use crate::rhythm::fixed_math::{spec_bpm_from_int, BpmQ8};

verus! {

/// A rhythm state shared over the network in a fixed 16-byte little-endian layout.
#[derive(Debug, Clone, Copy, PartialEq, Eq, Structural)]
pub struct RhythmMessage {
    pub timestamp_ms: u64,
    pub beat_count: u32,
    pub phase: u16,
    pub bpm: BpmQ8,
}

impl Default for RhythmMessage {
    fn default() -> (r: RhythmMessage)
        ensures
            r == (RhythmMessage { timestamp_ms: 0, beat_count: 0, phase: 0, bpm: BpmQ8(0) }),
    {
        RhythmMessage { timestamp_ms: 0, beat_count: 0, phase: 0, bpm: BpmQ8(0) }
    }
}

/// The wire image of a message: timestamp, beat count, phase and the
/// BPM rounded to an integer, each little-endian, in that order.
pub open spec fn spec_wire_bytes(m: RhythmMessage) -> Seq<u8> {
    spec_u64_to_le_bytes(m.timestamp_ms) + spec_u32_to_le_bytes(m.beat_count)
        + spec_u16_to_le_bytes(m.phase) + spec_u16_to_le_bytes(((m.bpm.0 + 128) / 256) as u16)
}

/// The message a wire image of at least 16 bytes decodes to.
pub open spec fn spec_from_wire(buf: Seq<u8>) -> RhythmMessage {
    RhythmMessage {
        timestamp_ms: spec_u64_from_le_bytes(buf.subrange(0, 8)),
        beat_count: spec_u32_from_le_bytes(buf.subrange(8, 12)),
        phase: spec_u16_from_le_bytes(buf.subrange(12, 14)),
        bpm: BpmQ8(spec_bpm_from_int(spec_u16_from_le_bytes(buf.subrange(14, 16)))),
    }
}

impl RhythmMessage {
    /// Offset of the timestamp (u64).
    pub const WIRE_TIMESTAMP_OFFSET: usize = 0;

    /// Offset of the beat count (u32).
    pub const WIRE_BEAT_COUNT_OFFSET: usize = 8;

    /// Offset of the phase (u16).
    pub const WIRE_PHASE_OFFSET: usize = 12;

    /// Offset of the integer BPM (u16).
    pub const WIRE_BPM_OFFSET: usize = 14;

    /// Plain constructor.
    pub fn new(timestamp_ms: u64, beat_count: u32, phase: u16, bpm: BpmQ8) -> (r: RhythmMessage)
        ensures
            r == (RhythmMessage { timestamp_ms, beat_count, phase, bpm }),
    {
        RhythmMessage { timestamp_ms, beat_count, phase, bpm }
    }

    /// The all-zero message.
    pub fn zeroed() -> (r: RhythmMessage)
        ensures
            r == (RhythmMessage { timestamp_ms: 0, beat_count: 0, phase: 0, bpm: BpmQ8(0) }),
    {
        RhythmMessage { timestamp_ms: 0, beat_count: 0, phase: 0, bpm: BpmQ8(0) }
    }

    /// Serialises into the 16-byte little-endian wire layout; the BPM is sent
    /// as its rounded integer value.
    pub fn to_wire_bytes(self) -> (r: [u8; 16])
        ensures
            r@ == spec_wire_bytes(self),
    {
        let ts = u64_to_le_bytes(self.timestamp_ms);
        let bc = u32_to_le_bytes(self.beat_count);
        let ph = u16_to_le_bytes(self.phase);
        let bpm = u16_to_le_bytes(self.bpm.to_int_round());
        proof {
            vstd::bytes::lemma_auto_spec_u64_to_from_le_bytes();
            vstd::bytes::lemma_auto_spec_u32_to_from_le_bytes();
            vstd::bytes::lemma_auto_spec_u16_to_from_le_bytes();
        }
        let buf: [u8; 16] = [
            ts[0], ts[1], ts[2], ts[3], ts[4], ts[5], ts[6], ts[7],
            bc[0], bc[1], bc[2], bc[3],
            ph[0], ph[1],
            bpm[0], bpm[1],
        ];
        assert(buf@ =~= spec_wire_bytes(self));
        buf
    }

    /// Deserialises the wire layout; `None` when fewer than 16 bytes are given.
    pub fn from_wire_slice(buf: &[u8]) -> (r: Option<RhythmMessage>)
        ensures
            buf@.len() < 16 ==> r is None,
            buf@.len() >= 16 ==> r == Some(spec_from_wire(buf@)),
    {
        if buf.len() < RHYTHM_MESSAGE_WIRE_SIZE {
            return None;
        }
        let ts_bytes = slice_range(buf, 0, 8);
        let bc_bytes = slice_range(buf, 8, 12);
        let ph_bytes = slice_range(buf, 12, 14);
        let bpm_bytes = slice_range(buf, 14, 16);
        let timestamp_ms = u64_from_le_bytes(ts_bytes.as_slice());
        let beat_count = u32_from_le_bytes(bc_bytes.as_slice());
        let phase = u16_from_le_bytes(ph_bytes.as_slice());
        let bpm = u16_from_le_bytes(bpm_bytes.as_slice());
        Some(RhythmMessage { timestamp_ms, beat_count, phase, bpm: BpmQ8::from_int(bpm) })
    }
}

/// Copies `buf[start..end]` into a new vector.
pub fn slice_range(buf: &[u8], start: usize, end: usize) -> (r: Vec<u8>)
    requires
        start <= end <= buf@.len(),
    ensures
        r@ == buf@.subrange(start as int, end as int),
{
    let mut out: Vec<u8> = Vec::with_capacity(end - start);
    let mut i = start;
    while i < end
        invariant
            start <= i <= end <= buf@.len(),
            out@ == buf@.subrange(start as int, i as int),
        decreases end - i,
    {
        out.push(buf[i]);
        i += 1;
        assert(out@ =~= buf@.subrange(start as int, i as int));
    }
    out
}

/// Sending a message and reading it back gives the message, with the BPM
/// rounded to an integer BPM.
pub proof fn lemma_wire_roundtrip(m: RhythmMessage)
    ensures
        spec_wire_bytes(m).len() == 16,
        spec_from_wire(spec_wire_bytes(m)) == (RhythmMessage {
            bpm: BpmQ8(spec_bpm_from_int(((m.bpm.0 + 128) / 256) as u16)),
            ..m
        }),
{
    vstd::bytes::lemma_auto_spec_u64_to_from_le_bytes();
    vstd::bytes::lemma_auto_spec_u32_to_from_le_bytes();
    vstd::bytes::lemma_auto_spec_u16_to_from_le_bytes();
    let w = spec_wire_bytes(m);
    let a = spec_u64_to_le_bytes(m.timestamp_ms);
    let b = spec_u32_to_le_bytes(m.beat_count);
    let c = spec_u16_to_le_bytes(m.phase);
    let d = spec_u16_to_le_bytes(((m.bpm.0 + 128) / 256) as u16);
    assert(w.subrange(0, 8) =~= a);
    assert(w.subrange(8, 12) =~= b);
    assert(w.subrange(12, 14) =~= c);
    assert(w.subrange(14, 16) =~= d);
}

/// A message whose BPM is a whole number of BPM (at most 255) survives the
/// wire unchanged.
pub proof fn lemma_wire_roundtrip_integral_bpm(m: RhythmMessage, k: u16)
    requires
        k <= 255,
        m.bpm.0 == k * 256,
    ensures
        spec_from_wire(spec_wire_bytes(m)) == m,
{
    lemma_wire_roundtrip(m);
    assert((k * 256 + 128) / 256 == k) by (nonlinear_arith) requires k <= 255;
}

} // verus!
