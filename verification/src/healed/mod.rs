//! Self-healing serialisation: ECC frames, triple modular redundancy and
//! Reed-Solomon records for persisted data.

pub mod bytes;
pub mod compression;
pub mod crc;
pub mod ecc;
pub mod error;
pub mod frame;
pub mod level;
pub mod metadata;
pub mod rs;
pub mod tmr;
pub mod vault;

use vstd::prelude::*;

use crate::healed::bytes::{be_bytes, copy_range};
use crate::healed::ecc::{correctable_bit, flip_bit};
use crate::healed::error::Error;
use crate::healed::frame::{
    frame_from_parts, recovers_to, spec_footer, spec_frame_blocks, spec_frame_bytes, spec_header_bytes, spec_recover,
    StorageFrame,
};
use crate::healed::level::ProtectionLevel;
use crate::healed::metadata::{header_word, spec_decode_word, MetaData};

verus! {

/// The metadata of a payload protected on its own: sequence 0.
pub open spec fn standalone_meta(payload: Seq<u8>, level: ProtectionLevel) -> MetaData {
    MetaData { sequence: 0, level, payload_len: payload.len() as u32 }
}

/// Protects raw bytes with an ECC frame (sequence number 0); payloads
/// longer than `u32::MAX` bytes cannot be framed and are refused.
///
/// Decoding the frame gives the payload back, also after a single bit flip
/// in the primary header, after any damage to the primary header that leaves
/// it decoding to the same metadata or not decoding at all, or after a
/// single correctable bit flip in any one payload block.
pub fn encode(payload: &[u8], level: ProtectionLevel) -> (r: Result<Vec<u8>, Error>)
    requires
        payload@.len() + 8 <= usize::MAX,
    ensures
        payload@.len() > u32::MAX ==> (r matches Err(Error::InvalidProtectionLevel)),
        payload@.len() <= u32::MAX ==> (r matches Ok(v) && v@ == spec_frame_bytes(standalone_meta(payload@, level), payload@)),
        r matches Ok(v) ==> spec_recover(v@) matches Ok((_, p)) && p == payload@,
        r is Ok ==> forall|i: u32| i < 128 ==> #[trigger] recovers_to(
            frame_from_parts(
                be_bytes((header_word(spec_header_bytes(standalone_meta(payload@, level))) ^ (1u128 << i)) as nat, 16),
                spec_header_bytes(standalone_meta(payload@, level)),
                spec_frame_blocks(payload@, level),
                spec_footer(standalone_meta(payload@, level), payload@),
            ),
            standalone_meta(payload@, level),
            payload@,
        ),
        r is Ok ==> forall|h: Seq<u8>| h.len() == 16 && (spec_decode_word(header_word(h)) is None
            || spec_decode_word(header_word(h)) == Some(standalone_meta(payload@, level))) ==> #[trigger] recovers_to(
            frame_from_parts(h, spec_header_bytes(standalone_meta(payload@, level)), spec_frame_blocks(payload@, level),
                spec_footer(standalone_meta(payload@, level), payload@)),
            standalone_meta(payload@, level),
            payload@,
        ),
        r is Ok ==> forall|k: int, i: u32| 0 <= k < spec_frame_blocks(payload@, level).len()
            && correctable_bit(spec_frame_blocks(payload@, level)[k], i) ==> #[trigger] recovers_to(
            frame_from_parts(
                spec_header_bytes(standalone_meta(payload@, level)),
                spec_header_bytes(standalone_meta(payload@, level)),
                spec_frame_blocks(payload@, level).update(k, flip_bit(spec_frame_blocks(payload@, level)[k], i)),
                spec_footer(standalone_meta(payload@, level), payload@),
            ),
            standalone_meta(payload@, level),
            payload@,
        ),
{
    if payload.len() > u32::MAX as usize {
        return Err(Error::InvalidProtectionLevel);
    }
    assert(payload@.subrange(0, payload@.len() as int) =~= payload@);
    let frame = StorageFrame::new(copy_range(payload, 0, payload.len()), 0, level);
    frame.to_bytes()
}

/// Restores the raw bytes of an ECC frame, repairing correctable damage.
pub fn decode(bytes: &[u8]) -> (r: Result<Vec<u8>, Error>)
    ensures
        match spec_recover(bytes@) {
            Ok((_, p)) => r matches Ok(v) && v@ == p,
            Err(e) => r matches Err(x) && x == e,
        },
{
    match StorageFrame::recover(bytes) {
        Ok(frame) => Ok(frame.payload),
        Err(e) => Err(e),
    }
}

} // verus!
