//! The metadata header: sequence number, protection level and payload
//! length packed into one SECDED-protected 128-bit word.

use vstd::prelude::*;

use crate::healed::bytes::{be_bytes, be_value, lemma_be_value_bound, lemma_be_value_of_bytes, lemma_be_len, lemma_pow256_values, push_be, read_be};
use crate::healed::ecc::{secded128_decode, secded128_encode, spec_secded128_decode, spec_secded128_encode};
use crate::healed::level::{spec_level_code, spec_level_from_code, ProtectionLevel};

verus! {

/// Bytes of one header.
pub const HEADER_BYTES: usize = 16;

/// Marker in the top 16 payload bits of a header.
pub const HEADER_MAGIC: u16 = 0xA55A;

/// What the header records of a persisted payload.
#[derive(Debug, Clone, Copy, PartialEq, Eq, Structural)]
pub struct MetaData {
    /// Sequence number of the data, for rolling updates.
    pub sequence: u64,
    /// ECC protection level.
    pub level: ProtectionLevel,
    /// Length of the payload before padding.
    pub payload_len: u32,
}

/// A 16-byte header: the big-endian bytes of a SECDED code word.
#[derive(Debug, Clone, Copy, PartialEq, Eq)]
pub struct MetaDataHeader {
    data: [u8; 16],
}

impl View for MetaDataHeader {
    type V = Seq<u8>;

    closed spec fn view(&self) -> Seq<u8> {
        self.data@
    }
}

/// The 120-bit payload of a header: sequence in bits 0..64, length in
/// 64..96, level code in 96..104, the magic in 104..120.
pub open spec fn spec_pack(m: MetaData) -> int {
    m.sequence as int + m.payload_len as int * 0x1_0000_0000_0000_0000
        + spec_level_code(m.level) as int * 0x1_0000_0000_0000_0000_0000_0000
        + 0xA55A * 0x1_0000_0000_0000_0000_0000_0000_00
}

/// The code word a header holds.
pub open spec fn header_word(bytes: Seq<u8>) -> u128 {
    be_value(bytes) as u128
}

/// The metadata a code word decodes to: `None` when the code reports an
/// uncorrectable error, the magic differs, or the level code is unknown.
pub open spec fn spec_decode_word(w: u128) -> Option<MetaData> {
    match spec_secded128_decode(w) {
        None => None,
        Some(d) => spec_decode_fields(d as int / 256),
    }
}

proof fn lemma_unpack(m: MetaData)
    ensures
        0 <= spec_pack(m) < 0x1_0000_0000_0000_0000_0000_0000_0000_00,
        spec_decode_fields(spec_pack(m)) == Some(m),
{
    let p = spec_pack(m);
    let s = m.sequence as int;
    let l = m.payload_len as int;
    let c = spec_level_code(m.level) as int;
    assert(p == s + 0x1_0000_0000_0000_0000 * (l + 0x1_0000_0000 * (c + 256 * 0xA55A)));
    assert(p % 0x1_0000_0000_0000_0000 == s && p / 0x1_0000_0000_0000_0000 == l + 0x1_0000_0000 * (c + 256 * 0xA55A))
        by (nonlinear_arith)
        requires p == s + 0x1_0000_0000_0000_0000 * (l + 0x1_0000_0000 * (c + 256 * 0xA55A)), 0 <= s < 0x1_0000_0000_0000_0000, 0 <= l, 0 <= c;
    let q = l + 0x1_0000_0000 * (c + 256 * 0xA55A);
    assert(q % 0x1_0000_0000 == l && q / 0x1_0000_0000 == c + 256 * 0xA55A) by (nonlinear_arith)
        requires q == l + 0x1_0000_0000 * (c + 256 * 0xA55A), 0 <= l < 0x1_0000_0000, 0 <= c;
    assert(p / 0x1_0000_0000_0000_0000_0000_0000 == c + 256 * 0xA55A) by (nonlinear_arith)
        requires p / 0x1_0000_0000_0000_0000 == q, q / 0x1_0000_0000 == c + 256 * 0xA55A, p >= 0;
    assert(p / 0x1_0000_0000_0000_0000_0000_0000_00 == 0xA55A) by (nonlinear_arith)
        requires p / 0x1_0000_0000_0000_0000_0000_0000 == c + 256 * 0xA55A, 0 <= c < 256, p >= 0;
}

/// The metadata the 120-bit payload `p` holds, if its magic and level code
/// are valid.
pub open spec fn spec_decode_fields(p: int) -> Option<MetaData> {
    if (p / 0x1_0000_0000_0000_0000_0000_0000_00) % 0x1_0000 != 0xA55A {
        None
    } else {
        match spec_level_from_code(((p / 0x1_0000_0000_0000_0000_0000_0000) % 256) as u8) {
            None => None,
            Some(level) => Some(MetaData {
                sequence: (p % 0x1_0000_0000_0000_0000) as u64,
                level,
                payload_len: ((p / 0x1_0000_0000_0000_0000) % 0x1_0000_0000) as u32,
            }),
        }
    }
}

impl MetaData {
    /// Metadata with the given fields.
    pub fn new(sequence: u64, level: ProtectionLevel, payload_len: u32) -> (r: MetaData)
        ensures
            r == (MetaData { sequence, level, payload_len }),
    {
        MetaData { sequence, level, payload_len }
    }

    fn pack_payload(&self) -> (r: u128)
        ensures
            r as int == spec_pack(*self),
    {
        proof { lemma_unpack(*self); }
        let level: u128 = self.level.code() as u128;
        (self.sequence as u128) + (self.payload_len as u128) * 0x1_0000_0000_0000_0000
            + level * 0x1_0000_0000_0000_0000_0000_0000 + 0xA55A * 0x1_0000_0000_0000_0000_0000_0000_00
    }

    /// Encodes into a SECDED-protected header, which decodes back to `self`,
    /// also with any single bit of its code word flipped.
    pub fn encode(&self) -> (r: MetaDataHeader)
        ensures
            header_word(r@) == spec_secded128_encode((spec_pack(*self) * 256) as u128),
            r@ == be_bytes(header_word(r@) as nat, 16),
            spec_decode_word(header_word(r@)) == Some(*self),
            forall|i: u32| i < 128 ==> spec_decode_word(#[trigger] (header_word(r@) ^ (1u128 << i))) == Some(*self),
    {
        proof { lemma_unpack(*self); }
        let payload = self.pack_payload();
        let word = payload * 256;
        let code = secded128_encode(word);
        let mut bytes: Vec<u8> = Vec::new();
        push_be(&mut bytes, code, 16);
        proof {
            lemma_be_len(code as nat, 16);
            lemma_pow256_values();
            lemma_be_value_of_bytes(code as nat, 16);
        }
        let mut data = [0u8; 16];
        let mut i: usize = 0;
        while i < 16
            invariant
                bytes@.len() == 16,
                0 <= i <= 16,
                forall|j: int| 0 <= j < i ==> data@[j] == bytes@[j],
            decreases 16 - i,
        {
            data[i] = bytes[i];
            i += 1;
        }
        assert(data@ =~= bytes@);
        proof {
            assert((word as int) / 256 == spec_pack(*self));
        }
        MetaDataHeader { data }
    }
}

impl MetaDataHeader {
    /// The header held by `bytes`.
    pub fn from_bytes(bytes: &[u8; 16]) -> (r: MetaDataHeader)
        ensures
            r@ == bytes@,
    {
        MetaDataHeader { data: *bytes }
    }

    /// Decodes the header, correcting a single bit error; `None` when the
    /// error cannot be corrected or the content is not a valid header.
    pub fn decode(&self) -> (r: Option<MetaData>)
        ensures
            r == spec_decode_word(header_word(self@)),
    {
        let w = read_be(&self.data, 0, 16);
        proof {
            assert(self.data@.subrange(0, 16) =~= self.data@);
        }
        let d = match secded128_decode(w) {
            None => return None,
            Some(d) => d,
        };
        let payload = d / 256;
        let magic = ((payload / 0x1_0000_0000_0000_0000_0000_0000_00) % 0x1_0000) as u16;
        if magic != HEADER_MAGIC {
            return None;
        }
        let level_code = ((payload / 0x1_0000_0000_0000_0000_0000_0000) % 256) as u8;
        let level = match ProtectionLevel::from_code(level_code) {
            None => return None,
            Some(level) => level,
        };
        Some(MetaData {
            sequence: (payload % 0x1_0000_0000_0000_0000) as u64,
            level,
            payload_len: ((payload / 0x1_0000_0000_0000_0000) % 0x1_0000_0000) as u32,
        })
    }

    /// The 16 bytes of the header.
    pub fn as_bytes(&self) -> (r: &[u8; 16])
        ensures
            r@ == self@,
    {
        &self.data
    }
}

} // verus!
