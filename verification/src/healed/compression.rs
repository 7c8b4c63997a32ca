//! Optional zstd compression of payloads, marked by a 14-byte header:
//! `"HSZ1"`, version 1, codec 1 (zstd), original length (u64, little-endian).

use vstd::prelude::*;
use vstd::bytes::{spec_u64_from_le_bytes, spec_u64_to_le_bytes, u64_from_le_bytes, u64_to_le_bytes};
use vstd::slice::slice_subrange;

use crate::healed::bytes::{append_bytes, copy_range, has_magic};
use crate::healed::error::{spec_io_error_kind, Error, IoErrorKind};
use crate::healed::level::DataClass;

verus! {

/// Bytes of the compression header.
pub const COMPRESSED_HEADER_BYTES: usize = 14;

/// Compression settings per data class.
#[derive(Debug, Clone, Copy, PartialEq, Eq, Structural)]
pub struct CompressionPolicy {
    pub small_enabled: bool,
    pub large_enabled: bool,
}

impl CompressionPolicy {
    /// Compression for both classes.
    pub fn enabled() -> (r: CompressionPolicy)
        ensures
            r == (CompressionPolicy { small_enabled: true, large_enabled: true }),
    {
        CompressionPolicy { small_enabled: true, large_enabled: true }
    }

    /// Compression for neither class.
    pub fn disabled() -> (r: CompressionPolicy)
        ensures
            r == (CompressionPolicy { small_enabled: false, large_enabled: false }),
    {
        CompressionPolicy { small_enabled: false, large_enabled: false }
    }

    /// The policy with small-data compression set to `enabled`.
    pub fn with_small_enabled(self, enabled: bool) -> (r: CompressionPolicy)
        ensures
            r == (CompressionPolicy { small_enabled: enabled, ..self }),
    {
        CompressionPolicy { small_enabled: enabled, large_enabled: self.large_enabled }
    }

    /// The policy with large-data compression set to `enabled`.
    pub fn with_large_enabled(self, enabled: bool) -> (r: CompressionPolicy)
        ensures
            r == (CompressionPolicy { large_enabled: enabled, ..self }),
    {
        CompressionPolicy { small_enabled: self.small_enabled, large_enabled: enabled }
    }

    /// Whether data of `data_class` is compressed.
    pub fn is_enabled_for(self, data_class: DataClass) -> (r: bool)
        ensures
            r == spec_enabled_for(self, data_class),
    {
        match data_class {
            DataClass::Small => self.small_enabled,
            DataClass::Large => self.large_enabled,
        }
    }
}

impl Default for CompressionPolicy {
    fn default() -> (r: CompressionPolicy)
        ensures
            r == (CompressionPolicy { small_enabled: true, large_enabled: true }),
    {
        CompressionPolicy::enabled()
    }
}

/// Whether `policy` compresses data of `data_class`.
pub open spec fn spec_enabled_for(policy: CompressionPolicy, data_class: DataClass) -> bool {
    match data_class {
        DataClass::Small => policy.small_enabled,
        DataClass::Large => policy.large_enabled,
    }
}

/// `"HSZ1"`.
pub open spec fn compressed_magic() -> Seq<u8> {
    seq![0x48u8, 0x53u8, 0x5Au8, 0x31u8]
}

/// The compression header of a payload of `len` bytes.
pub open spec fn spec_compressed_header(len: u64) -> Seq<u8> {
    compressed_magic() + seq![1u8, 1u8] + spec_u64_to_le_bytes(len)
}

/// `bytes` starts with a compression header.
pub open spec fn spec_is_compressed(bytes: Seq<u8>) -> bool {
    bytes.len() >= 14 && bytes.subrange(0, 4) == compressed_magic() && bytes[4] == 1 && bytes[5] == 1
}

/// The frame zstd's `encode_all` at its default level makes of `input`
/// (`None` when it reports an error).
pub uninterp spec fn spec_zstd_compress(input: Seq<u8>) -> Option<Seq<u8>>;

/// What zstd's `decode_all` restores from `input` (`None` when it reports an
/// error).
pub uninterp spec fn spec_zstd_decompress(input: Seq<u8>) -> Option<Seq<u8>>;

/// `zstd::stream::encode_all(payload, 0)`.
///
/// Trusted: zstd is lossless, so decoding what it encoded gives the input back.
#[verifier::external_body]
fn zstd_encode_all(payload: &[u8]) -> (r: Result<Vec<u8>, std::io::Error>)
    ensures
        match r {
            Ok(c) => spec_zstd_compress(payload@) == Some(c@) && spec_zstd_decompress(c@) == Some(payload@),
            Err(_) => spec_zstd_compress(payload@) is None,
        },
{
    zstd::stream::encode_all(payload, 0)
}

/// `zstd::stream::decode_all(body)`.
#[verifier::external_body]
fn zstd_decode_all(body: &[u8]) -> (r: Result<Vec<u8>, std::io::Error>)
    ensures
        match r {
            Ok(d) => spec_zstd_decompress(body@) == Some(d@),
            Err(_) => spec_zstd_decompress(body@) is None,
        },
{
    zstd::stream::decode_all(body)
}

/// `std::io::Error::new` of kind `InvalidData` reporting a decompressed
/// length that differs from the recorded one.
#[verifier::external_body]
fn length_mismatch_error(expected: usize, actual: usize) -> (r: std::io::Error)
    ensures
        spec_io_error_kind(r) == IoErrorKind::InvalidData,
{
    std::io::Error::new(
        std::io::ErrorKind::InvalidData,
        format!("Compressed payload length mismatch: expected {expected}, got {actual}"),
    )
}

/// Whether `bytes` starts with a compression header.
pub fn is_compressed_payload(bytes: &[u8]) -> (r: bool)
    ensures
        r == spec_is_compressed(bytes@),
{
    if bytes.len() < COMPRESSED_HEADER_BYTES {
        return false;
    }
    let magic: [u8; 4] = [0x48, 0x53, 0x5A, 0x31];
    assert(magic@ =~= compressed_magic());
    has_magic(bytes, 0, magic) && bytes[4] == 1 && bytes[5] == 1
}

/// What compression with `policy` makes of a payload of class
/// `data_class`: the payload itself when compression is off for the class
/// or does not make it shorter, else the header and the zstd frame; `None`
/// when zstd fails.
pub open spec fn spec_maybe_compress(payload: Seq<u8>, data_class: DataClass, policy: CompressionPolicy) -> Option<Seq<u8>> {
    if !spec_enabled_for(policy, data_class) {
        Some(payload)
    } else {
        match spec_zstd_compress(payload) {
            None => None,
            Some(c) => if c.len() + 14 >= payload.len() {
                Some(payload)
            } else {
                Some(spec_compressed_header(payload.len() as u64) + c)
            },
        }
    }
}

/// What decompression makes of stored bytes: the bytes themselves when they
/// carry no compression header, else the zstd-decoded body; `None` when
/// zstd fails or the length differs from the header's.
pub open spec fn spec_maybe_decompress(payload: Seq<u8>) -> Option<Seq<u8>> {
    if !spec_is_compressed(payload) {
        Some(payload)
    } else {
        match spec_zstd_decompress(payload.subrange(14, payload.len() as int)) {
            None => None,
            Some(d) => if d.len() != (spec_u64_from_le_bytes(payload.subrange(6, 14)) as usize) {
                None
            } else {
                Some(d)
            },
        }
    }
}

/// Compresses `payload` when `policy` asks for it for `data_class` and it
/// pays off. Unless `payload` itself starts with a compression header and
/// is stored as it is, decompressing the result gives `payload` back.
pub fn maybe_compress_payload(payload: &[u8], data_class: DataClass, policy: CompressionPolicy) -> (r: Result<Vec<u8>, Error>)
    ensures
        match spec_maybe_compress(payload@, data_class, policy) {
            Some(v) => r matches Ok(x) && x@ == v,
            None => r matches Err(Error::Io(_)),
        },
        r matches Ok(x) ==> (x@ != payload@ || !spec_is_compressed(payload@) ==> spec_maybe_decompress(x@) == Some(payload@)),
        r matches Ok(x) ==> x@.len() <= payload@.len(),
{
    if !policy.is_enabled_for(data_class) {
        return Ok(copy_range(payload, 0, payload.len()));
    }
    let compressed = match zstd_encode_all(payload) {
        Ok(c) => c,
        Err(e) => return Err(Error::Io(e)),
    };
    if compressed.len() >= payload.len() || payload.len() - compressed.len() <= COMPRESSED_HEADER_BYTES {
        assert(payload@.subrange(0, payload@.len() as int) =~= payload@);
        return Ok(copy_range(payload, 0, payload.len()));
    }
    let mut out: Vec<u8> = Vec::with_capacity(COMPRESSED_HEADER_BYTES + compressed.len());
    out.push(0x48);
    out.push(0x53);
    out.push(0x5A);
    out.push(0x31);
    out.push(1);
    out.push(1);
    let len_bytes = u64_to_le_bytes(payload.len() as u64);
    append_bytes(&mut out, len_bytes.as_slice());
    append_bytes(&mut out, compressed.as_slice());
    proof {
        vstd::bytes::lemma_auto_spec_u64_to_from_le_bytes();
        let h = spec_compressed_header(payload@.len() as u64);
        assert(out@ =~= h + compressed@);
        assert(out@.subrange(0, 4) =~= compressed_magic());
        assert(out@.subrange(6, 14) =~= spec_u64_to_le_bytes(payload@.len() as u64));
        assert(out@.subrange(14, out@.len() as int) =~= compressed@);
    }
    Ok(out)
}

/// Restores a payload stored by `maybe_compress_payload`: bytes without a
/// compression header are returned as they are.
pub fn maybe_decompress_payload(payload: &[u8]) -> (r: Result<Vec<u8>, Error>)
    ensures
        match spec_maybe_decompress(payload@) {
            Some(v) => r matches Ok(x) && x@ == v,
            None => r matches Err(Error::Io(_)),
        },
{
    if !is_compressed_payload(payload) {
        assert(payload@.subrange(0, payload@.len() as int) =~= payload@);
        return Ok(copy_range(payload, 0, payload.len()));
    }
    let expected_len = u64_from_le_bytes(slice_subrange(payload, 6, 14)) as usize;
    let body = slice_subrange(payload, COMPRESSED_HEADER_BYTES, payload.len());
    let decoded = match zstd_decode_all(body) {
        Ok(d) => d,
        Err(e) => return Err(Error::Io(e)),
    };
    if decoded.len() != expected_len {
        return Err(Error::Io(length_mismatch_error(expected_len, decoded.len())));
    }
    Ok(decoded)
}

} // verus!
