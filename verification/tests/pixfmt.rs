use rtkit::pixfmt::format::CsiPixelFormat;
use rtkit::pixfmt::t16::{
    format_as_u128, format_as_u128_simd, format_as_u256_simd, mask, mask_as_u128, mask_as_u128_simd, mask_as_u256_simd,
};

/// Jetson PIXFMT storage of a right-aligned sample (left-aligned, low bits
/// filled by repeating the top bits).
fn test_padding_u16(fmt: &CsiPixelFormat, data: u16) -> u16 {
    match fmt {
        CsiPixelFormat::Raw10 => {
            let res = data << fmt.bitshift();
            res + ((res & 0xfc00) >> 10)
        }
        CsiPixelFormat::Raw12 => {
            let res = data << fmt.bitshift();
            res + ((res & 0xf000) >> 12)
        }
    }
}

fn u16_extend_u32(data: u16) -> u32 {
    (data as u32).overflowing_shl(16).0 + data as u32
}

fn u16_extend_u64(data: u16) -> u64 {
    let data = u16_extend_u32(data);
    (data as u64).overflowing_shl(32).0 + data as u64
}

fn u16_extend_u128(data: u16) -> u128 {
    let data = u16_extend_u64(data);
    (data as u128).overflowing_shl(64).0 + data as u128
}

fn to_le_bytes(data: u16, len: usize) -> Vec<u8> {
    data.to_le_bytes().repeat(len).into_iter().collect::<Vec<u8>>()
}

fn format_data_raw12(len: usize) -> (Vec<u8>, Vec<u8>) {
    (to_le_bytes(0xf000, len), to_le_bytes(0x0f00, len))
}

fn mask_data(len: usize) -> (Vec<u8>, Vec<u8>) {
    (to_le_bytes(0xf00f_u16, len), to_le_bytes(0xf000_u16, len))
}

#[test]
fn test_padding() {
    let test_data = 0b0000100110100110;
    assert_eq!(test_padding_u16(&CsiPixelFormat::Raw10, test_data), 0b0110100110011010);
    assert_eq!(test_padding_u16(&CsiPixelFormat::Raw12, test_data), 0b1001101001101001);
}

#[test]
fn pixfmt_test_mask() {
    let test_data = 0b01101001_10100110;
    assert_eq!(CsiPixelFormat::Raw12.lmask_u16() & test_data, 0b01101001_10100000);

    let test_data: u32 = 0b01101001_10100110_01101001_10100110;
    assert_eq!(
        CsiPixelFormat::Raw12.lmask_u32() & test_data,
        0b01101001_10100000_01101001_10100000
    );

    let test_data: u64 = 0b01101001_10100110_01101001_10100110_01101001_10100110_01101001_10100110;
    assert_eq!(
        CsiPixelFormat::Raw12.lmask_u64() & test_data,
        0b01101001_10100000_01101001_10100000_01101001_10100000_01101001_10100000
    );
}

#[test]
fn test_csi_pixel_format() {
    let rawdata = 0xc9a6;
    let td = vec![CsiPixelFormat::Raw10, CsiPixelFormat::Raw12];
    for tc in &td {
        let reference_data = tc.rmask_u16() & rawdata;
        let paddata = test_padding_u16(tc, reference_data);
        assert_eq!(tc.format_u16(paddata), reference_data);
    }
    // Every 16-bit input instead of random samples.
    for rawdata in 0..=u16::MAX {
        for tc in &td {
            let reference_u16 = tc.rmask_u16() & rawdata;
            let paddata_u16 = test_padding_u16(tc, reference_u16);
            assert_eq!(tc.format_u16(paddata_u16), reference_u16);
            assert_eq!(tc.format_u32(u16_extend_u32(paddata_u16)), u16_extend_u32(reference_u16));
            assert_eq!(tc.format_u64(u16_extend_u64(paddata_u16)), u16_extend_u64(reference_u16));
            assert_eq!(tc.format_u128(u16_extend_u128(paddata_u16)), u16_extend_u128(reference_u16));
        }
    }
}

#[test]
fn test_format_as_u128() {
    let (mut buf, expect) = format_data_raw12(8);
    format_as_u128(&mut buf, CsiPixelFormat::Raw12);
    assert_eq!(buf, expect);
}

#[test]
fn test_format_as_u128_unaligned() {
    let (mut buf, mut expect) = format_data_raw12(12);
    let mut expect = expect.drain(..16).collect::<Vec<u8>>();
    expect.extend_from_slice(to_le_bytes(0xf000_u16, 4).as_slice());
    format_as_u128(&mut buf, CsiPixelFormat::Raw12);
    assert_eq!(buf, expect);
}

#[test]
fn format_dispatches_to_whole_chunks() {
    let (mut buf, expect) = format_data_raw12(16);
    rtkit::pixfmt::t16::format(&mut buf, CsiPixelFormat::Raw12);
    assert_eq!(buf, expect);
}

#[test]
fn t16_test_mask() {
    let (mut buf, expect) = mask_data(8);
    mask_as_u128(&mut buf, CsiPixelFormat::Raw12);
    assert_eq!(buf, expect);
}

#[test]
fn mask_dispatches_to_whole_chunks() {
    let (mut buf, expect) = mask_data(8);
    mask(&mut buf, CsiPixelFormat::Raw12);
    assert_eq!(buf, expect);
}

#[test]
fn raw10_masks_and_shift() {
    assert_eq!(CsiPixelFormat::Raw10.lmask_u16(), 0xffc0);
    assert_eq!(CsiPixelFormat::Raw10.lmask_u128(), 0xffc0ffc0_ffc0ffc0_ffc0ffc0_ffc0ffc0);
    assert_eq!(CsiPixelFormat::Raw10.bitshift(), 6);
    assert_eq!(CsiPixelFormat::Raw10.rmask_u16(), 0x03ff);
    assert_eq!(CsiPixelFormat::Raw10.format_u16(0xffff), 0x03ff);
}

#[test]
fn test_format_as_u128_simd() {
    let (mut buf, expect) = format_data_raw12(8);
    format_as_u128_simd(&mut buf, CsiPixelFormat::Raw12);
    assert_eq!(buf, expect);
}

#[test]
fn test_format_as_u256_simd() {
    let (mut buf, expect) = format_data_raw12(16);
    format_as_u256_simd(&mut buf, CsiPixelFormat::Raw12);
    assert_eq!(buf, expect);
}

#[test]
fn test_format_as_u128_simd_neon() {
    let (mut buf, expect) = format_data_raw12(8);
    format_as_u128_simd(&mut buf, CsiPixelFormat::Raw12);
    assert_eq!(buf, expect);
}

#[test]
fn test_mask_simd() {
    let (mut buf, expect) = mask_data(8);
    mask_as_u128_simd(&mut buf, CsiPixelFormat::Raw12);
    assert_eq!(buf, expect);
}

#[test]
fn test_mask_as_u128_simd_neon() {
    let (mut buf, expect) = mask_data(8);
    mask_as_u128_simd(&mut buf, CsiPixelFormat::Raw12);
    assert_eq!(buf, expect);
}

#[test]
fn u256_variants_leave_partial_block() {
    let (mut buf, expect) = format_data_raw12(24);
    format_as_u256_simd(&mut buf, CsiPixelFormat::Raw12);
    assert_eq!(&buf[..32], &expect[..32]);
    assert_eq!(&buf[32..], &to_le_bytes(0xf000, 8)[..]);

    let (mut buf, expect) = mask_data(24);
    mask_as_u256_simd(&mut buf, CsiPixelFormat::Raw12);
    assert_eq!(&buf[..32], &expect[..32]);
    assert_eq!(&buf[32..], &to_le_bytes(0xf00f, 8)[..]);
}
