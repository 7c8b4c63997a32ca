use vstd::prelude::*;

verus! {

/// Pixel format delivered by a CSI sensor mode.
#[derive(Debug, Clone, Copy, PartialEq, Eq, Structural)]
pub enum CsiPixelFormat {
    /// 10-bit RAW.
    Raw10,
    /// 12-bit RAW.
    Raw12,
}

/// Mask of the significant (left-aligned) bits in a 16-bit word.
pub open spec fn spec_lmask_u16(f: CsiPixelFormat) -> u16 {
    match f {
        CsiPixelFormat::Raw10 => 0xffc0u16,
        CsiPixelFormat::Raw12 => 0xfff0u16,
    }
}

/// Right shift that moves left-aligned data to the right.
pub open spec fn spec_bitshift(f: CsiPixelFormat) -> int {
    match f {
        CsiPixelFormat::Raw10 => 6,
        CsiPixelFormat::Raw12 => 4,
    }
}

/// Mask of the significant bits of right-aligned data.
pub open spec fn spec_rmask_u16(f: CsiPixelFormat) -> u16 {
    match f {
        CsiPixelFormat::Raw10 => 0x03ffu16,
        CsiPixelFormat::Raw12 => 0x0fffu16,
    }
}

/// A 16-bit word repeated over 32 bits.
pub open spec fn rep32(w: u16) -> u32 {
    ((w as u32) << 16u32) | (w as u32)
}

/// A 16-bit word repeated over 64 bits.
pub open spec fn rep64(w: u16) -> u64 {
    ((rep32(w) as u64) << 32u64) | (rep32(w) as u64)
}

/// A 16-bit word repeated over 128 bits.
pub open spec fn rep128(w: u16) -> u128 {
    ((rep64(w) as u128) << 64u128) | (rep64(w) as u128)
}

/// How the Jetson PIXFMT unit stores a right-aligned sample: shifted to the
/// left end, the vacated low bits filled with the top bits of the sample.
pub open spec fn spec_jetson_padding(f: CsiPixelFormat, data: u16) -> u16 {
    match f {
        CsiPixelFormat::Raw10 => {
            let res = (data << 6u16) as u16;
            (res + ((res & 0xfc00u16) >> 10u16)) as u16
        },
        CsiPixelFormat::Raw12 => {
            let res = (data << 4u16) as u16;
            (res + ((res & 0xf000u16) >> 12u16)) as u16
        },
    }
}

impl CsiPixelFormat {
    /// Mask for 16-bit left-aligned data.
    pub fn lmask_u16(&self) -> (r: u16)
        ensures
            r == spec_lmask_u16(*self),
    {
        match self {
            CsiPixelFormat::Raw10 => 0xffc0,
            CsiPixelFormat::Raw12 => 0xfff0,
        }
    }

    /// Mask for 32-bit data (two 16-bit words).
    pub fn lmask_u32(&self) -> (r: u32)
        ensures
            r == rep32(spec_lmask_u16(*self)),
    {
        let m = self.lmask_u16() as u32;
        (m << 16) | m
    }

    /// Mask for 64-bit data.
    pub fn lmask_u64(&self) -> (r: u64)
        ensures
            r == rep64(spec_lmask_u16(*self)),
    {
        let m = self.lmask_u32() as u64;
        (m << 32) | m
    }

    /// Mask for 128-bit data.
    pub fn lmask_u128(&self) -> (r: u128)
        ensures
            r == rep128(spec_lmask_u16(*self)),
    {
        let m = self.lmask_u64() as u128;
        (m << 64) | m
    }

    /// Right shift that makes left-aligned data right-aligned.
    pub fn bitshift(&self) -> (r: i32)
        ensures
            r == spec_bitshift(*self),
    {
        match self {
            CsiPixelFormat::Raw10 => 6,
            CsiPixelFormat::Raw12 => 4,
        }
    }

    /// Right-aligns one 16-bit sample.
    pub fn format_u16(&self, data: u16) -> (r: u16)
        ensures
            r == (data & spec_lmask_u16(*self)) >> (spec_bitshift(*self) as u16),
    {
        let s = self.bitshift() as u16;
        (data & self.lmask_u16()) >> s
    }

    /// Right-aligns the samples of a 32-bit word.
    pub fn format_u32(&self, data: u32) -> (r: u32)
        ensures
            r == (data & rep32(spec_lmask_u16(*self))) >> (spec_bitshift(*self) as u32),
    {
        let s = self.bitshift() as u32;
        (data & self.lmask_u32()) >> s
    }

    /// Right-aligns the samples of a 64-bit word.
    pub fn format_u64(&self, data: u64) -> (r: u64)
        ensures
            r == (data & rep64(spec_lmask_u16(*self))) >> (spec_bitshift(*self) as u64),
    {
        let s = self.bitshift() as u64;
        (data & self.lmask_u64()) >> s
    }

    /// Right-aligns the samples of a 128-bit word.
    pub fn format_u128(&self, data: u128) -> (r: u128)
        ensures
            r == (data & rep128(spec_lmask_u16(*self))) >> (spec_bitshift(*self) as u128),
    {
        let s = self.bitshift() as u128;
        (data & self.lmask_u128()) >> s
    }

    /// Mask for 16-bit right-aligned data.
    pub fn rmask_u16(&self) -> (r: u16)
        ensures
            r == spec_rmask_u16(*self),
    {
        match self {
            CsiPixelFormat::Raw10 => 0x03ff,
            CsiPixelFormat::Raw12 => 0x0fff,
        }
    }
}

/// Formatting a Jetson-padded sample gives the sample back, for every sample
/// that fits in the format.
pub proof fn lemma_format_undoes_padding_u16(f: CsiPixelFormat, data: u16)
    requires
        data & spec_rmask_u16(f) == data,
    ensures
        (spec_jetson_padding(f, data) & spec_lmask_u16(f)) >> (spec_bitshift(f) as u16) == data,
{
    match f {
        CsiPixelFormat::Raw10 => {
            assert(data & 0x03ffu16 == data ==> ((((data << 6u16) + (((data << 6u16) & 0xfc00u16) >> 10u16)) as u16) & 0xffc0u16) >> 6u16 == data) by (bit_vector);
        },
        CsiPixelFormat::Raw12 => {
            assert(data & 0x0fffu16 == data ==> ((((data << 4u16) + (((data << 4u16) & 0xf000u16) >> 12u16)) as u16) & 0xfff0u16) >> 4u16 == data) by (bit_vector);
        },
    }
}

/// The wide formats act lane by lane: formatting a word made of repeated
/// 16-bit samples gives the repeated formatted sample.
pub proof fn lemma_format_lanes(f: CsiPixelFormat, w: u16)
    ensures
        (rep32(w) & rep32(spec_lmask_u16(f))) >> (spec_bitshift(f) as u32)
            == rep32((w & spec_lmask_u16(f)) >> (spec_bitshift(f) as u16)),
        (rep64(w) & rep64(spec_lmask_u16(f))) >> (spec_bitshift(f) as u64)
            == rep64((w & spec_lmask_u16(f)) >> (spec_bitshift(f) as u16)),
{
    let m = spec_lmask_u16(f);
    let s = spec_bitshift(f);
    let g = (w & m) >> (s as u16);
    let w32 = rep32(w);
    let m32 = rep32(m);
    let g32 = rep32(g);
    let w64 = rep64(w);
    let m64 = rep64(m);
    let g64 = rep64(g);
    let s16 = s as u16;
    let s32 = s as u32;
    let s64 = s as u64;
    assert(s16 == 4 || s16 == 6);
    assert(m == 0xffc0u16 || m == 0xfff0u16);
    assert((s16 == 6u16 && m == 0xffc0u16) || (s16 == 4u16 && m == 0xfff0u16));
    assert(w32 == ((w as u32) << 16u32) | (w as u32));
    assert(m32 == ((m as u32) << 16u32) | (m as u32));
    assert(g == (w & m) >> s16);
    assert(g32 == ((g as u32) << 16u32) | (g as u32));
    assert(s32 == s16 as u32);
    assert((w32 & m32) >> s32 == g32) by (bit_vector)
        requires
            (s16 == 6u16 && m == 0xffc0u16) || (s16 == 4u16 && m == 0xfff0u16),
            w32 == ((w as u32) << 16u32) | (w as u32),
            m32 == ((m as u32) << 16u32) | (m as u32),
            g == (w & m) >> s16,
            g32 == ((g as u32) << 16u32) | (g as u32),
            s32 == s16 as u32;
    assert(m32 == 0xffc0ffc0u32 || m32 == 0xfff0fff0u32) by (bit_vector)
        requires m == 0xffc0u16 || m == 0xfff0u16, m32 == ((m as u32) << 16u32) | (m as u32);
    assert(m == 0xffc0u16 ==> m32 == 0xffc0ffc0u32) by (bit_vector)
        requires m32 == ((m as u32) << 16u32) | (m as u32);
    assert(m == 0xfff0u16 ==> m32 == 0xfff0fff0u32) by (bit_vector)
        requires m32 == ((m as u32) << 16u32) | (m as u32);
    assert(w64 == ((w32 as u64) << 32u64) | (w32 as u64));
    assert(m64 == ((m32 as u64) << 32u64) | (m32 as u64));
    assert(g64 == ((g32 as u64) << 32u64) | (g32 as u64));
    assert(s64 == s32 as u64);
    assert((w64 & m64) >> s64 == g64) by (bit_vector)
        requires
            (s32 == 6u32 && m32 == 0xffc0ffc0u32) || (s32 == 4u32 && m32 == 0xfff0fff0u32),
            (w32 & m32) >> s32 == g32,
            w64 == ((w32 as u64) << 32u64) | (w32 as u64),
            m64 == ((m32 as u64) << 32u64) | (m32 as u64),
            g64 == ((g32 as u64) << 32u64) | (g32 as u64),
            s64 == s32 as u64;
}

} // verus!
