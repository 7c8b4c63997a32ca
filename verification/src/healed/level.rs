use vstd::prelude::*;

verus! {

/// Data protection level: trades overhead against protection.
#[derive(Debug, Clone, Copy, PartialEq, Eq, Structural)]
pub enum ProtectionLevel {
    /// 8 data bits per code word (dense protection).
    High,
    /// 32 data bits per code word (balanced).
    Medium,
    /// 64 data bits per code word (low overhead).
    Low,
}

/// The numeric code of a level.
pub open spec fn spec_level_code(level: ProtectionLevel) -> u8 {
    match level {
        ProtectionLevel::High => 0,
        ProtectionLevel::Medium => 1,
        ProtectionLevel::Low => 2,
    }
}

/// The level with a numeric code, if any.
pub open spec fn spec_level_from_code(value: u8) -> Option<ProtectionLevel> {
    if value == 0 {
        Some(ProtectionLevel::High)
    } else if value == 1 {
        Some(ProtectionLevel::Medium)
    } else if value == 2 {
        Some(ProtectionLevel::Low)
    } else {
        None
    }
}

impl ProtectionLevel {
    /// Numeric code: High 0, Medium 1, Low 2.
    pub fn code(self) -> (r: u8)
        ensures
            r == spec_level_code(self),
    {
        match self {
            ProtectionLevel::High => 0,
            ProtectionLevel::Medium => 1,
            ProtectionLevel::Low => 2,
        }
    }

    /// The level with a numeric code, if any.
    pub fn from_code(value: u8) -> (r: Option<ProtectionLevel>)
        ensures
            r == spec_level_from_code(value),
    {
        match value {
            0 => Some(ProtectionLevel::High),
            1 => Some(ProtectionLevel::Medium),
            2 => Some(ProtectionLevel::Low),
            _ => None,
        }
    }
}

/// Payload size class that selects the redundancy strategy.
#[derive(Debug, Clone, Copy, PartialEq, Eq, Structural)]
pub enum DataClass {
    /// Below the threshold: triple modular redundancy.
    Small,
    /// At or above the threshold: Reed-Solomon records.
    Large,
}

/// Payloads of at least this many bytes are large.
pub const SMALL_DATA_THRESHOLD_BYTES: usize = 4096;

impl DataClass {
    /// The class of a payload of `len` bytes.
    pub fn from_payload_len(len: usize) -> (r: DataClass)
        ensures
            r == (if len < SMALL_DATA_THRESHOLD_BYTES { DataClass::Small } else { DataClass::Large }),
    {
        if len < SMALL_DATA_THRESHOLD_BYTES {
            DataClass::Small
        } else {
            DataClass::Large
        }
    }
}

} // verus!
