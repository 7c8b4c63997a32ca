//! Real-time trace control of a Jetson through the kernel's debug files:
//! which files to write, and what, to switch camera tracing on and off.
//! The writes themselves are the caller's.

use vstd::prelude::*;
use vstd::string::StringExecFns;

verus! {

/// Kernel debug directory.
pub const BASE: &'static str = "/sys/kernel/debug";

/// Tracing on/off switch.
pub const TRACE_ON: &'static str = "/tracing/tracing_on";
/// Trace buffer size in KiB.
pub const TRACE_BUFFER_SIZE: &'static str = "/tracing/buffer_size_kb";
/// RTCPU (MIPI block) events.
pub const TRACE_RTCPU: &'static str = "/tracing/events/tegra_rtcpu/enable";
/// RTOS (Falcon) events.
pub const TRACE_RTOS: &'static str = "/tracing/events/freertos/enable";
/// Camera RTC log level.
pub const TRACE_CAMRTC: &'static str = "/camrtc/log-level";
/// The trace log.
pub const TRACE: &'static str = "/tracing/trace";

/// One file write: the bytes `value` to the file at `path`.
#[derive(Debug, Clone, PartialEq, Eq)]
pub struct TraceWrite {
    pub path: String,
    pub value: Vec<u8>,
}

/// Real-time trace control under a debug directory.
#[derive(Debug)]
pub struct Trace {
    base: String,
}

/// `"1\n"`.
pub open spec fn value_on() -> Seq<u8> {
    seq![0x31u8, 0x0Au8]
}

/// `"0\n"`.
pub open spec fn value_off() -> Seq<u8> {
    seq![0x30u8, 0x0Au8]
}

/// `"2\n"`.
pub open spec fn value_lv2() -> Seq<u8> {
    seq![0x32u8, 0x0Au8]
}

/// `"30720\n"`: 30 MiB of trace buffer.
pub open spec fn value_buffer_kb() -> Seq<u8> {
    seq![0x33u8, 0x30u8, 0x37u8, 0x32u8, 0x30u8, 0x0Au8]
}

/// The path of `rel` under `base`, joined by a slash.
pub open spec fn joined(base: Seq<char>, rel: Seq<char>) -> Seq<char> {
    base + "/"@ + rel
}

/// The write of `value` to `rel` under `base`.
pub open spec fn is_write(w: TraceWrite, base: Seq<char>, rel: Seq<char>, value: Seq<u8>) -> bool {
    w.path@ == joined(base, rel) && w.value@ == value
}

fn bytes2(a: u8, b: u8) -> (r: Vec<u8>)
    ensures
        r@ == seq![a, b],
{
    let mut v: Vec<u8> = Vec::new();
    v.push(a);
    v.push(b);
    v
}

impl Trace {
    /// Trace control under the kernel debug directory.
    pub fn new() -> (r: Trace)
        ensures
            r.base() == BASE@,
    {
        Trace { base: String::from_str(BASE) }
    }

    /// Trace control under `base`.
    pub fn with_base(base: String) -> (r: Trace)
        ensures
            r.base() == base@,
    {
        Trace { base }
    }

    /// The debug directory.
    pub closed spec fn base(&self) -> Seq<char> {
        self.base@
    }

    /// The path of `rel` under the debug directory.
    fn path(&self, rel: &str) -> (r: String)
        ensures
            r@ == joined(self.base(), rel@),
    {
        let p = self.base.clone().concat("/");
        p.concat(rel)
    }

    fn write(&self, rel: &str, value: Vec<u8>) -> (r: TraceWrite)
        ensures
            is_write(r, self.base(), rel@, value@),
    {
        TraceWrite { path: self.path(rel), value }
    }

    /// The writes that enable tracing: tracing on, a 30 MiB buffer, RTCPU
    /// and RTOS events on, camera log level 2.
    pub fn enable(&self) -> (r: Vec<TraceWrite>)
        ensures
            r@.len() == 5,
            is_write(r@[0], self.base(), TRACE_ON@, value_on()),
            is_write(r@[1], self.base(), TRACE_BUFFER_SIZE@, value_buffer_kb()),
            is_write(r@[2], self.base(), TRACE_RTCPU@, value_on()),
            is_write(r@[3], self.base(), TRACE_RTOS@, value_on()),
            is_write(r@[4], self.base(), TRACE_CAMRTC@, value_lv2()),
    {
        let mut writes: Vec<TraceWrite> = Vec::new();
        writes.push(self.write(TRACE_ON, bytes2(0x31, 0x0A)));
        let mut kb: Vec<u8> = Vec::new();
        kb.push(0x33);
        kb.push(0x30);
        kb.push(0x37);
        kb.push(0x32);
        kb.push(0x30);
        kb.push(0x0A);
        assert(kb@ =~= value_buffer_kb());
        writes.push(self.write(TRACE_BUFFER_SIZE, kb));
        writes.push(self.write(TRACE_RTCPU, bytes2(0x31, 0x0A)));
        writes.push(self.write(TRACE_RTOS, bytes2(0x31, 0x0A)));
        writes.push(self.write(TRACE_CAMRTC, bytes2(0x32, 0x0A)));
        writes
    }

    /// The writes that disable camera tracing: RTCPU and RTOS events off,
    /// camera log level 0.
    pub fn disable(&self) -> (r: Vec<TraceWrite>)
        ensures
            r@.len() == 3,
            is_write(r@[0], self.base(), TRACE_RTCPU@, value_off()),
            is_write(r@[1], self.base(), TRACE_RTOS@, value_off()),
            is_write(r@[2], self.base(), TRACE_CAMRTC@, value_off()),
    {
        let mut writes: Vec<TraceWrite> = Vec::new();
        writes.push(self.write(TRACE_RTCPU, bytes2(0x30, 0x0A)));
        writes.push(self.write(TRACE_RTOS, bytes2(0x30, 0x0A)));
        writes.push(self.write(TRACE_CAMRTC, bytes2(0x30, 0x0A)));
        writes
    }

    /// The write that empties the trace log.
    pub fn clear(&self) -> (r: Vec<TraceWrite>)
        ensures
            r@.len() == 1,
            is_write(r@[0], self.base(), TRACE@, Seq::empty()),
    {
        let mut writes: Vec<TraceWrite> = Vec::new();
        writes.push(self.write(TRACE, Vec::new()));
        writes
    }

    /// The path of the trace log.
    pub fn trace_file_path(&self) -> (r: String)
        ensures
            r@ == joined(self.base(), TRACE@),
    {
        self.path(TRACE)
    }
}

} // verus!
