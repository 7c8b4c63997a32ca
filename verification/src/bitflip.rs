//! Reproducible bit-flip fault injection into byte buffers.

use vstd::prelude::*;
use vstd::string::StringExecFns;

verus! {

/// Bytes of the headers at the start of a storage frame.
pub const FRAME_HEADER_BYTES: usize = 32;

/// Bytes of the footer at the end of a storage frame.
pub const FRAME_FOOTER_BYTES: usize = 8;

/// Region of a frame in which bits are flipped.
#[derive(Debug, Clone, Copy, PartialEq, Eq, Structural)]
pub enum BitFlipTarget {
    /// The primary and secondary headers (first 32 bytes).
    HeaderOnly,
    /// The payload between the headers and the footer.
    PayloadOnly,
    /// The whole frame.
    FullFrame,
}

/// Fault injection settings.
#[derive(Debug, Clone, Copy, PartialEq, Eq)]
pub struct BitFlipConfig {
    /// Number of bits to flip.
    pub flip_bits: usize,
    /// Random seed; `Some` makes the flips reproducible, `None` seeds from the clock.
    pub seed: Option<u64>,
    /// Region to flip bits in.
    pub target: BitFlipTarget,
}

/// Errors of fault injection.
#[derive(Debug, Clone, PartialEq, Eq)]
pub enum BitFlipError {
    /// The target name is unknown.
    InvalidTarget(String),
    /// More bits requested than the target region holds.
    FlipBitsOutOfRange { flip_bits: usize, available_bits: usize },
}

#[verifier::external_type_specification]
#[verifier::external_body]
pub struct ExIoError(std::io::Error);

/// Errors of the buffering writer.
#[derive(Debug)]
pub enum BitFlipWriterError {
    BitFlip(BitFlipError),
    Io(std::io::Error),
}

impl BitFlipTarget {
    /// Parses `"header_only"`, `"payload_only"` or `"full_frame"`.
    pub fn try_from_str(value: &str) -> (r: Result<BitFlipTarget, BitFlipError>)
        ensures
            value@ == "header_only"@ ==> r == Ok::<BitFlipTarget, BitFlipError>(BitFlipTarget::HeaderOnly),
            value@ != "header_only"@ && value@ == "payload_only"@ ==> r == Ok::<BitFlipTarget, BitFlipError>(BitFlipTarget::PayloadOnly),
            value@ != "header_only"@ && value@ != "payload_only"@ && value@ == "full_frame"@ ==> r == Ok::<BitFlipTarget, BitFlipError>(BitFlipTarget::FullFrame),
            value@ != "header_only"@ && value@ != "payload_only"@ && value@ != "full_frame"@ ==> (match r {
                Err(BitFlipError::InvalidTarget(s)) => s@ == value@,
                _ => false,
            }),
    {
        let given = value.to_owned();
        if given == String::from_str("header_only") {
            Ok(BitFlipTarget::HeaderOnly)
        } else if given == String::from_str("payload_only") {
            Ok(BitFlipTarget::PayloadOnly)
        } else if given == String::from_str("full_frame") {
            Ok(BitFlipTarget::FullFrame)
        } else {
            Err(BitFlipError::InvalidTarget(given))
        }
    }
}

impl BitFlipConfig {
    /// Plain constructor.
    pub fn new(flip_bits: usize, seed: Option<u64>, target: BitFlipTarget) -> (r: BitFlipConfig)
        ensures
            r == (BitFlipConfig { flip_bits, seed, target }),
    {
        BitFlipConfig { flip_bits, seed, target }
    }

    /// Injection switched off (pass-through).
    pub fn disabled() -> (r: BitFlipConfig)
        ensures
            r == (BitFlipConfig { flip_bits: 0, seed: None, target: BitFlipTarget::FullFrame }),
    {
        BitFlipConfig { flip_bits: 0, seed: None, target: BitFlipTarget::FullFrame }
    }
}

impl Default for BitFlipConfig {
    fn default() -> (r: BitFlipConfig)
        ensures
            r == (BitFlipConfig { flip_bits: 0, seed: None, target: BitFlipTarget::FullFrame }),
    {
        BitFlipConfig::disabled()
    }
}

// ─────────────────────────────────────────
//  Pseudo random numbers
// ─────────────────────────────────────────

/// One xorshift64 step.
pub open spec fn xorshift_next(x: u64) -> u64 {
    let a = x ^ (x << 13u64);
    let b = a ^ (a >> 7u64);
    b ^ (b << 17u64)
}

/// The seed actually used: 0 is replaced by a fixed odd constant.
pub open spec fn normalized_seed(seed: u64) -> u64 {
    if seed == 0 { 0x9E37_79B9_7F4A_7C15u64 } else { seed }
}

/// xorshift64 generator.
#[derive(Debug, Clone, Copy)]
pub struct XorShift64 {
    pub state: u64,
}

impl XorShift64 {
    /// A generator seeded with `seed` (0 is replaced by a fixed constant).
    pub fn new(seed: u64) -> (r: XorShift64)
        ensures
            r.state == normalized_seed(seed),
    {
        let normalized = if seed == 0 { 0x9E37_79B9_7F4A_7C15 } else { seed };
        XorShift64 { state: normalized }
    }

    /// Advances the state and returns it.
    pub fn next_u64(&mut self) -> (r: u64)
        ensures
            r == xorshift_next(old(self).state),
            final(self).state == r,
    {
        let mut x = self.state;
        x = x ^ (x << 13);
        x = x ^ (x >> 7);
        x = x ^ (x << 17);
        self.state = x;
        x
    }

    /// A number in `[0, upper_exclusive)` from the next state.
    pub fn gen_index(&mut self, upper_exclusive: usize) -> (r: usize)
        requires
            upper_exclusive > 0,
        ensures
            final(self).state == xorshift_next(old(self).state),
            r == (xorshift_next(old(self).state) as usize) % upper_exclusive,
            r < upper_exclusive,
    {
        let v = self.next_u64();
        (v as usize) % upper_exclusive
    }
}

/// Nanoseconds since the Unix epoch, truncated to 64 bits (0 if the clock is
/// before the epoch).
#[verifier::external_body]
fn clock_nanos() -> (r: u64) {
    std::time::SystemTime::now().duration_since(std::time::UNIX_EPOCH).unwrap_or_default().as_nanos() as u64
}

/// Seed derivation from a clock reading.
pub open spec fn spec_seed_from_nanos(nanos: u64) -> u64 {
    nanos ^ ((nanos << 17u64) | (nanos >> 47u64)) ^ 0xA5A5_5A5A_0123_4567u64
}

/// Mixes a clock reading into a seed.
pub fn seed_from_nanos(nanos: u64) -> (r: u64)
    ensures
        r == spec_seed_from_nanos(nanos),
{
    let rotated = (nanos << 17) | (nanos >> 47);
    nanos ^ rotated ^ 0xA5A5_5A5A_0123_4567u64
}

/// A seed derived from the current time; what it is depends on the clock.
pub fn random_seed() -> (r: u64)
    ensures
        exists|nanos: u64| r == spec_seed_from_nanos(nanos),
{
    let nanos = clock_nanos();
    seed_from_nanos(nanos)
}

// ─────────────────────────────────────────
//  Target ranges and offsets
// ─────────────────────────────────────────

/// Byte range `[start, end)` of the target region in a buffer of `total_len` bytes.
pub open spec fn spec_target_range(total_len: int, target: BitFlipTarget) -> (int, int) {
    let h = if total_len < 32 { total_len } else { 32 };
    match target {
        BitFlipTarget::HeaderOnly => (0, h),
        BitFlipTarget::PayloadOnly => {
            let end = if total_len < 8 { 0 } else { total_len - 8 };
            if end < h { (h, h) } else { (h, end) }
        },
        BitFlipTarget::FullFrame => (0, total_len),
    }
}

/// The byte range of the target region in a buffer of `total_len` bytes.
pub fn target_byte_range(total_len: usize, target: BitFlipTarget) -> (r: (usize, usize))
    ensures
        r.0 == spec_target_range(total_len as int, target).0,
        r.1 == spec_target_range(total_len as int, target).1,
        r.0 <= r.1 <= total_len,
{
    let h = if total_len < FRAME_HEADER_BYTES { total_len } else { FRAME_HEADER_BYTES };
    match target {
        BitFlipTarget::HeaderOnly => (0, h),
        BitFlipTarget::PayloadOnly => {
            let end = total_len.saturating_sub(FRAME_FOOTER_BYTES);
            if end < h { (h, h) } else { (h, end) }
        },
        BitFlipTarget::FullFrame => (0, total_len),
    }
}

/// State of Floyd's sampling after `k` steps: the generator state and the
/// chosen offsets, drawing `flip` distinct offsets below `total`.
pub open spec fn floyd(state: u64, total: nat, flip: nat, k: nat) -> (u64, Set<int>)
    decreases k,
{
    if k == 0 {
        (state, Set::empty())
    } else {
        let (st, sel) = floyd(state, total, flip, (k - 1) as nat);
        let j = total - flip + (k - 1);
        let next = xorshift_next(st);
        let t = ((next as usize) % ((j + 1) as usize)) as int;
        if sel.contains(t) { (next, sel.insert(j)) } else { (next, sel.insert(t)) }
    }
}

proof fn lemma_floyd_props(state: u64, total: nat, flip: nat, k: nat)
    requires
        flip <= total,
        k <= flip,
        total <= usize::MAX,
    ensures
        floyd(state, total, flip, k).1.finite(),
        floyd(state, total, flip, k).1.len() == k,
        forall|x: int| #[trigger] floyd(state, total, flip, k).1.contains(x) ==> 0 <= x < total - flip + k,
    decreases k,
{
    if k > 0 {
        lemma_floyd_props(state, total, flip, (k - 1) as nat);
        let (st, sel) = floyd(state, total, flip, (k - 1) as nat);
        let j = total - flip + (k - 1);
        let next = xorshift_next(st);
        let t = ((next as usize) % ((j + 1) as usize)) as int;
        assert(!sel.contains(j));
        assert(0 <= t < j + 1);
    }
}

/// The elements of `s` as a set of integers.
pub open spec fn int_set(s: Seq<usize>) -> Set<int> {
    Set::new(|x: int| exists|i: int| 0 <= i < s.len() && s[i] as int == x)
}

/// Draws `flip_bits` distinct offsets below `total_bits` with Floyd's algorithm.
pub fn choose_unique_offsets(total_bits: usize, flip_bits: usize, rng: &mut XorShift64) -> (r: Vec<usize>)
    requires
        flip_bits <= total_bits,
    ensures
        r@.len() == flip_bits,
        r@.no_duplicates(),
        forall|i: int| 0 <= i < r@.len() ==> #[trigger] r@[i] < total_bits,
        int_set(r@) == floyd(old(rng).state, total_bits as nat, flip_bits as nat, flip_bits as nat).1,
        final(rng).state == floyd(old(rng).state, total_bits as nat, flip_bits as nat, flip_bits as nat).0,
{
    let mut selected: Vec<usize> = Vec::new();
    if flip_bits == 0 {
        proof {
            assert(int_set(selected@) =~= Set::<int>::empty());
        }
        return selected;
    }
    let ghost s0 = rng.state;
    let mut j: usize = total_bits - flip_bits;
    while j < total_bits
        invariant
            flip_bits <= total_bits,
            total_bits - flip_bits <= j <= total_bits,
            selected@.len() == j - (total_bits - flip_bits),
            selected@.no_duplicates(),
            forall|i: int| 0 <= i < selected@.len() ==> #[trigger] selected@[i] < j,
            ({
                let st = floyd(s0, total_bits as nat, flip_bits as nat, (j - (total_bits - flip_bits)) as nat);
                &&& rng.state == st.0
                &&& int_set(selected@) == st.1
            }),
        decreases total_bits - j,
    {
        let ghost k = (j - (total_bits - flip_bits)) as nat;
        let ghost before = selected@;
        let t = rng.gen_index(j + 1);
        let mut found = false;
        let mut i: usize = 0;
        while i < selected.len()
            invariant
                0 <= i <= selected@.len(),
                selected@ == before,
                found == exists|m: int| 0 <= m < i && selected@[m] == t,
            decreases selected@.len() - i,
        {
            if selected[i] == t {
                found = true;
            }
            i += 1;
        }
        let pick = if found { j } else { t };
        selected.push(pick);
        proof {
            let old_set = int_set(before);
            assert(found == before.contains(t));
            assert(!before.contains(j)) by {
                if before.contains(j) {
                    let m = choose|m: int| 0 <= m < before.len() && before[m] == j;
                    assert(before[m] < j);
                }
            }
            assert(int_set(selected@) =~= old_set.insert(pick as int)) by {
                assert forall|x: int| #[trigger] int_set(selected@).contains(x)
                    <==> old_set.insert(pick as int).contains(x) by {
                    if int_set(selected@).contains(x) {
                        let m = choose|m: int| 0 <= m < selected@.len() && selected@[m] as int == x;
                        if m < before.len() {
                            assert(before[m] as int == x);
                        }
                    }
                    if old_set.insert(pick as int).contains(x) {
                        if x == pick as int {
                            assert(selected@[before.len() as int] == pick);
                        } else {
                            let m = choose|m: int| 0 <= m < before.len() && before[m] as int == x;
                            assert(selected@[m] == before[m]);
                        }
                    }
                }
            }
            assert forall|a: int, b: int| 0 <= a < b < selected@.len() implies selected@[a] != selected@[b] by {
                if b == before.len() {
                    assert(before[a] != pick) by {
                        if found { assert(before[a] < j); } else {
                            if before[a] == t { assert(before.contains(t)); }
                        }
                    }
                }
            }
        }
        j += 1;
    }
    selected
}


// ─────────────────────────────────────────
//  Injection
// ─────────────────────────────────────────

/// Bit `b` (0 = least significant) of `x`.
pub open spec fn bit_of(x: u8, b: int) -> bool {
    (x >> (b as u8)) & 1u8 == 1u8
}

/// `new` is `old` with exactly the bits at the positions in `offs` toggled,
/// position `p` meaning bit `p % 8` of byte `start + p / 8`.
pub open spec fn flips_exactly(old: Seq<u8>, new: Seq<u8>, start: int, offs: Set<int>) -> bool {
    &&& new.len() == old.len()
    &&& forall|i: int, b: int| 0 <= i < old.len() && 0 <= b < 8 ==>
        (#[trigger] bit_of(new[i], b)) == (bit_of(old[i], b) != offs.contains((i - start) * 8 + b))
}

/// Number of bits in the target region of a buffer of `len` bytes.
pub open spec fn spec_available_bits(len: int, target: BitFlipTarget) -> int {
    (spec_target_range(len, target).1 - spec_target_range(len, target).0) * 8
}

/// `new` is `old` with `config.flip_bits` distinct bits of the target region
/// toggled and nothing else changed; with a seed, the bits are those that
/// Floyd's sampling draws from it.
pub open spec fn flipped_as_configured(old: Seq<u8>, new: Seq<u8>, config: BitFlipConfig) -> bool {
    let len = old.len() as int;
    let start = spec_target_range(len, config.target).0;
    let available = spec_available_bits(len, config.target);
    exists|offs: Set<int>| {
        &&& offs.finite()
        &&& offs.len() == config.flip_bits
        &&& (forall|p: int| #[trigger] offs.contains(p) ==> 0 <= p < available)
        &&& flips_exactly(old, new, start, offs)
        &&& (config.seed matches Some(seed) ==> offs == floyd(normalized_seed(seed), available as nat,
            config.flip_bits as nat, config.flip_bits as nat).1)
    }
}

proof fn lemma_toggle_bit(x: u8, k: u8, b: u8)
    requires
        k < 8,
        b < 8,
    ensures
        bit_of(x ^ (1u8 << k), b as int) == (bit_of(x, b as int) != (b == k)),
{
    assert(((x ^ (1u8 << k)) >> b) & 1u8 == 1u8 <==> (((x >> b) & 1u8 == 1u8) != (b == k))) by (bit_vector)
        requires k < 8u8, b < 8u8;
}

proof fn lemma_int_set_push(s: Seq<usize>, v: usize)
    ensures
        int_set(s.push(v)) == int_set(s).insert(v as int),
{
    assert forall|x: int| #[trigger] int_set(s.push(v)).contains(x) <==> int_set(s).insert(v as int).contains(x) by {
        if int_set(s.push(v)).contains(x) {
            let m = choose|m: int| 0 <= m < s.push(v).len() && s.push(v)[m] as int == x;
            if m < s.len() {
                assert(s[m] as int == x);
            }
        }
        if int_set(s).insert(v as int).contains(x) && x != v as int {
            let m = choose|m: int| 0 <= m < s.len() && s[m] as int == x;
            assert(s.push(v)[m] == s[m]);
        }
        if x == v as int {
            assert(s.push(v)[s.len() as int] == v);
        }
    }
    assert(int_set(s.push(v)) =~= int_set(s).insert(v as int));
}

/// Flips bits of `bytes` as `config` says.
///
/// Nothing happens when `config.flip_bits` is 0. Otherwise exactly
/// `flip_bits` distinct bits of the target region are flipped, chosen by
/// Floyd's sampling from the seed (from the clock when there is none), or
/// the call fails without touching `bytes` when the region has fewer bits.
pub fn apply_bit_flip(bytes: &mut [u8], config: BitFlipConfig) -> (r: Result<(), BitFlipError>)
    requires
        old(bytes)@.len() * 8 <= usize::MAX,
    ensures
        ({
            let len = old(bytes)@.len() as int;
            let start = spec_target_range(len, config.target).0;
            let available = spec_available_bits(len, config.target);
            &&& (r is Ok <==> (config.flip_bits == 0 || config.flip_bits <= available))
            &&& config.flip_bits == 0 ==> final(bytes)@ == old(bytes)@
            &&& (r is Err ==> final(bytes)@ == old(bytes)@ && r == Err::<(), BitFlipError>(
                BitFlipError::FlipBitsOutOfRange { flip_bits: config.flip_bits, available_bits: available as usize }))
            &&& (r is Ok && config.flip_bits > 0 ==> flipped_as_configured(old(bytes)@, final(bytes)@, config))
        }),
{
    if config.flip_bits == 0 {
        return Ok(());
    }
    let (start, end) = target_byte_range(bytes.len(), config.target);
    let available_bits = (end - start) * 8;
    if config.flip_bits > available_bits {
        return Err(BitFlipError::FlipBitsOutOfRange { flip_bits: config.flip_bits, available_bits });
    }
    let seed = match config.seed {
        Some(s) => s,
        None => random_seed(),
    };
    let mut rng = XorShift64::new(seed);
    let offsets = choose_unique_offsets(available_bits, config.flip_bits, &mut rng);
    let ghost orig = bytes@;
    let ghost offs = int_set(offsets@);
    proof {
        lemma_floyd_props(normalized_seed(seed), available_bits as nat, config.flip_bits as nat, config.flip_bits as nat);
        assert(int_set(offsets@.subrange(0, 0)) =~= Set::<int>::empty());
    }
    let mut m: usize = 0;
    while m < offsets.len()
        invariant
            0 <= m <= offsets@.len(),
            offsets@.no_duplicates(),
            forall|i: int| 0 <= i < offsets@.len() ==> #[trigger] offsets@[i] < available_bits,
            start + available_bits / 8 <= orig.len(),
            available_bits == (end - start) * 8,
            flips_exactly(orig, bytes@, start as int, int_set(offsets@.subrange(0, m as int))),
        decreases offsets@.len() - m,
    {
        let o = offsets[m];
        let byte_index = start + o / 8;
        let bit_index: u8 = (o % 8) as u8;
        let ghost cur = bytes@;
        let ghost sub = offsets@.subrange(0, m as int);
        assert(byte_index < orig.len()) by (nonlinear_arith)
            requires o < available_bits, available_bits == (end - start) * 8, start + (end - start) <= orig.len(),
                byte_index == start + o / 8;
        bytes[byte_index] = bytes[byte_index] ^ (1u8 << bit_index);
        proof {
            assert(offsets@.subrange(0, m + 1) =~= sub.push(o));
            lemma_int_set_push(sub, o);
            assert(!int_set(sub).contains(o as int)) by {
                if int_set(sub).contains(o as int) {
                    let q = choose|q: int| 0 <= q < sub.len() && sub[q] as int == o as int;
                    assert(offsets@[q] == offsets@[m as int]);
                }
            }
            assert forall|i: int, b: int| 0 <= i < orig.len() && 0 <= b < 8 implies
                (#[trigger] bit_of(bytes@[i], b)) == (bit_of(orig[i], b) != int_set(sub.push(o)).contains((i - start) * 8 + b)) by {
                if i == byte_index {
                    lemma_toggle_bit(cur[i], bit_index, b as u8);
                    assert((b == bit_index as int) <==> ((i - start) * 8 + b == o as int)) by (nonlinear_arith)
                        requires i == start + o / 8, bit_index == o % 8, 0 <= b < 8;
                } else {
                    assert(bytes@[i] == cur[i]);
                    assert((i - start) * 8 + b != o as int) by (nonlinear_arith)
                        requires i != start + o / 8, 0 <= b < 8, i >= 0, start >= 0;
                }
            }
        }
        m += 1;
    }
    proof {
        assert(offsets@.subrange(0, offsets@.len() as int) =~= offsets@);
        assert(forall|p: int| #[trigger] offs.contains(p) ==> 0 <= p < available_bits);
    }
    Ok(())
}

// ─────────────────────────────────────────
//  Buffering writer
// ─────────────────────────────────────────

/// A writer that buffers everything and injects the bit flips when finished.
pub struct BitFlipWriter<W> {
    pub inner: W,
    pub config: BitFlipConfig,
    pub buffer: Vec<u8>,
}

impl<W> BitFlipWriter<W> {
    /// Wraps `inner` with an empty buffer.
    pub fn new(inner: W, config: BitFlipConfig) -> (r: BitFlipWriter<W>)
        ensures
            r.inner == inner,
            r.config == config,
            r.buffer@ == Seq::<u8>::empty(),
    {
        BitFlipWriter { inner, config, buffer: Vec::new() }
    }

    /// Number of bytes buffered so far.
    pub fn buffered_len(&self) -> (r: usize)
        ensures
            r == self.buffer@.len(),
    {
        self.buffer.len()
    }

    /// Appends `buf` to the buffer and reports it as fully written.
    pub fn write_bytes(&mut self, buf: &[u8]) -> (r: usize)
        ensures
            final(self).buffer@ == old(self).buffer@ + buf@,
            final(self).inner == old(self).inner,
            final(self).config == old(self).config,
            r == buf@.len(),
    {
        let mut i: usize = 0;
        let ghost start = self.buffer@;
        while i < buf.len()
            invariant
                0 <= i <= buf@.len(),
                self.buffer@ == start + buf@.subrange(0, i as int),
                self.inner == old(self).inner,
                self.config == old(self).config,
            decreases buf@.len() - i,
        {
            self.buffer.push(buf[i]);
            i += 1;
            assert(self.buffer@ =~= start + buf@.subrange(0, i as int));
        }
        assert(buf@.subrange(0, buf@.len() as int) =~= buf@);
        buf.len()
    }

    /// Injects the configured flips into the buffered bytes and hands back
    /// the inner writer with the bytes to be written to it.
    pub fn finish(self) -> (r: Result<(W, Vec<u8>), BitFlipWriterError>)
        requires
            self.buffer@.len() * 8 <= usize::MAX,
        ensures
            ({
                let len = self.buffer@.len() as int;
                let available = spec_available_bits(len, self.config.target);
                &&& (r is Ok <==> (self.config.flip_bits == 0 || self.config.flip_bits <= available))
                &&& (r matches Ok((w, out)) ==> w == self.inner && out@.len() == self.buffer@.len())
                &&& (r matches Ok((_, out)) ==> (self.config.flip_bits == 0 ==> out@ == self.buffer@))
                &&& (r matches Ok((_, out)) ==> (self.config.flip_bits > 0 ==> flipped_as_configured(
                    self.buffer@, out@, self.config)))
                &&& (r is Err ==> (r matches Err(BitFlipWriterError::BitFlip(BitFlipError::FlipBitsOutOfRange {
                    flip_bits, available_bits })) && flip_bits == self.config.flip_bits && available_bits == available))
            }),
    {
        let mut buffer = self.buffer;
        match apply_bit_flip(buffer.as_mut_slice(), self.config) {
            Ok(()) => Ok((self.inner, buffer)),
            Err(e) => Err(BitFlipWriterError::BitFlip(e)),
        }
    }
}

} // verus!
