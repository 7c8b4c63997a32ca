//! Binary HLAC (higher-order local autocorrelation) features of 3x3
//! neighbourhoods: for each of 25 displacement patterns, the number of
//! interior pixels at which every pixel of the pattern is on.

use vstd::prelude::*;

verus! {

/// Number of HLAC patterns.
pub const HLAC_DIM: usize = 25;

/// Bytes processed together by the lane-wise extractor.
pub const SIMD_LANES: usize = 16;

/// The 25 displacement patterns `(dx, dy)` up to second order within a 3x3
/// window, each starting with the centre: the centre alone, the four
/// first-order pairs and the twenty second-order triples that differ by
/// more than a translation.
pub open spec fn hlac25_masks() -> Seq<Seq<(isize, isize)>> {
    seq![
        seq![(0isize, 0isize)],
        seq![(0isize, 0isize), (1isize, 0isize)],
        seq![(0isize, 0isize), (1isize, 1isize)],
        seq![(0isize, 0isize), (0isize, 1isize)],
        seq![(0isize, 0isize), (-1isize, 1isize)],
        seq![(0isize, 0isize), (-1isize, -1isize), (0isize, -1isize)],
        seq![(0isize, 0isize), (-1isize, -1isize), (1isize, -1isize)],
        seq![(0isize, 0isize), (-1isize, -1isize), (-1isize, 0isize)],
        seq![(0isize, 0isize), (-1isize, -1isize), (1isize, 0isize)],
        seq![(0isize, 0isize), (-1isize, -1isize), (-1isize, 1isize)],
        seq![(0isize, 0isize), (-1isize, -1isize), (0isize, 1isize)],
        seq![(0isize, 0isize), (-1isize, -1isize), (1isize, 1isize)],
        seq![(0isize, 0isize), (-1isize, 0isize), (-1isize, 1isize)],
        seq![(0isize, 0isize), (-1isize, 0isize), (0isize, -1isize)],
        seq![(0isize, 0isize), (-1isize, 1isize), (0isize, -1isize)],
        seq![(0isize, 0isize), (0isize, -1isize), (0isize, 1isize)],
        seq![(0isize, 0isize), (0isize, -1isize), (1isize, 1isize)],
        seq![(0isize, 0isize), (-1isize, 0isize), (1isize, -1isize)],
        seq![(0isize, 0isize), (-1isize, 1isize), (1isize, -1isize)],
        seq![(0isize, 0isize), (0isize, 1isize), (1isize, -1isize)],
        seq![(0isize, 0isize), (1isize, -1isize), (1isize, 1isize)],
        seq![(0isize, 0isize), (-1isize, 0isize), (1isize, 0isize)],
        seq![(0isize, 0isize), (-1isize, 0isize), (1isize, 1isize)],
        seq![(0isize, 0isize), (-1isize, 1isize), (1isize, 0isize)],
        seq![(0isize, 0isize), (-1isize, 1isize), (1isize, 1isize)]
    ]
}

fn pattern1(a: (isize, isize)) -> (r: Vec<(isize, isize)>)
    ensures
        r@ == seq![a],
{
    let mut v: Vec<(isize, isize)> = Vec::new();
    v.push(a);
    v
}

fn pattern2(a: (isize, isize), b: (isize, isize)) -> (r: Vec<(isize, isize)>)
    ensures
        r@ == seq![a, b],
{
    let mut v: Vec<(isize, isize)> = Vec::new();
    v.push(a);
    v.push(b);
    v
}

fn pattern3(a: (isize, isize), b: (isize, isize), c: (isize, isize)) -> (r: Vec<(isize, isize)>)
    ensures
        r@ == seq![a, b, c],
{
    let mut v: Vec<(isize, isize)> = Vec::new();
    v.push(a);
    v.push(b);
    v.push(c);
    v
}

/// The 25 patterns of `hlac25_masks`.
pub fn hlac25_offsets() -> (r: Vec<Vec<(isize, isize)>>)
    ensures
        masks_view(r@) == hlac25_masks(),
{
    let mut r: Vec<Vec<(isize, isize)>> = Vec::with_capacity(25);
    r.push(pattern1((0, 0)));
    r.push(pattern2((0, 0), (1, 0)));
    r.push(pattern2((0, 0), (1, 1)));
    r.push(pattern2((0, 0), (0, 1)));
    r.push(pattern2((0, 0), (-1, 1)));
    r.push(pattern3((0, 0), (-1, -1), (0, -1)));
    r.push(pattern3((0, 0), (-1, -1), (1, -1)));
    r.push(pattern3((0, 0), (-1, -1), (-1, 0)));
    r.push(pattern3((0, 0), (-1, -1), (1, 0)));
    r.push(pattern3((0, 0), (-1, -1), (-1, 1)));
    r.push(pattern3((0, 0), (-1, -1), (0, 1)));
    r.push(pattern3((0, 0), (-1, -1), (1, 1)));
    r.push(pattern3((0, 0), (-1, 0), (-1, 1)));
    r.push(pattern3((0, 0), (-1, 0), (0, -1)));
    r.push(pattern3((0, 0), (-1, 1), (0, -1)));
    r.push(pattern3((0, 0), (0, -1), (0, 1)));
    r.push(pattern3((0, 0), (0, -1), (1, 1)));
    r.push(pattern3((0, 0), (-1, 0), (1, -1)));
    r.push(pattern3((0, 0), (-1, 1), (1, -1)));
    r.push(pattern3((0, 0), (0, 1), (1, -1)));
    r.push(pattern3((0, 0), (1, -1), (1, 1)));
    r.push(pattern3((0, 0), (-1, 0), (1, 0)));
    r.push(pattern3((0, 0), (-1, 0), (1, 1)));
    r.push(pattern3((0, 0), (-1, 1), (1, 0)));
    r.push(pattern3((0, 0), (-1, 1), (1, 1)));
    assert(masks_view(r@) =~= hlac25_masks());
    r
}

/// The displacements of a list of patterns.
pub open spec fn masks_view(v: Seq<Vec<(isize, isize)>>) -> Seq<Seq<(isize, isize)>> {
    Seq::new(v.len(), |i: int| v[i]@)
}

/// Every displacement of every pattern is at most one pixel in each direction.
pub open spec fn offsets_in_window(masks: Seq<Seq<(isize, isize)>>) -> bool {
    forall|m: int, k: int| 0 <= m < masks.len() && 0 <= k < masks[m].len() ==>
        -1 <= (#[trigger] masks[m][k]).0 <= 1 && -1 <= masks[m][k].1 <= 1
}

/// Every pattern starts with the centre.
pub open spec fn starts_at_centre(masks: Seq<Seq<(isize, isize)>>) -> bool {
    forall|m: int| 0 <= m < masks.len() ==> (#[trigger] masks[m]).len() >= 1 && masks[m][0] == (0isize, 0isize)
}

proof fn lemma_table_shape()
    ensures
        hlac25_masks().len() == 25,
        offsets_in_window(hlac25_masks()),
        starts_at_centre(hlac25_masks()),
{
    let t = hlac25_masks();
    assert forall|m: int, k: int| 0 <= m < t.len() && 0 <= k < t[m].len() implies
        -1 <= (#[trigger] t[m][k]).0 <= 1 && -1 <= t[m][k].1 <= 1 by {
        assert(0 <= m < 25);
    }
}

/// A 25-dimensional binary HLAC feature.
#[derive(Debug, Clone, PartialEq, Eq)]
pub struct HlacFeature {
    pub counts: [u64; 25],
}

impl HlacFeature {
    /// The feature with the given counts.
    pub fn new(counts: [u64; 25]) -> (r: HlacFeature)
        ensures
            r.counts@ == counts@,
    {
        HlacFeature { counts }
    }

    /// The all-zero feature.
    pub fn zeros() -> (r: HlacFeature)
        ensures
            forall|m: int| 0 <= m < 25 ==> #[trigger] r.counts@[m] == 0,
    {
        HlacFeature { counts: [0u64; 25] }
    }
}

impl Default for HlacFeature {
    fn default() -> (r: HlacFeature)
        ensures
            forall|m: int| 0 <= m < 25 ==> #[trigger] r.counts@[m] == 0,
    {
        HlacFeature::zeros()
    }
}

/// Errors of HLAC extraction.
#[derive(Debug, Clone, Copy, PartialEq, Eq, Structural)]
pub enum HlacError {
    /// The image is smaller than 3x3.
    ImageTooSmall { width: usize, height: usize },
    /// The buffer does not hold `width * height` pixels.
    InvalidBufferLength { width: usize, height: usize, len: usize },
    /// A pixel of a 0/1 image holds another value.
    NonBinaryValue { x: usize, y: usize, value: u8 },
}

/// The buffer holds exactly `width * height` pixels.
pub open spec fn buffer_fits(width: usize, height: usize, len: usize) -> bool {
    width * height == len
}

fn validate_buffer_len(width: usize, height: usize, len: usize) -> (r: Result<(), HlacError>)
    ensures
        buffer_fits(width, height, len) ==> r is Ok,
        !buffer_fits(width, height, len) ==> r == Err::<(), HlacError>(HlacError::InvalidBufferLength { width, height, len }),
{
    let expected = match width.checked_mul(height) {
        Some(n) => n,
        None => return Err(HlacError::InvalidBufferLength { width, height, len }),
    };
    if len != expected {
        return Err(HlacError::InvalidBufferLength { width, height, len });
    }
    Ok(())
}

/// Checks that an image of `width * height` pixels held in `len` values can
/// be scanned: at least 3x3, with exactly `width * height` values.
pub fn check_image(width: usize, height: usize, len: usize) -> (r: Result<(), HlacError>)
    ensures
        !(width >= 3 && height >= 3) ==> r == Err::<(), HlacError>(HlacError::ImageTooSmall { width, height }),
        width >= 3 && height >= 3 && !buffer_fits(width, height, len) ==> r == Err::<(), HlacError>(
            HlacError::InvalidBufferLength { width, height, len }),
        width >= 3 && height >= 3 && buffer_fits(width, height, len) ==> r is Ok,
{
    if width < 3 || height < 3 {
        return Err(HlacError::ImageTooSmall { width, height });
    }
    validate_buffer_len(width, height, len)
}

/// Thresholds luminance values: a pixel is on when it is above `threshold`.
/// `src` holds `width * height` values in row-major order.
pub fn u8_to_binary_array(src: &[u8], width: usize, height: usize, threshold: u8) -> (r: Result<Vec<bool>, HlacError>)
    ensures
        !buffer_fits(width, height, src.len()) ==> r == Err::<Vec<bool>, HlacError>(
            HlacError::InvalidBufferLength { width, height, len: src.len() }),
        buffer_fits(width, height, src.len()) ==> (r matches Ok(v)
            && v@ == Seq::new(src@.len(), |i: int| src@[i] > threshold)),
{
    match validate_buffer_len(width, height, src.len()) {
        Ok(()) => {},
        Err(e) => return Err(e),
    }
    let mut out: Vec<bool> = Vec::with_capacity(src.len());
    let mut i: usize = 0;
    while i < src.len()
        invariant
            0 <= i <= src@.len(),
            out@ == Seq::new(i as nat, |j: int| src@[j] > threshold),
        decreases src@.len() - i,
    {
        out.push(src[i] > threshold);
        i += 1;
        assert(out@ =~= Seq::new(i as nat, |j: int| src@[j] > threshold));
    }
    Ok(out)
}

// ─────────────────────────────────────────
//  Counting
// ─────────────────────────────────────────

/// The pixel at `(x, y)` displaced by `d` is on.
pub open spec fn offset_on(img: Seq<bool>, w: int, x: int, y: int, d: (isize, isize)) -> bool {
    img[(y + d.1) * w + (x + d.0)]
}

/// Every pixel of `mask` placed at `(x, y)` is on.
pub open spec fn mask_hits(img: Seq<bool>, w: int, x: int, y: int, mask: Seq<(isize, isize)>) -> bool {
    forall|k: int| 0 <= k < mask.len() ==> #[trigger] offset_on(img, w, x, y, mask[k])
}

/// Hits of `mask` in row `y` at `x` in `1 .. xe`.
pub open spec fn row_count(img: Seq<bool>, w: int, y: int, mask: Seq<(isize, isize)>, xe: nat) -> nat
    decreases xe,
{
    if xe <= 1 {
        0
    } else {
        row_count(img, w, y, mask, (xe - 1) as nat) + if mask_hits(img, w, xe - 1, y, mask) { 1nat } else { 0nat }
    }
}

/// Hits of `mask` at interior positions of rows `1 .. ye`.
pub open spec fn area_count(img: Seq<bool>, w: nat, mask: Seq<(isize, isize)>, ye: nat) -> nat
    decreases ye,
{
    if ye <= 1 {
        0
    } else {
        area_count(img, w, mask, (ye - 1) as nat) + row_count(img, w as int, ye - 1, mask, (w - 1) as nat)
    }
}

/// The HLAC counts of a `w` x `h` image.
pub open spec fn spec_hlac_counts(img: Seq<bool>, w: nat, h: nat, masks: Seq<Seq<(isize, isize)>>) -> Seq<nat> {
    Seq::new(masks.len(), |m: int| area_count(img, w, masks[m], (h - 1) as nat))
}

proof fn lemma_row_count_bound(img: Seq<bool>, w: int, y: int, mask: Seq<(isize, isize)>, xe: nat)
    ensures
        row_count(img, w, y, mask, xe) <= if xe >= 1 { (xe - 1) as nat } else { 0 },
    decreases xe,
{
    if xe > 1 {
        lemma_row_count_bound(img, w, y, mask, (xe - 1) as nat);
    }
}

proof fn lemma_area_count_bound(img: Seq<bool>, w: nat, mask: Seq<(isize, isize)>, ye: nat)
    requires
        w >= 3,
    ensures
        area_count(img, w, mask, ye) <= if ye >= 1 { (ye - 1) * (w - 2) } else { 0 },
    decreases ye,
{
    if ye > 1 {
        lemma_area_count_bound(img, w, mask, (ye - 1) as nat);
        lemma_row_count_bound(img, w as int, ye - 1, mask, (w - 1) as nat);
        assert((ye - 2) * (w - 2) + (w - 2) == (ye - 1) * (w - 2)) by (nonlinear_arith);
    }
}

/// `v + d` for a displacement of at most one.
fn shift(v: usize, d: isize) -> (r: usize)
    requires
        -1 <= d <= 1,
        v >= 1,
        v < usize::MAX,
    ensures
        r == v + d,
{
    if d < 0 {
        v - 1
    } else if d > 0 {
        v + 1
    } else {
        v
    }
}

/// The HLAC extractor over the 25 patterns of a 3x3 window.
#[derive(Debug, Clone)]
pub struct HlacExtractor {
    masks: Vec<Vec<(isize, isize)>>,
}

impl HlacExtractor {
    /// The patterns the extractor counts.
    pub closed spec fn masks(&self) -> Seq<Seq<(isize, isize)>> {
        masks_view(self.masks@)
    }

    /// The standard extractor over the 25 patterns of `hlac25_masks`.
    pub fn new_binary_25() -> (r: HlacExtractor)
        ensures
            r.masks() == hlac25_masks(),
    {
        HlacExtractor { masks: hlac25_offsets() }
    }

    /// Whether `mask` `m` hits at `(x, y)` of a `width`-wide image.
    fn hits_at(&self, image: &[bool], width: usize, height: usize, x: usize, y: usize, m: usize) -> (r: bool)
        requires
            self.masks() == hlac25_masks(),
            width >= 3,
            height >= 3,
            image.len() == width * height,
            1 <= x < width - 1,
            1 <= y < height - 1,
            m < 25,
        ensures
            r == mask_hits(image@, width as int, x as int, y as int, self.masks()[m as int]),
    {
        proof { lemma_table_shape(); }
        let ghost mask = self.masks()[m as int];
        assert(self.masks@[m as int]@ == mask);
        let n = self.masks[m].len();
        let mut k: usize = 0;
        while k < n
            invariant
                self.masks() == hlac25_masks(),
                offsets_in_window(hlac25_masks()),
                hlac25_masks().len() == 25,
                m < 25,
                mask == self.masks()[m as int],
                self.masks@[m as int]@ == mask,
                n == mask.len(),
                0 <= k <= n,
                width >= 3,
                height >= 3,
                image.len() == width * height,
                1 <= x < width - 1,
                1 <= y < height - 1,
                forall|j: int| 0 <= j < k ==> #[trigger] offset_on(image@, width as int, x as int, y as int, mask[j]),
            decreases n - k,
        {
            let (dx, dy) = self.masks[m][k];
            assert((dx, dy) == mask[k as int]);
            let yy = shift(y, dy);
            let xx = shift(x, dx);
            proof {
                assert(yy * width + xx < width * height) by (nonlinear_arith)
                    requires yy < height, xx < width, width >= 3;
            }
            assert((y as int + dy as int) * (width as int) + (x as int + dx as int) == (yy * width + xx) as int);
            if !image[yy * width + xx] {
                assert(!offset_on(image@, width as int, x as int, y as int, mask[k as int]));
                return false;
            }
            k += 1;
        }
        true
    }

    /// Counts every pattern at every interior position.
    fn extract_core_unchecked(&self, image: &[bool], width: usize, height: usize) -> (r: HlacFeature)
        requires
            self.masks() == hlac25_masks(),
            width >= 3,
            height >= 3,
            image.len() == width * height,
        ensures
            forall|m: int| 0 <= m < 25 ==> #[trigger] r.counts@[m] as nat
                == spec_hlac_counts(image@, width as nat, height as nat, hlac25_masks())[m],
    {
        proof { lemma_table_shape(); }
        let mut counts = [0u64; 25];
        let mut y: usize = 1;
        while y < height - 1
            invariant
                self.masks() == hlac25_masks(),
                hlac25_masks().len() == 25,
                width >= 3,
                height >= 3,
                image.len() == width * height,
                1 <= y <= height - 1,
                forall|m: int| 0 <= m < 25 ==> #[trigger] counts@[m] as nat
                    == area_count(image@, width as nat, hlac25_masks()[m], y as nat),
            decreases height - y,
        {
            let mut x: usize = 1;
            while x < width - 1
                invariant
                    self.masks() == hlac25_masks(),
                    hlac25_masks().len() == 25,
                    width >= 3,
                    height >= 3,
                    image.len() == width * height,
                    1 <= y < height - 1,
                    1 <= x <= width - 1,
                    forall|m: int| 0 <= m < 25 ==> #[trigger] counts@[m] as nat
                        == area_count(image@, width as nat, hlac25_masks()[m], y as nat)
                            + row_count(image@, width as int, y as int, hlac25_masks()[m], x as nat),
                decreases width - x,
            {
                let mut m: usize = 0;
                while m < HLAC_DIM
                    invariant
                        self.masks() == hlac25_masks(),
                        hlac25_masks().len() == 25,
                        width >= 3,
                        height >= 3,
                        image.len() == width * height,
                        1 <= y < height - 1,
                        1 <= x < width - 1,
                        0 <= m <= 25,
                        forall|j: int| 0 <= j < m ==> #[trigger] counts@[j] as nat
                            == area_count(image@, width as nat, hlac25_masks()[j], y as nat)
                                + row_count(image@, width as int, y as int, hlac25_masks()[j], (x + 1) as nat),
                        forall|j: int| m <= j < 25 ==> #[trigger] counts@[j] as nat
                            == area_count(image@, width as nat, hlac25_masks()[j], y as nat)
                                + row_count(image@, width as int, y as int, hlac25_masks()[j], x as nat),
                    decreases 25 - m,
                {
                    let hit = self.hits_at(image, width, height, x, y, m);
                    if hit {
                        proof {
                            let mask = hlac25_masks()[m as int];
                            lemma_area_count_bound(image@, width as nat, mask, y as nat);
                            lemma_row_count_bound(image@, width as int, y as int, mask, x as nat);
                            assert((y - 1) * (width - 2) + (x - 1) < width * height) by (nonlinear_arith)
                                requires 1 <= y < height - 1, 1 <= x < width - 1, width >= 3;
                            assert(width * height <= usize::MAX);
                        }
                        counts[m] = counts[m] + 1;
                    }
                    m += 1;
                }
                x += 1;
            }
            proof {
                assert forall|m: int| 0 <= m < 25 implies #[trigger] counts@[m] as nat
                    == area_count(image@, width as nat, hlac25_masks()[m], (y + 1) as nat) by {}
            }
            y += 1;
        }
        HlacFeature::new(counts)
    }

    fn validate_shape(width: usize, height: usize) -> (r: Result<(), HlacError>)
        ensures
            width >= 3 && height >= 3 ==> r is Ok,
            !(width >= 3 && height >= 3) ==> r == Err::<(), HlacError>(HlacError::ImageTooSmall { width, height }),
    {
        if width < 3 || height < 3 {
            return Err(HlacError::ImageTooSmall { width, height });
        }
        Ok(())
    }

    /// Binary HLAC of a `bool` image (`true` = on) of `width * height`
    /// pixels in row-major order.
    pub fn extract_binary_bool(&self, image: &[bool], width: usize, height: usize) -> (r: Result<HlacFeature, HlacError>)
        requires
            self.masks() == hlac25_masks(),
        ensures
            !(width >= 3 && height >= 3) ==> r == Err::<HlacFeature, HlacError>(HlacError::ImageTooSmall { width, height }),
            width >= 3 && height >= 3 && !buffer_fits(width, height, image.len()) ==> r == Err::<HlacFeature, HlacError>(
                HlacError::InvalidBufferLength { width, height, len: image.len() }),
            width >= 3 && height >= 3 && buffer_fits(width, height, image.len()) ==> (r matches Ok(f)
                && forall|m: int| 0 <= m < 25 ==> #[trigger] f.counts@[m] as nat
                    == spec_hlac_counts(image@, width as nat, height as nat, hlac25_masks())[m]),
    {
        match Self::validate_shape(width, height) {
            Ok(()) => {},
            Err(e) => return Err(e),
        }
        match validate_buffer_len(width, height, image.len()) {
            Ok(()) => {},
            Err(e) => return Err(e),
        }
        Ok(self.extract_core_unchecked(image, width, height))
    }
}

/// The on-pixels of a 0/1 image.
pub open spec fn ones(image: Seq<u8>) -> Seq<bool> {
    Seq::new(image.len(), |i: int| image[i] == 1)
}

/// The first of the first `k` pixels that is neither 0 nor 1.
pub open spec fn first_non_binary(image: Seq<u8>, k: nat) -> Option<nat>
    decreases k,
{
    if k == 0 {
        None
    } else {
        match first_non_binary(image, (k - 1) as nat) {
            Some(i) => Some(i),
            None => if image[k - 1] > 1 { Some((k - 1) as nat) } else { None },
        }
    }
}

proof fn lemma_first_non_binary_none(image: Seq<u8>, k: nat)
    requires
        k <= image.len(),
        first_non_binary(image, k) is None,
    ensures
        forall|i: int| 0 <= i < k ==> #[trigger] image[i] <= 1,
    decreases k,
{
    if k > 0 {
        lemma_first_non_binary_none(image, (k - 1) as nat);
    }
}

proof fn lemma_first_non_binary_sticks(image: Seq<u8>, k: nat, m: nat)
    requires
        k <= m,
        first_non_binary(image, k) is Some,
    ensures
        first_non_binary(image, m) == first_non_binary(image, k),
    decreases m - k,
{
    if k < m {
        lemma_first_non_binary_sticks(image, k, (m - 1) as nat);
    }
}

/// The error for the first pixel that is neither 0 nor 1, if any.
pub open spec fn spec_binary_check(image: Seq<u8>, width: usize) -> Result<(), HlacError> {
    match first_non_binary(image, image.len()) {
        None => Ok(()),
        Some(i) => Err(HlacError::NonBinaryValue {
            x: (i % (width as nat)) as usize,
            y: (i / (width as nat)) as usize,
            value: image[i as int],
        }),
    }
}

/// The hits of `mask` placed at `x + l` for the lanes `l` of a row.
pub open spec fn lane_hits(image: Seq<u8>, w: int, x: int, y: int, mask: Seq<(isize, isize)>, l: int) -> bool {
    mask_hits(ones(image), w, x + l, y, mask)
}

proof fn lemma_and_binary(a: u8, b: u8)
    requires
        a <= 1,
        b <= 1,
    ensures
        (a & b) <= 1,
        ((a & b) == 1) == (a == 1 && b == 1),
{
    assert((a & b) <= 1 && (((a & b) == 1) == (a == 1 && b == 1))) by (bit_vector)
        requires a <= 1, b <= 1;
}

/// The 16 bytes of the row that a pattern offset `d` reads for the lanes at `x`.
fn load_lanes(image: &[u8], width: usize, height: usize, y: usize, x: usize, d: (isize, isize)) -> (r: [u8; 16])
    requires
        width >= 3,
        height >= 3,
        image.len() == width * height,
        1 <= y < height - 1,
        1 <= x,
        x + 16 <= width - 1,
        -1 <= d.0 <= 1,
        -1 <= d.1 <= 1,
    ensures
        forall|l: int| 0 <= l < 16 ==> r@[l] == image@[(y + d.1) * width + (x + l + d.0)],
{
    let yy = shift(y, d.1);
    let xx = shift(x, d.0);
    proof {
        assert(yy * width + xx + 16 <= width * height) by (nonlinear_arith)
            requires yy < height, xx + 16 <= width, width >= 3;
    }
    let start = yy * width + xx;
    let mut lanes = [0u8; 16];
    let mut l: usize = 0;
    while l < 16
        invariant
            0 <= l <= 16,
            start + 16 <= image.len(),
            start == (y + d.1) * width + (x + d.0),
            forall|j: int| 0 <= j < l ==> lanes@[j] == image@[start + j],
        decreases 16 - l,
    {
        lanes[l] = image[start + l];
        l += 1;
    }
    lanes
}

impl HlacExtractor {
    fn validate_binary_u8_values(&self, image: &[u8], width: usize) -> (r: Result<(), HlacError>)
        requires
            width >= 1,
        ensures
            r == spec_binary_check(image@, width),
    {
        let mut i: usize = 0;
        while i < image.len()
            invariant
                0 <= i <= image@.len(),
                width >= 1,
                first_non_binary(image@, i as nat) is None,
            decreases image@.len() - i,
        {
            if image[i] > 1 {
                proof { lemma_first_non_binary_sticks(image@, (i + 1) as nat, image@.len()); }
                return Err(HlacError::NonBinaryValue { x: i % width, y: i / width, value: image[i] });
            }
            i += 1;
        }
        Ok(())
    }

    /// Binary HLAC of a 0/1 `u8` image (1 = on) of `width * height` pixels
    /// in row-major order; other values are refused.
    pub fn extract_binary_u8(&self, image: &[u8], width: usize, height: usize) -> (r: Result<HlacFeature, HlacError>)
        requires
            self.masks() == hlac25_masks(),
        ensures
            !(width >= 3 && height >= 3) ==> r == Err::<HlacFeature, HlacError>(HlacError::ImageTooSmall { width, height }),
            width >= 3 && height >= 3 && !buffer_fits(width, height, image.len()) ==> r == Err::<HlacFeature, HlacError>(
                HlacError::InvalidBufferLength { width, height, len: image.len() }),
            width >= 3 && height >= 3 && buffer_fits(width, height, image.len()) && spec_binary_check(image@, width) is Err
                ==> r == Err::<HlacFeature, HlacError>(spec_binary_check(image@, width)->Err_0),
            width >= 3 && height >= 3 && buffer_fits(width, height, image.len()) && spec_binary_check(image@, width) is Ok
                ==> (r matches Ok(f) && forall|m: int| 0 <= m < 25 ==> #[trigger] f.counts@[m] as nat
                    == spec_hlac_counts(ones(image@), width as nat, height as nat, hlac25_masks())[m]),
    {
        match Self::validate_shape(width, height) {
            Ok(()) => {},
            Err(e) => return Err(e),
        }
        match validate_buffer_len(width, height, image.len()) {
            Ok(()) => {},
            Err(e) => return Err(e),
        }
        match self.validate_binary_u8_values(image, width) {
            Ok(()) => {},
            Err(e) => return Err(e),
        }
        let mut on: Vec<bool> = Vec::with_capacity(image.len());
        let mut i: usize = 0;
        while i < image.len()
            invariant
                0 <= i <= image@.len(),
                on@ == ones(image@).subrange(0, i as int),
            decreases image@.len() - i,
        {
            on.push(image[i] == 1);
            i += 1;
            assert(on@ =~= ones(image@).subrange(0, i as int));
        }
        assert(on@ =~= ones(image@));
        Ok(self.extract_core_unchecked(on.as_slice(), width, height))
    }

    /// Binary HLAC of a 0/1 `u8` image, sixteen positions of a row at a
    /// time; the same counts as `extract_binary_u8`.
    pub fn extract_binary_u8_simd(&self, image: &[u8], width: usize, height: usize) -> (r: Result<HlacFeature, HlacError>)
        requires
            self.masks() == hlac25_masks(),
        ensures
            !(width >= 3 && height >= 3) ==> r == Err::<HlacFeature, HlacError>(HlacError::ImageTooSmall { width, height }),
            width >= 3 && height >= 3 && !buffer_fits(width, height, image.len()) ==> r == Err::<HlacFeature, HlacError>(
                HlacError::InvalidBufferLength { width, height, len: image.len() }),
            width >= 3 && height >= 3 && buffer_fits(width, height, image.len()) && spec_binary_check(image@, width) is Err
                ==> r == Err::<HlacFeature, HlacError>(spec_binary_check(image@, width)->Err_0),
            width >= 3 && height >= 3 && buffer_fits(width, height, image.len()) && spec_binary_check(image@, width) is Ok
                ==> (r matches Ok(f) && forall|m: int| 0 <= m < 25 ==> #[trigger] f.counts@[m] as nat
                    == spec_hlac_counts(ones(image@), width as nat, height as nat, hlac25_masks())[m]),
    {
        match Self::validate_shape(width, height) {
            Ok(()) => {},
            Err(e) => return Err(e),
        }
        match validate_buffer_len(width, height, image.len()) {
            Ok(()) => {},
            Err(e) => return Err(e),
        }
        match self.validate_binary_u8_values(image, width) {
            Ok(()) => {},
            Err(e) => return Err(e),
        }
        proof { lemma_first_non_binary_none(image@, image@.len()); }
        Ok(self.extract_binary_u8_simd_unchecked(image, width, height))
    }

    /// Lanes `l < 16` at which the first `k` offsets of mask `m` are all on,
    /// as 1, the others 0.
    fn mask_lanes(&self, image: &[u8], width: usize, height: usize, y: usize, x: usize, m: usize) -> (r: [u8; 16])
        requires
            self.masks() == hlac25_masks(),
            width >= 3,
            height >= 3,
            image.len() == width * height,
            forall|i: int| 0 <= i < image@.len() ==> #[trigger] image@[i] <= 1,
            1 <= y < height - 1,
            1 <= x,
            x + 16 <= width - 1,
            m < 25,
        ensures
            forall|l: int| 0 <= l < 16 ==> r@[l] <= 1
                && (r@[l] == 1) == lane_hits(image@, width as int, x as int, y as int, hlac25_masks()[m as int], l),
    {
        proof { lemma_table_shape(); }
        let ghost mask = hlac25_masks()[m as int];
        assert(self.masks@[m as int]@ == mask);
        let n = self.masks[m].len();
        let mut matched = load_lanes(image, width, height, y, x, self.masks[m][0]);
        proof {
            assert forall|l: int| 0 <= l < 16 implies matched@[l] <= 1
                && (matched@[l] == 1) == (forall|j: int| 0 <= j < 1 ==> #[trigger] offset_on(ones(image@), width as int, x + l, y as int, mask[j])) by {
                let idx = (y + mask[0].1) * width + (x + l + mask[0].0);
                assert(0 <= idx < image@.len()) by (nonlinear_arith)
                    requires idx == (y + mask[0].1) * width + (x + l + mask[0].0), -1 <= mask[0].1 <= 1, -1 <= mask[0].0 <= 1,
                        1 <= y < height - 1, 0 <= l < 16, 1 <= x, x + 16 <= width - 1, image@.len() == width * height;
                assert(offset_on(ones(image@), width as int, x + l, y as int, mask[0]) == (image@[idx] == 1));
            }
        }
        let mut k: usize = 1;
        while k < n
            invariant
                self.masks() == hlac25_masks(),
                offsets_in_window(hlac25_masks()),
                hlac25_masks().len() == 25,
                m < 25,
                mask == hlac25_masks()[m as int],
                self.masks@[m as int]@ == mask,
                n == mask.len(),
                1 <= k <= n,
                width >= 3,
                height >= 3,
                image.len() == width * height,
                forall|i: int| 0 <= i < image@.len() ==> #[trigger] image@[i] <= 1,
                1 <= y < height - 1,
                1 <= x,
                x + 16 <= width - 1,
                forall|l: int| 0 <= l < 16 ==> matched@[l] <= 1
                    && (matched@[l] == 1) == (forall|j: int| 0 <= j < k ==> #[trigger] offset_on(ones(image@), width as int, x + l, y as int, mask[j])),
            decreases n - k,
        {
            let next = load_lanes(image, width, height, y, x, self.masks[m][k]);
            let ghost prev = matched;
            let mut l: usize = 0;
            while l < 16
                invariant
                    0 <= l <= 16,
                    forall|j: int| l <= j < 16 ==> matched@[j] == prev@[j],
                    forall|j: int| 0 <= j < l ==> matched@[j] == (prev@[j] & next@[j]),
                decreases 16 - l,
            {
                matched[l] = matched[l] & next[l];
                l += 1;
            }
            proof {
                assert forall|l: int| 0 <= l < 16 implies matched@[l] <= 1
                    && (matched@[l] == 1) == (forall|j: int| 0 <= j < k + 1 ==> #[trigger] offset_on(ones(image@), width as int, x + l, y as int, mask[j])) by {
                    let d = mask[k as int];
                    let idx = (y + d.1) * width + (x + l + d.0);
                    assert(-1 <= d.0 <= 1 && -1 <= d.1 <= 1);
                    assert(0 <= idx < image@.len()) by (nonlinear_arith)
                        requires idx == (y + d.1) * width + (x + l + d.0), -1 <= d.1 <= 1, -1 <= d.0 <= 1,
                            1 <= y < height - 1, 0 <= l < 16, 1 <= x, x + 16 <= width - 1, image@.len() == width * height;
                    assert(next@[l] == image@[idx]);
                    lemma_and_binary(prev@[l], next@[l]);
                    assert(offset_on(ones(image@), width as int, x + l, y as int, d) == (image@[idx] == 1));
                    if matched@[l] == 1 {
                        assert forall|j: int| 0 <= j < k + 1 implies #[trigger] offset_on(ones(image@), width as int, x + l, y as int, mask[j]) by {
                            if j < k {
                                assert(prev@[l] == 1);
                            }
                        }
                    }
                }
            }
            k += 1;
        }
        matched
    }

    fn extract_binary_u8_simd_unchecked(&self, image: &[u8], width: usize, height: usize) -> (r: HlacFeature)
        requires
            self.masks() == hlac25_masks(),
            width >= 3,
            height >= 3,
            image.len() == width * height,
            forall|i: int| 0 <= i < image@.len() ==> #[trigger] image@[i] <= 1,
        ensures
            forall|m: int| 0 <= m < 25 ==> #[trigger] r.counts@[m] as nat
                == spec_hlac_counts(ones(image@), width as nat, height as nat, hlac25_masks())[m],
    {
        proof { lemma_table_shape(); }
        let ghost on = ones(image@);
        let mut counts = [0u64; 25];
        let mut y: usize = 1;
        while y < height - 1
            invariant
                self.masks() == hlac25_masks(),
                hlac25_masks().len() == 25,
                width >= 3,
                height >= 3,
                image.len() == width * height,
                forall|i: int| 0 <= i < image@.len() ==> #[trigger] image@[i] <= 1,
                on == ones(image@),
                1 <= y <= height - 1,
                forall|m: int| 0 <= m < 25 ==> #[trigger] counts@[m] as nat
                    == area_count(on, width as nat, hlac25_masks()[m], y as nat),
            decreases height - y,
        {
            let mut x: usize = 1;
            while width - 1 - x >= SIMD_LANES
                invariant
                    self.masks() == hlac25_masks(),
                    hlac25_masks().len() == 25,
                    width >= 3,
                    height >= 3,
                    image.len() == width * height,
                    forall|i: int| 0 <= i < image@.len() ==> #[trigger] image@[i] <= 1,
                    on == ones(image@),
                    1 <= y < height - 1,
                    1 <= x <= width - 1,
                    forall|m: int| 0 <= m < 25 ==> #[trigger] counts@[m] as nat
                        == area_count(on, width as nat, hlac25_masks()[m], y as nat)
                            + row_count(on, width as int, y as int, hlac25_masks()[m], x as nat),
                decreases width - x,
            {
                let mut m: usize = 0;
                while m < HLAC_DIM
                    invariant
                        self.masks() == hlac25_masks(),
                        hlac25_masks().len() == 25,
                        width >= 3,
                        height >= 3,
                        image.len() == width * height,
                        forall|i: int| 0 <= i < image@.len() ==> #[trigger] image@[i] <= 1,
                        on == ones(image@),
                        1 <= y < height - 1,
                        1 <= x,
                        x + 16 <= width - 1,
                        0 <= m <= 25,
                        forall|j: int| 0 <= j < m ==> #[trigger] counts@[j] as nat
                            == area_count(on, width as nat, hlac25_masks()[j], y as nat)
                                + row_count(on, width as int, y as int, hlac25_masks()[j], (x + 16) as nat),
                        forall|j: int| m <= j < 25 ==> #[trigger] counts@[j] as nat
                            == area_count(on, width as nat, hlac25_masks()[j], y as nat)
                                + row_count(on, width as int, y as int, hlac25_masks()[j], x as nat),
                    decreases 25 - m,
                {
                    let lanes = self.mask_lanes(image, width, height, y, x, m);
                    let ghost mask = hlac25_masks()[m as int];
                    let mut hits: u64 = 0;
                    let mut l: usize = 0;
                    while l < 16
                        invariant
                            0 <= l <= 16,
                            1 <= x,
                            forall|j: int| 0 <= j < 16 ==> (lanes@[j] == 1) == lane_hits(image@, width as int, x as int, y as int, mask, j),
                            on == ones(image@),
                            hits as nat + row_count(on, width as int, y as int, mask, x as nat)
                                == row_count(on, width as int, y as int, mask, (x + l) as nat),
                            hits <= l,
                        decreases 16 - l,
                    {
                        if lanes[l] == 1 {
                            hits += 1;
                        }
                        l += 1;
                    }
                    proof {
                        lemma_area_count_bound(on, width as nat, mask, y as nat);
                        lemma_row_count_bound(on, width as int, y as int, mask, (x + 16) as nat);
                        assert((y - 1) * (width - 2) + (x + 15) < width * height) by (nonlinear_arith)
                            requires 1 <= y < height - 1, x + 16 <= width - 1, width >= 3;
                    }
                    counts[m] = counts[m] + hits;
                    m += 1;
                }
                x += SIMD_LANES;
            }
            let mut xx: usize = x;
            while xx < width - 1
                invariant
                    self.masks() == hlac25_masks(),
                    hlac25_masks().len() == 25,
                    width >= 3,
                    height >= 3,
                    image.len() == width * height,
                    forall|i: int| 0 <= i < image@.len() ==> #[trigger] image@[i] <= 1,
                    on == ones(image@),
                    1 <= y < height - 1,
                    1 <= xx <= width - 1,
                    forall|m: int| 0 <= m < 25 ==> #[trigger] counts@[m] as nat
                        == area_count(on, width as nat, hlac25_masks()[m], y as nat)
                            + row_count(on, width as int, y as int, hlac25_masks()[m], xx as nat),
                decreases width - xx,
            {
                let mut m: usize = 0;
                while m < HLAC_DIM
                    invariant
                        self.masks() == hlac25_masks(),
                        hlac25_masks().len() == 25,
                        width >= 3,
                        height >= 3,
                        image.len() == width * height,
                        on == ones(image@),
                        1 <= y < height - 1,
                        1 <= xx < width - 1,
                        0 <= m <= 25,
                        forall|j: int| 0 <= j < m ==> #[trigger] counts@[j] as nat
                            == area_count(on, width as nat, hlac25_masks()[j], y as nat)
                                + row_count(on, width as int, y as int, hlac25_masks()[j], (xx + 1) as nat),
                        forall|j: int| m <= j < 25 ==> #[trigger] counts@[j] as nat
                            == area_count(on, width as nat, hlac25_masks()[j], y as nat)
                                + row_count(on, width as int, y as int, hlac25_masks()[j], xx as nat),
                    decreases 25 - m,
                {
                    let hit = self.hits_at_u8(image, width, height, xx, y, m);
                    if hit {
                        proof {
                            let mask = hlac25_masks()[m as int];
                            lemma_area_count_bound(on, width as nat, mask, y as nat);
                            lemma_row_count_bound(on, width as int, y as int, mask, xx as nat);
                            assert((y - 1) * (width - 2) + (xx - 1) < width * height) by (nonlinear_arith)
                                requires 1 <= y < height - 1, 1 <= xx < width - 1, width >= 3;
                        }
                        counts[m] = counts[m] + 1;
                    }
                    m += 1;
                }
                xx += 1;
            }
            y += 1;
        }
        HlacFeature::new(counts)
    }

    /// Whether mask `m` hits at `(x, y)` of a 0/1 image (1 = on).
    fn hits_at_u8(&self, image: &[u8], width: usize, height: usize, x: usize, y: usize, m: usize) -> (r: bool)
        requires
            self.masks() == hlac25_masks(),
            width >= 3,
            height >= 3,
            image.len() == width * height,
            1 <= x < width - 1,
            1 <= y < height - 1,
            m < 25,
        ensures
            r == mask_hits(ones(image@), width as int, x as int, y as int, self.masks()[m as int]),
    {
        proof { lemma_table_shape(); }
        let ghost mask = self.masks()[m as int];
        assert(self.masks@[m as int]@ == mask);
        let n = self.masks[m].len();
        let mut k: usize = 0;
        while k < n
            invariant
                self.masks() == hlac25_masks(),
                offsets_in_window(hlac25_masks()),
                hlac25_masks().len() == 25,
                m < 25,
                mask == self.masks()[m as int],
                self.masks@[m as int]@ == mask,
                n == mask.len(),
                0 <= k <= n,
                width >= 3,
                height >= 3,
                image.len() == width * height,
                1 <= x < width - 1,
                1 <= y < height - 1,
                forall|j: int| 0 <= j < k ==> #[trigger] offset_on(ones(image@), width as int, x as int, y as int, mask[j]),
            decreases n - k,
        {
            let (dx, dy) = self.masks[m][k];
            assert((dx, dy) == mask[k as int]);
            let yy = shift(y, dy);
            let xx = shift(x, dx);
            proof {
                assert(yy * width + xx < width * height) by (nonlinear_arith)
                    requires yy < height, xx < width, width >= 3;
            }
            assert((y as int + dy as int) * (width as int) + (x as int + dx as int) == (yy * width + xx) as int);
            if image[yy * width + xx] != 1 {
                assert(!offset_on(ones(image@), width as int, x as int, y as int, mask[k as int]));
                return false;
            }
            k += 1;
        }
        true
    }
}

impl Default for HlacExtractor {
    fn default() -> (r: HlacExtractor)
        ensures
            r.masks() == hlac25_masks(),
    {
        HlacExtractor::new_binary_25()
    }
}

// ─────────────────────────────────────────
//  Laws
// ─────────────────────────────────────────

/// No pattern is counted more often than there are interior positions.
pub proof fn lemma_counts_bounded(img: Seq<bool>, w: nat, h: nat, m: int)
    requires
        w >= 3,
        h >= 3,
        0 <= m < 25,
    ensures
        spec_hlac_counts(img, w, h, hlac25_masks())[m] <= (h - 2) * (w - 2),
{
    lemma_table_shape();
    lemma_area_count_bound(img, w, hlac25_masks()[m], (h - 1) as nat);
}

proof fn lemma_row_count_mono(img: Seq<bool>, w: int, y: int, a: Seq<(isize, isize)>, b: Seq<(isize, isize)>, xe: nat)
    requires
        forall|x: int| mask_hits(img, w, x, y, b) ==> mask_hits(img, w, x, y, a),
    ensures
        row_count(img, w, y, b, xe) <= row_count(img, w, y, a, xe),
    decreases xe,
{
    if xe > 1 {
        lemma_row_count_mono(img, w, y, a, b, (xe - 1) as nat);
        assert(mask_hits(img, w, xe - 1, y, b) ==> mask_hits(img, w, xe - 1, y, a));
    }
}

proof fn lemma_area_count_mono(img: Seq<bool>, w: nat, a: Seq<(isize, isize)>, b: Seq<(isize, isize)>, ye: nat)
    requires
        forall|x: int, y: int| mask_hits(img, w as int, x, y, b) ==> mask_hits(img, w as int, x, y, a),
    ensures
        area_count(img, w, b, ye) <= area_count(img, w, a, ye),
    decreases ye,
{
    if ye > 1 {
        lemma_area_count_mono(img, w, a, b, (ye - 1) as nat);
        lemma_row_count_mono(img, w as int, ye - 1, a, b, (w - 1) as nat);
    }
}

/// Every pattern contains the centre, so the centre-only pattern (the
/// first) is counted at least as often as any other.
pub proof fn lemma_center_dominates(img: Seq<bool>, w: nat, h: nat, m: int)
    requires
        0 <= m < 25,
    ensures
        spec_hlac_counts(img, w, h, hlac25_masks())[m] <= spec_hlac_counts(img, w, h, hlac25_masks())[0],
{
    lemma_table_shape();
    let t = hlac25_masks();
    assert(t[0] =~= seq![(0isize, 0isize)]);
    assert forall|x: int, y: int| mask_hits(img, w as int, x, y, t[m]) implies mask_hits(img, w as int, x, y, t[0]) by {
        assert(t[m][0] == (0isize, 0isize));
        assert(offset_on(img, w as int, x, y, t[m][0]));
        assert forall|k: int| 0 <= k < t[0].len() implies #[trigger] offset_on(img, w as int, x, y, t[0][k]) by {
            assert(k == 0);
        }
    }
    lemma_area_count_mono(img, w, t[0], t[m], (h - 1) as nat);
}

} // verus!
