//! Bayer colour filter masks of raw sensor images: which pixels of the
//! repeating 2x2 pattern carry red, green or blue.

use vstd::prelude::*;

verus! {

/// The colour order of the 2x2 Bayer tile, row by row.
#[derive(Debug, Clone, Copy, PartialEq, Eq, Structural)]
pub enum BayerPattern {
    /// R G / G B
    RGGB,
    /// B G / G R
    BGGR,
    /// G B / R G
    GBRG,
    /// G R / B G
    GRBG,
}

/// The tile of a pattern, row-major, with bit 1 for red, 2 for green and 4
/// for blue.
pub open spec fn spec_tile(p: BayerPattern) -> Seq<u16> {
    match p {
        BayerPattern::RGGB => seq![1u16, 2u16, 2u16, 4u16],
        BayerPattern::BGGR => seq![4u16, 2u16, 2u16, 1u16],
        BayerPattern::GBRG => seq![2u16, 4u16, 1u16, 2u16],
        BayerPattern::GRBG => seq![2u16, 1u16, 4u16, 2u16],
    }
}

/// The 0/1 mask of the tile positions that carry colour bit `bit`.
pub open spec fn spec_colour_mask(p: BayerPattern, bit: u16) -> Seq<u16> {
    Seq::new(4, |i: int| if spec_tile(p)[i] & bit == bit { 1u16 } else { 0u16 })
}

/// A 0/1 mask over the 2x2 tile, row-major.
#[derive(Debug, Clone, Copy, PartialEq, Eq)]
pub struct ColorMask {
    tile: [u16; 4],
}

/// A row-major image of 16-bit samples.
#[derive(Debug, Clone, PartialEq, Eq)]
pub struct Matrix {
    pub rows: usize,
    pub cols: usize,
    pub data: Vec<u16>,
}

impl Matrix {
    /// The matrix holds `rows * cols` samples.
    pub open spec fn wf(&self) -> bool {
        self.data@.len() == self.rows * self.cols
    }
}

impl BayerPattern {
    fn tile(&self) -> (r: [u16; 4])
        ensures
            r@ == spec_tile(*self),
    {
        let r: [u16; 4] = match self {
            BayerPattern::RGGB => [1, 2, 2, 4],
            BayerPattern::BGGR => [4, 2, 2, 1],
            BayerPattern::GBRG => [2, 4, 1, 2],
            BayerPattern::GRBG => [2, 1, 4, 2],
        };
        assert(r@ =~= spec_tile(*self));
        r
    }

    fn colour(&self, bit: u16) -> (r: ColorMask)
        ensures
            r.tile() == spec_colour_mask(*self, bit),
    {
        let t = self.tile();
        let mut m = [0u16; 4];
        let mut i: usize = 0;
        while i < 4
            invariant
                0 <= i <= 4,
                t@ == spec_tile(*self),
                forall|j: int| 0 <= j < i ==> m@[j] == spec_colour_mask(*self, bit)[j],
            decreases 4 - i,
        {
            m[i] = if t[i] & bit == bit { 1 } else { 0 };
            i += 1;
        }
        assert(m@ =~= spec_colour_mask(*self, bit));
        ColorMask { tile: m }
    }

    /// The red positions.
    pub fn r(&self) -> (r: ColorMask)
        ensures
            r.tile() == spec_colour_mask(*self, 1),
    {
        self.colour(1)
    }

    /// The green positions.
    pub fn g(&self) -> (r: ColorMask)
        ensures
            r.tile() == spec_colour_mask(*self, 2),
    {
        self.colour(2)
    }

    /// The blue positions.
    pub fn b(&self) -> (r: ColorMask)
        ensures
            r.tile() == spec_colour_mask(*self, 4),
    {
        self.colour(4)
    }
}

/// Mask value at row `i`, column `j` of an image.
pub open spec fn mask_at(tile: Seq<u16>, i: int, j: int) -> u16 {
    tile[(i % 2) * 2 + j % 2]
}

/// The samples of the first `k` positions (row-major) of an image with
/// `cols` columns whose mask value is non-zero.
pub open spec fn masked_samples(data: Seq<u16>, cols: int, tile: Seq<u16>, k: nat) -> Seq<u16>
    decreases k,
{
    if k == 0 {
        Seq::empty()
    } else {
        let prev = masked_samples(data, cols, tile, (k - 1) as nat);
        if mask_at(tile, (k - 1) / cols, (k - 1) % cols) > 0 { prev.push(data[k - 1]) } else { prev }
    }
}

impl ColorMask {
    /// The mask, row-major over the tile.
    pub closed spec fn tile(&self) -> Seq<u16> {
        self.tile@
    }

    /// The image with every sample outside the mask set to zero.
    pub fn mask(&self, src: &Matrix) -> (r: Matrix)
        requires
            src.wf(),
            forall|i: int| 0 <= i < 4 ==> #[trigger] self.tile()[i] <= 1,
        ensures
            r.wf(),
            r.rows == src.rows,
            r.cols == src.cols,
            forall|k: int| 0 <= k < r.data@.len() ==> #[trigger] r.data@[k]
                == src.data@[k] * mask_at(self.tile(), k / src.cols as int, k % src.cols as int),
    {
        let n = src.data.len();
        let mut dst: Vec<u16> = Vec::with_capacity(n);
        let mut k: usize = 0;
        while k < n
            invariant
                0 <= k <= n,
                n == src.data@.len(),
                n == src.rows * src.cols,
                forall|i: int| 0 <= i < 4 ==> #[trigger] self.tile()[i] <= 1,
                dst@.len() == k,
                forall|j: int| 0 <= j < k ==> #[trigger] dst@[j]
                    == src.data@[j] * mask_at(self.tile(), j / src.cols as int, j % src.cols as int),
            decreases n - k,
        {
            let i = k / src.cols;
            let j = k % src.cols;
            let mv = self.tile[(i % 2) * 2 + j % 2];
            let v = src.data[k];
            proof {
                let idx = ((i % 2) * 2 + j % 2) as int;
                assert(0 <= idx < 4);
                assert(self.tile()[idx] == mv);
                assert(mv <= 1);
                assert(v * mv <= v) by (nonlinear_arith) requires mv <= 1;
            }
            dst.push(v * mv);
            k += 1;
        }
        Matrix { rows: src.rows, cols: src.cols, data: dst }
    }

    /// The samples under the mask, row-major.
    pub fn mask_vec(&self, src: &Matrix) -> (r: Vec<u16>)
        requires
            src.wf(),
        ensures
            r@ == masked_samples(src.data@, src.cols as int, self.tile(), src.data@.len()),
    {
        let n = src.data.len();
        let mut dst: Vec<u16> = Vec::new();
        let mut k: usize = 0;
        while k < n
            invariant
                0 <= k <= n,
                n == src.data@.len(),
                n == src.rows * src.cols,
                dst@ == masked_samples(src.data@, src.cols as int, self.tile(), k as nat),
            decreases n - k,
        {
            let i = k / src.cols;
            let j = k % src.cols;
            if self.tile[(i % 2) * 2 + j % 2] > 0 {
                dst.push(src.data[k]);
            }
            k += 1;
        }
        dst
    }
}

/// Pattern `p` puts colour `bit` (1 red, 2 green, 4 blue) at row `row`,
/// column `col` of its tile.
pub open spec fn colour_at(p: BayerPattern, bit: u16, row: int, col: int) -> bool {
    spec_colour_mask(p, bit)[2 * row + col] == 1
}

/// Each tile follows its name read row by row (`GBRG` is green, blue / red,
/// green): red at one corner, blue at the diagonally opposite one, green on
/// the other diagonal, every position one colour only; the four patterns
/// put red in four different places.
pub proof fn lemma_bayer_tiles_follow_names(p: BayerPattern, q: BayerPattern)
    ensures
        p == BayerPattern::RGGB ==> colour_at(p, 1, 0, 0) && colour_at(p, 2, 0, 1) && colour_at(p, 2, 1, 0) && colour_at(p, 4, 1, 1),
        p == BayerPattern::BGGR ==> colour_at(p, 4, 0, 0) && colour_at(p, 2, 0, 1) && colour_at(p, 2, 1, 0) && colour_at(p, 1, 1, 1),
        p == BayerPattern::GBRG ==> colour_at(p, 2, 0, 0) && colour_at(p, 4, 0, 1) && colour_at(p, 1, 1, 0) && colour_at(p, 2, 1, 1),
        p == BayerPattern::GRBG ==> colour_at(p, 2, 0, 0) && colour_at(p, 1, 0, 1) && colour_at(p, 4, 1, 0) && colour_at(p, 2, 1, 1),
        forall|row: int, col: int| 0 <= row < 2 && 0 <= col < 2 ==>
            (#[trigger] colour_at(p, 1, row, col) <==> colour_at(p, 4, 1 - row, 1 - col))
            && (colour_at(p, 1, row, col) ==> !colour_at(p, 2, row, col) && !colour_at(p, 4, row, col)
                && colour_at(p, 2, row, 1 - col) && colour_at(p, 2, 1 - row, col))
            && (colour_at(p, 1, row, col) || colour_at(p, 2, row, col) || colour_at(p, 4, row, col)),
        p != q ==> forall|row: int, col: int| 0 <= row < 2 && 0 <= col < 2 && #[trigger] colour_at(p, 1, row, col)
            ==> !colour_at(q, 1, row, col),
{
    assert forall|r: BayerPattern, b: u16, i: int| (b == 1 || b == 2 || b == 4) && 0 <= i < 4 implies
        #[trigger] spec_colour_mask(r, b)[i] == (if spec_tile(r)[i] == b { 1u16 } else { 0u16 }) by {
        lemma_single_colour_bit(spec_tile(r)[i], b);
    }
}

proof fn lemma_single_colour_bit(v: u16, b: u16)
    requires
        v == 1 || v == 2 || v == 4,
        b == 1 || b == 2 || b == 4,
    ensures
        (v & b == b) == (v == b),
{
    assert((v & b == b) == (v == b)) by (bit_vector)
        requires v == 1u16 || v == 2u16 || v == 4u16, b == 1u16 || b == 2u16 || b == 4u16;
}

} // verus!
