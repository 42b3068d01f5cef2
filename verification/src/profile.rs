//! Row profiling: reduce each pixel row to a scalar and mark the dark rows.

use vstd::prelude::*;

verus! {

/// Greatest number of rows a grid may have; together with `MAX_WIDTH` it
/// keeps every intermediate product of the threshold test inside `i128`.
pub const MAX_ROWS: usize = 1_000_000;

/// Greatest number of pixels a row may have.
pub const MAX_WIDTH: usize = 1_000_000;

/// Sum of a row's pixel intensities, as a mathematical integer.
///
/// All rows of a grid share one width, so this sum stands for the row's mean
/// intensity with the common denominator left implicit.
pub open spec fn row_sum(row: Seq<u8>) -> int
    decreases row.len(),
{
    if row.len() == 0 {
        0
    } else {
        row_sum(row.drop_last()) + row.last()
    }
}

/// Sum of a sequence of row sums.
pub open spec fn total(sums: Seq<int>) -> int
    decreases sums.len(),
{
    if sums.len() == 0 {
        0
    } else {
        total(sums.drop_last()) + sums.last()
    }
}

/// `n * sums[i] - total(sums)`: how far row `i`'s sum sits above the mean of
/// all row sums, scaled by the row count `n` to stay integral.
pub open spec fn deviation(sums: Seq<int>, i: int) -> int {
    sums.len() * sums[i] - total(sums)
}

/// Sum over `sums` of `(n * s - t)` squared, for a fixed scale `n` and total `t`.
pub open spec fn sq_dev_total(sums: Seq<int>, n: int, t: int) -> int
    decreases sums.len(),
{
    if sums.len() == 0 {
        0
    } else {
        sq_dev_total(sums.drop_last(), n, t) + (n * sums.last() - t) * (n * sums.last() - t)
    }
}

/// Row `i`'s mean intensity lies at or below `mean - stddev`, where `mean` is
/// the mean of all row means and `stddev` their sample standard deviation
/// (divisor `n - 1`).
///
/// With `n` rows of one common width `L`, row `i`'s mean is `sums[i] / L`,
/// the mean of the row means is `total(sums) / (n * L)`, and the sample
/// variance is `sq_dev_total(sums, n, total(sums)) / ((n - 1) * n^2 * L^2)`.
/// Since the standard deviation is nonnegative, `v_i <= mean - stddev` holds
/// exactly when `mean - v_i >= 0` and `(mean - v_i)^2 >= variance`; clearing
/// the (positive) denominators turns those into the two integer comparisons
/// below, so the boundary case `v_i == mean - stddev` is kept exactly.
pub open spec fn is_dark(sums: Seq<int>, i: int) -> bool {
    let n = sums.len() as int;
    let d = deviation(sums, i);
    d <= 0 && (n - 1) * (d * d) >= sq_dev_total(sums, n, total(sums))
}

/// The row sums recorded in a `u64` vector, as mathematical integers.
pub open spec fn sums_int(sums: Seq<u64>) -> Seq<int> {
    sums.map_values(|s: u64| s as int)
}

/// Marks each row whose sum satisfies `is_dark`, given one sum per row.
///
/// The bound on each sum reflects a row of at most `MAX_WIDTH` pixels of at
/// most 255 each, so a sum is at most 255_000_000, a scaled deviation at most
/// 255_000_000_000_000 in magnitude, and the sum of squared deviations at
/// most 65_025_000_000_000_000_000_000_000_000 * MAX_ROWS: everything the
/// threshold test computes fits in `i128`.
fn mask_from_sums(sums: &Vec<u64>) -> (mask: Vec<bool>)
    requires
        2 <= sums@.len() <= MAX_ROWS,
        forall|i: int| 0 <= i < sums@.len() ==> #[trigger] sums@[i] <= 255 * (MAX_WIDTH as int),
    ensures
        mask@.len() == sums@.len(),
        forall|i: int|
            0 <= i < sums@.len() ==> #[trigger] mask@[i] == is_dark(sums_int(sums@), i),
{
    let ghost gs = sums_int(sums@);
    let n: usize = sums.len();

    let mut t: u64 = 0;
    let mut j: usize = 0;
    while j < n
        invariant
            j <= n,
            n == sums@.len(),
            2 <= n <= MAX_ROWS,
            gs == sums_int(sums@),
            forall|i: int| 0 <= i < sums@.len() ==> #[trigger] sums@[i] <= 255_000_000,
            t == total(gs.take(j as int)),
            t <= 255_000_000 * (j as int),
        decreases n - j,
    {
        proof {
            assert(gs.take(j + 1).drop_last() =~= gs.take(j as int));
            assert(gs.take(j + 1).last() == gs[j as int]);
            assert(gs[j as int] == sums@[j as int] as int);
        }
        t = t + sums[j];
        j = j + 1;
    }
    proof {
        assert(gs.take(gs.len() as int) =~= gs);
    }
    let ghost gt = total(gs);

    let mut q: i128 = 0;
    let mut j: usize = 0;
    while j < n
        invariant
            j <= n,
            n == sums@.len(),
            2 <= n <= MAX_ROWS,
            gs == sums_int(sums@),
            forall|i: int| 0 <= i < sums@.len() ==> #[trigger] sums@[i] <= 255_000_000,
            gt == total(gs),
            0 <= gt <= 255_000_000_000_000,
            t == gt,
            q == sq_dev_total(gs.take(j as int), n as int, gt),
            0 <= q <= 65_025_000_000_000_000_000_000_000_000 * (j as int),
        decreases n - j,
    {
        proof {
            assert(gs.take(j + 1).drop_last() =~= gs.take(j as int));
            assert(gs.take(j + 1).last() == gs[j as int]);
            assert(gs[j as int] == sums@[j as int] as int);
            assert(0 <= (n as int) * (sums@[j as int] as int) <= 255_000_000_000_000)
                by (nonlinear_arith)
                requires
                    0 <= sums@[j as int] as int <= 255_000_000,
                    2 <= n as int <= 1_000_000,
            ;
        }
        let d: i128 = (n as i128) * (sums[j] as i128) - (t as i128);
        proof {
            assert(0 <= (d as int) * (d as int) <= 65_025_000_000_000_000_000_000_000_000)
                by (nonlinear_arith)
                requires
                    -255_000_000_000_000 <= d as int <= 255_000_000_000_000,
            ;
        }
        q = q + d * d;
        j = j + 1;
    }
    proof {
        assert(gs.take(gs.len() as int) =~= gs);
    }

    let mut mask: Vec<bool> = Vec::new();
    let mut j: usize = 0;
    while j < n
        invariant
            j <= n,
            n == sums@.len(),
            2 <= n <= MAX_ROWS,
            gs == sums_int(sums@),
            forall|i: int| 0 <= i < sums@.len() ==> #[trigger] sums@[i] <= 255_000_000,
            gt == total(gs),
            0 <= gt <= 255_000_000_000_000,
            t == gt,
            q == sq_dev_total(gs, n as int, gt),
            0 <= q <= 65_025_000_000_000_000_000_000_000_000 * (n as int),
            mask@.len() == j,
            forall|i: int| 0 <= i < j ==> #[trigger] mask@[i] == is_dark(gs, i),
        decreases n - j,
    {
        proof {
            assert(gs[j as int] == sums@[j as int] as int);
            assert(0 <= (n as int) * (sums@[j as int] as int) <= 255_000_000_000_000)
                by (nonlinear_arith)
                requires
                    0 <= sums@[j as int] as int <= 255_000_000,
                    2 <= n as int <= 1_000_000,
            ;
        }
        let d: i128 = (n as i128) * (sums[j] as i128) - (t as i128);
        proof {
            assert(0 <= (d as int) * (d as int) <= 65_025_000_000_000_000_000_000_000_000)
                by (nonlinear_arith)
                requires
                    -255_000_000_000_000 <= d as int <= 255_000_000_000_000,
            ;
            assert(0 <= ((n as int) - 1) * ((d as int) * (d as int))
                <= 65_025_000_000_000_000_000_000_000_000_000_000) by (nonlinear_arith)
                requires
                    0 <= (d as int) * (d as int) <= 65_025_000_000_000_000_000_000_000_000,
                    2 <= n as int <= 1_000_000,
            ;
        }
        let dark = d <= 0 && ((n as i128) - 1) * (d * d) >= q;
        proof {
            assert(d == deviation(gs, j as int));
            assert(dark == is_dark(gs, j as int));
        }
        mask.push(dark);
        j = j + 1;
    }
    mask
}

/// Sums a pixel row exactly.
pub fn sum_row(row: &Vec<u8>) -> (s: u64)
    requires
        row@.len() <= MAX_WIDTH,
    ensures
        s == row_sum(row@),
        s <= 255 * row@.len(),
{
    let mut s: u64 = 0;
    let mut j: usize = 0;
    while j < row.len()
        invariant
            j <= row@.len(),
            row@.len() <= MAX_WIDTH,
            s == row_sum(row@.take(j as int)),
            s <= 255 * j,
        decreases row@.len() - j,
    {
        proof {
            assert(row@.take(j + 1).drop_last() =~= row@.take(j as int));
            assert(row@.take(j + 1).last() == row@[j as int]);
        }
        s = s + row[j] as u64;
        j = j + 1;
    }
    proof {
        assert(row@.take(row@.len() as int) =~= row@);
    }
    s
}


/// One sum per pixel row of a grid, in row order.
pub open spec fn row_sums(pixels: Seq<Vec<u8>>) -> Seq<int> {
    Seq::new(pixels.len(), |i: int| row_sum(pixels[i]@))
}

/// Classifies each row of a pixel grid: `true` marks a row whose mean
/// intensity lies at or below `mean - stddev` over all row means.
///
/// The grid must have at least two rows (the sample standard deviation
/// divides by `n - 1`) and rows of one common, nonzero width; `is_dark`
/// states the threshold exactly over the integer row sums.
pub fn detect_lines(pixels: &Vec<Vec<u8>>) -> (mask: Vec<bool>)
    requires
        2 <= pixels@.len() <= MAX_ROWS,
        0 < pixels@[0]@.len() <= MAX_WIDTH,
        forall|i: int| 0 <= i < pixels@.len() ==> (#[trigger] pixels@[i]@.len()) == pixels@[0]@.len(),
    ensures
        mask@.len() == pixels@.len(),
        forall|i: int|
            0 <= i < pixels@.len() ==> #[trigger] mask@[i] == is_dark(row_sums(pixels@), i),
{
    let n: usize = pixels.len();
    let mut sums: Vec<u64> = Vec::new();
    let mut i: usize = 0;
    while i < n
        invariant
            i <= n,
            n == pixels@.len(),
            2 <= n <= MAX_ROWS,
            0 < pixels@[0]@.len() <= MAX_WIDTH,
            forall|k: int| 0 <= k < n ==> (#[trigger] pixels@[k]@.len()) == pixels@[0]@.len(),
            sums@.len() == i,
            forall|k: int| 0 <= k < i ==> #[trigger] sums@[k] == row_sum(pixels@[k]@),
            forall|k: int| 0 <= k < i ==> #[trigger] sums@[k] <= 255 * (MAX_WIDTH as int),
        decreases n - i,
    {
        let s = sum_row(&pixels[i]);
        sums.push(s);
        i = i + 1;
    }
    proof {
        assert(sums_int(sums@) =~= row_sums(pixels@));
    }
    mask_from_sums(&sums)
}

/// Accumulates rows of a pixel grid one at a time, keeping only each row's
/// sum, and produces the same dark-row mask as `detect_lines` does on the
/// whole grid: memory stays proportional to the image height.
pub struct PixelInspector {
    line_number: usize,
    width: usize,
    sums: Vec<u64>,
}

impl PixelInspector {
    /// The recorded row sums, as mathematical integers.
    pub closed spec fn sums_seq(&self) -> Seq<int> {
        sums_int(self.sums@)
    }

    /// How many rows have been pushed.
    pub open spec fn rows(&self) -> int {
        self.sums_seq().len() as int
    }

    /// The common width of the rows pushed so far (0 before the first row).
    pub closed spec fn width_spec(&self) -> int {
        self.width as int
    }

    /// Every recorded sum fits a row of the common width, and the row count
    /// and width stay within the ranges the exact arithmetic needs.
    pub closed spec fn wf(&self) -> bool {
        &&& self.width <= MAX_WIDTH
        &&& self.sums@.len() <= MAX_ROWS
        &&& (self.sums@.len() > 0 ==> 0 < self.width)
        &&& forall|i: int|
            0 <= i < self.sums@.len() ==> #[trigger] self.sums@[i] <= 255 * (self.width as int)
    }

    /// A fresh inspector for the image section starting at `line`, with no
    /// rows recorded yet.
    pub fn new(line: usize) -> (r: PixelInspector)
        ensures
            r.wf(),
            r.rows() == 0,
    {
        PixelInspector { line_number: line, width: 0, sums: Vec::new() }
    }

    /// Records one pixel row: its sum is stored, the raw pixels are dropped.
    ///
    /// Every row must have the same nonzero width as the rows before it.
    pub fn push_row(&mut self, row: &Vec<u8>)
        requires
            old(self).wf(),
            old(self).rows() < MAX_ROWS,
            0 < row@.len() <= MAX_WIDTH,
            old(self).rows() > 0 ==> row@.len() == old(self).width_spec(),
        ensures
            final(self).wf(),
            final(self).rows() == old(self).rows() + 1,
            final(self).width_spec() == row@.len(),
            final(self).sums_seq() == old(self).sums_seq().push(row_sum(row@)),
    {
        let s = sum_row(row);
        self.width = row.len();
        self.sums.push(s);
        proof {
            assert(final(self).sums_seq() =~= old(self).sums_seq().push(row_sum(row@)));
        }
    }

    /// Produces the dark-row mask for the rows recorded so far, one entry
    /// per row in push order; at least two rows must have been pushed.
    pub fn inspect(&self) -> (mask: Vec<bool>)
        requires
            self.wf(),
            2 <= self.rows(),
        ensures
            mask@.len() == self.rows(),
            forall|i: int| 0 <= i < self.rows() ==> #[trigger] mask@[i] == is_dark(self.sums_seq(), i),
    {
        mask_from_sums(&self.sums)
    }
}

} // verus!
