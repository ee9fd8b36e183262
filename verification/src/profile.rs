//! Projection profiles: the column sums and row sums of a luma image.

use vstd::prelude::*;

use image::DynamicImage;
use rayon::iter::ParallelIterator;
use rayon::slice::ParallelSlice;

use crate::imaging::{dimensions, image_dims, image_luma, luma_pixels};

verus! {

/// Intermediate data for debugging.
#[derive(Debug, Clone, PartialEq, Eq)]
pub struct ProjectionProfile {
    /// Vertical Projection Profile: sum of pixel values along each column.
    pub vpp: Vec<u64>,
    /// Horizontal Projection Profile: sum of pixel values along each row.
    pub hpp: Vec<u64>,
    /// Width of the analyzed image.
    pub width: u32,
    /// Height of the analyzed image.
    pub height: u32,
}

/// Sum of a sequence of bytes.
pub open spec fn sum_bytes(s: Seq<u8>) -> int
    decreases s.len(),
{
    if s.len() == 0 {
        0
    } else {
        sum_bytes(s.drop_last()) + s.last() as int
    }
}

/// Sum of row `r` of a row-major buffer of width `w`.
pub open spec fn row_sum(luma: Seq<u8>, w: int, r: int) -> int {
    sum_bytes(luma.subrange(r * w, r * w + w))
}

/// Sum of column `c` over the first `rows` rows of a row-major buffer of width `w`.
pub open spec fn column_sum(luma: Seq<u8>, w: int, c: int, rows: int) -> int
    decreases rows,
{
    if rows <= 0 {
        0
    } else {
        column_sum(luma, w, c, rows - 1) + luma[(rows - 1) * w + c] as int
    }
}

/// `p` is the projection profile of a `w` by `h` image whose pixel `(x, y)`
/// is `luma[y * w + x]`.
pub open spec fn is_profile_of(p: ProjectionProfile, w: u32, h: u32, luma: Seq<u8>) -> bool {
    &&& p.width == w
    &&& p.height == h
    &&& p.vpp@.len() == w
    &&& p.hpp@.len() == h
    &&& forall|c: int| 0 <= c < w ==> #[trigger] p.vpp@[c] == column_sum(luma, w as int, c, h as int)
    &&& forall|r: int| 0 <= r < h ==> #[trigger] p.hpp@[r] == row_sum(luma, w as int, r)
}

proof fn lemma_sum_bytes_bound(s: Seq<u8>)
    ensures
        0 <= sum_bytes(s) <= 255 * s.len(),
    decreases s.len(),
{
    if s.len() > 0 {
        lemma_sum_bytes_bound(s.drop_last());
    }
}

proof fn lemma_column_sum_bound(luma: Seq<u8>, w: int, c: int, rows: int)
    ensures
        0 <= column_sum(luma, w, c, rows) <= 255 * (if rows < 0 { 0 } else { rows }),
    decreases rows,
{
    if rows > 0 {
        lemma_column_sum_bound(luma, w, c, rows - 1);
    }
}

/// Sum of the bytes of one row.
fn sum_row(row: &[u8]) -> (res: u64)
    requires
        row@.len() <= u32::MAX,
    ensures
        res == sum_bytes(row@),
{
    let mut acc: u64 = 0;
    let mut i: usize = 0;
    while i < row.len()
        invariant
            i <= row@.len() <= u32::MAX,
            acc == sum_bytes(row@.subrange(0, i as int)),
        decreases row@.len() - i,
    {
        proof {
            lemma_sum_bytes_bound(row@.subrange(0, i as int));
            assert(row@.subrange(0, i + 1).drop_last() =~= row@.subrange(0, i as int));
        }
        acc = acc + row[i] as u64;
        i = i + 1;
    }
    assert(row@.subrange(0, i as int) =~= row@);
    acc
}

/// A vector of `w` zeros.
fn zero_columns(w: usize) -> (res: Vec<u64>)
    ensures
        res@.len() == w,
        forall|c: int| 0 <= c < w ==> #[trigger] res@[c] == 0,
{
    let mut res: Vec<u64> = Vec::new();
    let mut i: usize = 0;
    while i < w
        invariant
            i <= w,
            res@.len() == i,
            forall|c: int| 0 <= c < i ==> #[trigger] res@[c] == 0,
        decreases w - i,
    {
        res.push(0);
        i = i + 1;
    }
    res
}

/// Adds a row of bytes to running column sums.
fn add_row(acc: Vec<u64>, row: &[u8]) -> (res: Vec<u64>)
    requires
        acc@.len() == row@.len(),
        forall|c: int| 0 <= c < acc@.len() ==> #[trigger] acc@[c] + row@[c] <= u64::MAX,
    ensures
        res@.len() == acc@.len(),
        forall|c: int| 0 <= c < acc@.len() ==> #[trigger] res@[c] == acc@[c] + row@[c],
{
    let mut res = acc;
    let mut i: usize = 0;
    while i < res.len()
        invariant
            i <= res@.len() == acc@.len() == row@.len(),
            forall|c: int| 0 <= c < acc@.len() ==> #[trigger] acc@[c] + row@[c] <= u64::MAX,
            forall|c: int| 0 <= c < i ==> #[trigger] res@[c] == acc@[c] + row@[c],
            forall|c: int| i <= c < res@.len() ==> #[trigger] res@[c] == acc@[c],
        decreases res@.len() - i,
    {
        let v = res[i] + row[i] as u64;
        res.set(i, v);
        i = i + 1;
    }
    res
}

/// Adds two vectors of column sums element by element.
fn add_columns(a: Vec<u64>, b: Vec<u64>) -> (res: Vec<u64>)
    requires
        a@.len() == b@.len(),
        forall|c: int| 0 <= c < a@.len() ==> #[trigger] a@[c] + b@[c] <= u64::MAX,
    ensures
        res@.len() == a@.len(),
        forall|c: int| 0 <= c < a@.len() ==> #[trigger] res@[c] == a@[c] + b@[c],
{
    let mut res = a;
    let mut i: usize = 0;
    while i < res.len()
        invariant
            i <= res@.len() == a@.len() == b@.len(),
            forall|c: int| 0 <= c < a@.len() ==> #[trigger] a@[c] + b@[c] <= u64::MAX,
            forall|c: int| 0 <= c < i ==> #[trigger] res@[c] == a@[c] + b@[c],
            forall|c: int| i <= c < res@.len() ==> #[trigger] res@[c] == a@[c],
        decreases res@.len() - i,
    {
        let v = res[i] + b[i];
        res.set(i, v);
        i = i + 1;
    }
    res
}

/// Row sums of a row-major buffer of width `w`, one per full row, computed
/// in parallel by rayon: `par_chunks_exact(w)` hands out the rows in order,
/// `map` sums each with `sum_row`, and `collect` keeps their order.
#[verifier::external_body]
fn par_row_sums(pixels: &[u8], w: usize) -> (res: Vec<u64>)
    requires
        0 < w <= u32::MAX,
        pixels@.len() as int % (w as int) == 0,
    ensures
        res@.len() == pixels@.len() as int / (w as int),
        forall|r: int| 0 <= r < res@.len() ==> #[trigger] res@[r] == row_sum(pixels@, w as int, r),
{
    pixels.par_chunks_exact(w).map(|row| sum_row(row)).collect()
}

/// Column sums of a row-major buffer of width `w` over its full rows,
/// computed in parallel by rayon: each worker folds its rows into a vector
/// of zeros with `add_row`, and `reduce` adds the partial vectors with
/// `add_columns`. Addition is associative and commutative, so the split
/// does not change the sums.
#[verifier::external_body]
fn par_column_sums(pixels: &[u8], w: usize) -> (res: Vec<u64>)
    requires
        0 < w,
        pixels@.len() as int % (w as int) == 0,
        pixels@.len() as int / (w as int) <= u32::MAX,
    ensures
        res@.len() == w,
        forall|c: int|
            0 <= c < w ==> #[trigger] res@[c] == column_sum(
                pixels@,
                w as int,
                c,
                pixels@.len() as int / (w as int),
            ),
{
    pixels.par_chunks_exact(w).fold(|| zero_columns(w), |acc, row| add_row(acc, row)).reduce(
        || zero_columns(w),
        |a, b| add_columns(a, b),
    )
}

/// The projection profile of a `width` by `height` image whose pixel
/// `(x, y)` is `luma[y * width + x]`; bytes past `width * height` are not
/// pixels and are not read.
pub fn profile_from_luma(width: u32, height: u32, luma: &[u8]) -> (res: ProjectionProfile)
    requires
        luma@.len() >= width as int * height as int,
    ensures
        is_profile_of(res, width, height, luma@),
{
    if width == 0 || height == 0 {
        let vpp = zero_columns(width as usize);
        let hpp = zero_columns(height as usize);
        proof {
            assert forall|c: int| 0 <= c < width implies #[trigger] vpp@[c] == column_sum(
                luma@,
                width as int,
                c,
                height as int,
            ) by {
                assert(height == 0);
            }
            assert forall|r: int| 0 <= r < height implies #[trigger] hpp@[r] == row_sum(
                luma@,
                width as int,
                r,
            ) by {
                assert(width == 0);
                assert(luma@.subrange(r * 0, r * 0 + 0) =~= Seq::<u8>::empty());
            }
        }
        return ProjectionProfile { vpp, hpp, width, height };
    }
    let w = width as usize;
    let h = height as usize;
    let len = luma.len();
    assert(w * h <= len) by (nonlinear_arith)
        requires
            w == width,
            h == height,
            len == luma@.len(),
            luma@.len() >= width as int * height as int,
    ;
    let n = w * h;
    let pixels = &luma[0..n];
    assert(pixels@.len() as int / (w as int) == h) by (nonlinear_arith)
        requires
            pixels@.len() == w * h,
            w > 0,
    ;
    assert(pixels@.len() as int % (w as int) == 0) by (nonlinear_arith)
        requires
            pixels@.len() == w * h,
            w > 0,
    ;
    let hpp = par_row_sums(pixels, w);
    let vpp = par_column_sums(pixels, w);
    proof {
        assert forall|c: int| 0 <= c < width implies #[trigger] vpp@[c] == column_sum(
            luma@,
            width as int,
            c,
            height as int,
        ) by {
            lemma_column_sum_prefix(pixels@, luma@, w as int, c, h as int);
        }
        assert forall|r: int| 0 <= r < height implies #[trigger] hpp@[r] == row_sum(
            luma@,
            width as int,
            r,
        ) by {
            assert(r * w + w <= h * w) by (nonlinear_arith)
                requires
                    0 <= r < h,
                    w > 0,
            ;
            assert(h * w == w * h) by (nonlinear_arith);
            assert(pixels@.subrange(r * w, r * w + w) =~= luma@.subrange(r * w, r * w + w));
        }
    }
    ProjectionProfile { vpp, hpp, width, height }
}

proof fn lemma_column_sum_prefix(pre: Seq<u8>, full: Seq<u8>, w: int, c: int, rows: int)
    requires
        0 <= c < w,
        pre.len() == w * rows,
        pre.len() <= full.len(),
        forall|i: int| 0 <= i < pre.len() ==> pre[i] == full[i],
    ensures
        column_sum(pre, w, c, rows) == column_sum(full, w, c, rows),
    decreases rows,
{
    if rows > 0 {
        assert((rows - 1) * w + c < w * rows) by (nonlinear_arith)
            requires
                0 <= c < w,
                rows > 0,
        ;
        assert(w * (rows - 1) == w * rows - w) by (nonlinear_arith);
        lemma_column_sum_prefix(pre.subrange(0, w * (rows - 1)), full, w, c, rows - 1);
        lemma_column_sum_subrange(pre, w, c, rows - 1, w * (rows - 1));
    }
}

proof fn lemma_column_sum_subrange(s: Seq<u8>, w: int, c: int, rows: int, len: int)
    requires
        0 <= c < w,
        rows >= 0,
        rows * w <= len <= s.len(),
    ensures
        column_sum(s.subrange(0, len), w, c, rows) == column_sum(s, w, c, rows),
    decreases rows,
{
    if rows > 0 {
        assert((rows - 1) * w + c < rows * w) by (nonlinear_arith)
            requires
                0 <= c < w,
                rows > 0,
        ;
        assert((rows - 1) * w <= rows * w) by (nonlinear_arith)
            requires
                w > 0,
                rows > 0,
        ;
        lemma_column_sum_subrange(s, w, c, rows - 1, len);
    }
}

/// Computes the vertical and horizontal projection profiles of an image.
///
/// VPP: sum of pixel values along each column. HPP: sum of pixel values
/// along each row. The image is converted to 8-bit luma before summing.
pub fn compute_profile(img: &DynamicImage) -> (res: ProjectionProfile)
    ensures
        is_profile_of(res, image_dims(*img).0, image_dims(*img).1, image_luma(*img)),
        image_luma(*img).len() >= image_dims(*img).0 as int * image_dims(*img).1 as int,
{
    let luma = luma_pixels(img);
    let (width, height) = dimensions(img);
    profile_from_luma(width, height, luma.as_slice())
}

/// Every entry of a profile of an image of at most `u32::MAX` pixels per
/// side is at most 255 times the other side.
pub proof fn lemma_profile_bounds(p: ProjectionProfile, w: u32, h: u32, luma: Seq<u8>)
    requires
        is_profile_of(p, w, h, luma),
        luma.len() >= w as int * h as int,
    ensures
        forall|c: int| 0 <= c < w ==> #[trigger] p.vpp@[c] <= 255 * h,
        forall|r: int| 0 <= r < h ==> #[trigger] p.hpp@[r] <= 255 * w,
{
    assert forall|c: int| 0 <= c < w implies #[trigger] p.vpp@[c] <= 255 * h by {
        lemma_column_sum_bound(luma, w as int, c, h as int);
    }
    assert forall|r: int| 0 <= r < h implies #[trigger] p.hpp@[r] <= 255 * w by {
        assert(r * w + w <= w * h) by (nonlinear_arith)
            requires
                0 <= r < h,
        ;
        lemma_sum_bytes_bound(luma.subrange(r * w, r * w + w));
    }
}

/// Sum of the first `k` entries of column sums over `rows` rows.
pub open spec fn sum_columns(luma: Seq<u8>, w: int, rows: int, k: int) -> int
    decreases k,
{
    if k <= 0 {
        0
    } else {
        sum_columns(luma, w, rows, k - 1) + column_sum(luma, w, k - 1, rows)
    }
}

/// Sum of the first `k` row sums.
pub open spec fn sum_rows(luma: Seq<u8>, w: int, k: int) -> int
    decreases k,
{
    if k <= 0 {
        0
    } else {
        sum_rows(luma, w, k - 1) + row_sum(luma, w, k - 1)
    }
}

/// Sum of the entries `[base, base + k)` of a byte sequence, one by one.
spec fn sum_bytes_from(luma: Seq<u8>, base: int, k: int) -> int
    decreases k,
{
    if k <= 0 {
        0
    } else {
        sum_bytes_from(luma, base, k - 1) + luma[base + k - 1] as int
    }
}

proof fn lemma_sum_bytes_from(luma: Seq<u8>, base: int, k: int)
    requires
        0 <= base,
        0 <= k,
        base + k <= luma.len(),
    ensures
        sum_bytes_from(luma, base, k) == sum_bytes(luma.subrange(base, base + k)),
    decreases k,
{
    if k > 0 {
        lemma_sum_bytes_from(luma, base, k - 1);
        assert(luma.subrange(base, base + k).drop_last() =~= luma.subrange(base, base + k - 1));
    }
}

proof fn lemma_sum_columns_step(luma: Seq<u8>, w: int, rows: int, k: int)
    requires
        rows > 0,
        k >= 0,
    ensures
        sum_columns(luma, w, rows, k) == sum_columns(luma, w, rows - 1, k) + sum_bytes_from(
            luma,
            (rows - 1) * w,
            k,
        ),
    decreases k,
{
    if k > 0 {
        lemma_sum_columns_step(luma, w, rows, k - 1);
    }
}

proof fn lemma_columns_equal_rows(luma: Seq<u8>, w: int, rows: int)
    requires
        w >= 0,
        rows >= 0,
        luma.len() >= w * rows,
    ensures
        sum_columns(luma, w, rows, w) == sum_rows(luma, w, rows),
    decreases rows,
{
    if rows == 0 {
        lemma_sum_columns_zero(luma, w, w);
    } else {
        assert(w * (rows - 1) <= w * rows) by (nonlinear_arith)
            requires
                w >= 0,
                rows > 0,
        ;
        lemma_columns_equal_rows(luma, w, rows - 1);
        lemma_sum_columns_step(luma, w, rows, w);
        assert((rows - 1) * w + w == w * rows) by (nonlinear_arith);
        assert((rows - 1) * w >= 0) by (nonlinear_arith)
            requires
                w >= 0,
                rows > 0,
        ;
        lemma_sum_bytes_from(luma, (rows - 1) * w, w);
    }
}

proof fn lemma_sum_columns_zero(luma: Seq<u8>, w: int, k: int)
    ensures
        sum_columns(luma, w, 0, k) == 0,
    decreases k,
{
    if k > 0 {
        lemma_sum_columns_zero(luma, w, k - 1);
    }
}

/// The sum of a profile's entries.
pub open spec fn profile_total(s: Seq<u64>) -> int
    decreases s.len(),
{
    if s.len() == 0 {
        0
    } else {
        profile_total(s.drop_last()) + s.last() as int
    }
}

proof fn lemma_total_of_columns(p: Seq<u64>, luma: Seq<u8>, w: int, rows: int, k: int)
    requires
        0 <= k <= p.len(),
        forall|c: int| 0 <= c < p.len() ==> #[trigger] p[c] == column_sum(luma, w, c, rows),
    ensures
        profile_total(p.subrange(0, k)) == sum_columns(luma, w, rows, k),
    decreases k,
{
    if k > 0 {
        lemma_total_of_columns(p, luma, w, rows, k - 1);
        assert(p.subrange(0, k).drop_last() =~= p.subrange(0, k - 1));
    }
}

proof fn lemma_total_of_rows(p: Seq<u64>, luma: Seq<u8>, w: int, k: int)
    requires
        0 <= k <= p.len(),
        forall|r: int| 0 <= r < p.len() ==> #[trigger] p[r] == row_sum(luma, w, r),
    ensures
        profile_total(p.subrange(0, k)) == sum_rows(luma, w, k),
    decreases k,
{
    if k > 0 {
        lemma_total_of_rows(p, luma, w, k - 1);
        assert(p.subrange(0, k).drop_last() =~= p.subrange(0, k - 1));
    }
}

/// Both profiles of an image account for the same total intensity: the
/// column sums add up to what the row sums add up to.
pub proof fn lemma_profile_totals_agree(p: ProjectionProfile, w: u32, h: u32, luma: Seq<u8>)
    requires
        is_profile_of(p, w, h, luma),
        luma.len() >= w as int * h as int,
    ensures
        profile_total(p.vpp@) == profile_total(p.hpp@),
{
    lemma_total_of_columns(p.vpp@, luma, w as int, h as int, w as int);
    lemma_total_of_rows(p.hpp@, luma, w as int, h as int);
    assert(p.vpp@.subrange(0, w as int) =~= p.vpp@);
    assert(p.hpp@.subrange(0, h as int) =~= p.hpp@);
    lemma_columns_equal_rows(luma, w as int, h as int);
}

} // verus!
