//! Image splitting: locating the frames of a film strip from the
//! projection profiles of its scan, and cropping them out.

use vstd::prelude::*;

use image::DynamicImage;

use crate::error::{Error, Result};
use crate::gutters::{
    candidate_gutters, lemma_gutters_of_expected_count, lemma_kept_gutters_beat_dropped, gutter_mask, gutters_of, percentile_value, smoothed,
    sum_u64, well_ordered, window_end, window_start, window_sum, window_sums_fit,
    SMOOTHING_WINDOW,
};
use crate::imaging::{crop_extent, crop_imm, dimensions, image_crop, image_dims, image_luma};
use crate::profile::{column_sum, is_profile_of, lemma_profile_bounds, row_sum};

pub use crate::gutters::{find_gutters, Gutter, GutterConfig, Percentile};
pub use crate::profile::{compute_profile, profile_from_luma, ProjectionProfile};

verus! {

/// Configuration for the image splitting process.
#[derive(Debug, Clone, Copy)]
pub struct SplitConfig {
    /// Expected number of output frames (typically 3).
    pub expected_frames: usize,
    /// Percentile to use for adaptive thresholding.
    pub percentile: Percentile,
    /// Minimum width of a gutter.
    pub min_width: usize,
    /// Whether to look for light gutters (hills) instead of dark gutters (valleys).
    pub light_gutters: bool,
}

/// A rectangle of pixels: top-left corner and extent.
#[derive(Debug, Clone, Copy, PartialEq, Eq)]
pub struct Rect {
    /// The x coordinate of the top left corner.
    pub x: u32,
    /// The y coordinate of the top left corner.
    pub y: u32,
    /// The rectangle's width.
    pub width: u32,
    /// The rectangle's height.
    pub height: u32,
}

/// Context for performing the image splitting.
pub struct SplitContext {
    /// Configuration for the splitting process.
    pub config: SplitConfig,
    /// Input image to split.
    pub input_image: DynamicImage,
    /// Detected frame bounding boxes.
    pub detected_rects: Vec<Rect>,
}

// ---------------------------------------------------------------------
// Specification of the frame layout
// ---------------------------------------------------------------------

/// `a - b`, or zero when `b > a`.
pub open spec fn sub_or_zero(a: int, b: int) -> int {
    if a >= b {
        a - b
    } else {
        0
    }
}

/// The smaller of two integers.
pub open spec fn min_int(a: int, b: int) -> int {
    if a <= b {
        a
    } else {
        b
    }
}

/// The rectangle at `(x, y)` of `w` by `h` pixels, with its corner clamped
/// to the last column and row of an `iw` by `ih` image and its extent to
/// what remains of the image from there.
pub open spec fn clamped_rect(x: int, y: int, w: int, h: int, iw: int, ih: int) -> Rect {
    let cx = min_int(x, sub_or_zero(iw, 1));
    let cy = min_int(y, sub_or_zero(ih, 1));
    Rect {
        x: cx as u32,
        y: cy as u32,
        width: min_int(w, sub_or_zero(iw, cx)) as u32,
        height: min_int(h, sub_or_zero(ih, cy)) as u32,
    }
}

/// First index at or after `i` whose mask entry is false (`m.len()` if none).
pub open spec fn first_clear(m: Seq<bool>, i: int) -> int
    decreases m.len() - i,
{
    if i < 0 || i >= m.len() {
        m.len() as int
    } else if !m[i] {
        i
    } else {
        first_clear(m, i + 1)
    }
}

/// Last index before `i` whose mask entry is false (-1 if none).
pub open spec fn last_clear(m: Seq<bool>, i: int) -> int
    decreases i,
{
    if i <= 0 || i > m.len() {
        -1
    } else if !m[i - 1] {
        i - 1
    } else {
        last_clear(m, i - 1)
    }
}

/// The first and last index of a profile that do not look like a gutter;
/// `0` and the last index when every index does; `(0, 0)` for an empty profile.
pub open spec fn active_bounds(prof: Seq<u64>, p: Percentile, light: bool) -> (int, int) {
    if prof.len() == 0 {
        (0, 0)
    } else {
        let sm = smoothed(prof, SMOOTHING_WINDOW as int);
        let m = gutter_mask(sm, percentile_value(sm, p), light);
        let f = first_clear(m, 0);
        let l = last_clear(m, m.len() as int);
        (if f < m.len() {
            f
        } else {
            0
        }, if l >= 0 {
            l
        } else {
            m.len() - 1
        })
    }
}

/// The three frames of an `iw` by `ih` strip, given the gutters found along
/// its stacking axis and the active bounds `(xs, xe)` across the columns and
/// `(ys, ye)` across the rows. With exactly two gutters, the frames are cut
/// at their centers; otherwise the active range of the stacking axis is cut
/// into three parts, the first two of a third of it each. Gutters come in
/// order of position without overlapping, so their centers are in order too.
pub open spec fn frame_layout(
    iw: int,
    ih: int,
    horizontal: bool,
    gutters: Seq<Gutter>,
    xs: int,
    xe: int,
    ys: int,
    ye: int,
) -> Seq<Rect> {
    if gutters.len() == 2 {
        let c1 = (gutters[0].start + gutters[0].end) / 2;
        let c2 = (gutters[1].start + gutters[1].end) / 2;
        if horizontal {
            let h = sub_or_zero(ye + 1, ys);
            seq![
                clamped_rect(xs, ys, sub_or_zero(c1, xs), h, iw, ih),
                clamped_rect(c1, ys, sub_or_zero(c2, c1), h, iw, ih),
                clamped_rect(c2, ys, sub_or_zero(xe + 1, c2), h, iw, ih),
            ]
        } else {
            let w = sub_or_zero(xe + 1, xs);
            seq![
                clamped_rect(xs, ys, w, sub_or_zero(c1, ys), iw, ih),
                clamped_rect(xs, c1, w, sub_or_zero(c2, c1), iw, ih),
                clamped_rect(xs, c2, w, sub_or_zero(ye + 1, c2), iw, ih),
            ]
        }
    } else if horizontal {
        let third = sub_or_zero(xe + 1, xs) / 3;
        let h = sub_or_zero(ye + 1, ys);
        seq![
            clamped_rect(xs, ys, third, h, iw, ih),
            clamped_rect(xs + third, ys, third, h, iw, ih),
            clamped_rect(xs + 2 * third, ys, sub_or_zero(xe + 1, xs + 2 * third), h, iw, ih),
        ]
    } else {
        let third = sub_or_zero(ye + 1, ys) / 3;
        let w = sub_or_zero(xe + 1, xs);
        seq![
            clamped_rect(xs, ys, w, third, iw, ih),
            clamped_rect(xs, ys + third, w, third, iw, ih),
            clamped_rect(xs, ys + 2 * third, w, sub_or_zero(ye + 1, ys + 2 * third), iw, ih),
        ]
    }
}

/// The vertical projection profile (column sums) of a `w` by `h` luma buffer.
pub open spec fn column_profile(luma: Seq<u8>, w: u32, h: u32) -> Seq<u64> {
    Seq::new(w as nat, |c: int| column_sum(luma, w as int, c, h as int) as u64)
}

/// The horizontal projection profile (row sums) of a `w` by `h` luma buffer.
pub open spec fn row_profile(luma: Seq<u8>, w: u32, h: u32) -> Seq<u64> {
    Seq::new(h as nat, |r: int| row_sum(luma, w as int, r) as u64)
}

/// The gutter configuration that splitting derives from its own: one
/// gutter fewer than the expected frames.
pub open spec fn gutter_config_of(config: SplitConfig) -> GutterConfig {
    GutterConfig {
        expected_count: Some(sub_or_zero(config.expected_frames as int, 1) as usize),
        light_gutters: config.light_gutters,
        min_width: config.min_width,
        percentile: config.percentile,
    }
}

/// The frames that splitting finds in a `w` by `h` image with the given
/// luma buffer: gutters are looked for along the longer side (the width
/// when the sides are equal), and active bounds on both profiles.
pub open spec fn split_rects(w: u32, h: u32, luma: Seq<u8>, config: SplitConfig) -> Seq<Rect> {
    let vpp = column_profile(luma, w, h);
    let hpp = row_profile(luma, w, h);
    let horizontal = w >= h;
    let gutters = gutters_of(if horizontal { vpp } else { hpp }, gutter_config_of(config));
    let (xs, xe) = active_bounds(vpp, config.percentile, config.light_gutters);
    let (ys, ye) = active_bounds(hpp, config.percentile, config.light_gutters);
    frame_layout(w as int, h as int, horizontal, gutters, xs, xe, ys, ye)
}

/// A rectangle lies inside an `iw` by `ih` image.
pub open spec fn rect_within(r: Rect, iw: int, ih: int) -> bool {
    &&& r.x as int + r.width as int <= iw
    &&& r.y as int + r.height as int <= ih
    &&& r.x < iw
    &&& r.y < ih
}

// ---------------------------------------------------------------------
// Implementation
// ---------------------------------------------------------------------

proof fn lemma_sum_u64_le(s: Seq<u64>, b: int)
    requires
        forall|i: int| 0 <= i < s.len() ==> #[trigger] s[i] <= b,
    ensures
        sum_u64(s) <= s.len() * b,
    decreases s.len(),
{
    if s.len() > 0 {
        lemma_sum_u64_le(s.drop_last(), b);
        assert((s.len() - 1) * b + b == s.len() * b) by (nonlinear_arith);
    }
}

/// A profile whose entries are at most `255 * u32::MAX` has window sums that fit.
proof fn lemma_window_sums_fit(prof: Seq<u64>)
    requires
        forall|i: int| 0 <= i < prof.len() ==> #[trigger] prof[i] <= 255 * u32::MAX,
    ensures
        window_sums_fit(prof, SMOOTHING_WINDOW as int),
{
    assert forall|i: int| 0 <= i < prof.len() implies #[trigger] window_sum(prof, 3, i) <= u64::MAX by {
        let s = prof.subrange(window_start(i, 3), window_end(i, 3, prof.len() as int));
        lemma_sum_u64_le(s, 255 * u32::MAX);
        assert(s.len() <= 7);
        assert(s.len() * (255 * u32::MAX) <= 7 * (255 * u32::MAX)) by (nonlinear_arith)
            requires
                s.len() <= 7,
        ;
    }
}

proof fn lemma_first_clear(m: Seq<bool>, i: int)
    requires
        0 <= i <= m.len(),
    ensures
        i <= first_clear(m, i) <= m.len(),
        first_clear(m, i) < m.len() ==> !m[first_clear(m, i)],
        forall|j: int| i <= j < first_clear(m, i) ==> #[trigger] m[j],
    decreases m.len() - i,
{
    if i < m.len() && m[i] {
        lemma_first_clear(m, i + 1);
    }
}

proof fn lemma_last_clear(m: Seq<bool>, i: int)
    requires
        0 <= i <= m.len(),
    ensures
        -1 <= last_clear(m, i) < i,
        last_clear(m, i) >= 0 ==> !m[last_clear(m, i)],
        forall|j: int| last_clear(m, i) < j < i ==> #[trigger] m[j],
    decreases i,
{
    if i > 0 && m[i - 1] {
        lemma_last_clear(m, i - 1);
    }
}

/// Whether a smoothed value looks like a gutter against the threshold.
fn looks_like_gutter(v: u64, threshold: u64, light: bool) -> (res: bool)
    ensures
        res == crate::gutters::is_gutter_value(v, threshold, light),
{
    if light {
        v >= threshold
    } else {
        v <= threshold
    }
}

/// The active bounds of a profile.
fn find_active_bounds(prof: &[u64], p: Percentile, light: bool) -> (res: (usize, usize))
    requires
        window_sums_fit(prof@, SMOOTHING_WINDOW as int),
    ensures
        res.0 == active_bounds(prof@, p, light).0,
        res.1 == active_bounds(prof@, p, light).1,
        prof@.len() > 0 ==> res.0 < prof@.len() && res.1 < prof@.len(),
        prof@.len() == 0 ==> res.0 == 0 && res.1 == 0,
{
    if prof.len() == 0 {
        return (0, 0);
    }
    let sm = crate::gutters::smooth_profile(prof, SMOOTHING_WINDOW);
    let threshold = crate::gutters::calculate_percentile(sm.as_slice(), p);
    let ghost m = gutter_mask(sm@, threshold, light);
    let n = sm.len();
    let mut start: usize = 0;
    while start < n && looks_like_gutter(sm[start], threshold, light)
        invariant
            n == sm@.len() == m.len(),
            m == gutter_mask(sm@, threshold, light),
            start <= n,
            first_clear(m, 0) == first_clear(m, start as int),
        decreases n - start,
    {
        start = start + 1;
    }
    let first = if start < n {
        start
    } else {
        0
    };
    let mut end: usize = n;
    while end > 0 && looks_like_gutter(sm[end - 1], threshold, light)
        invariant
            n == sm@.len() == m.len(),
            m == gutter_mask(sm@, threshold, light),
            end <= n,
            last_clear(m, n as int) == last_clear(m, end as int),
        decreases end,
    {
        end = end - 1;
    }
    let last = if end > 0 {
        end - 1
    } else {
        n - 1
    };
    (first, last)
}

/// The rectangle at `(x, y)` of `w` by `h` pixels, clamped into the image.
fn create_rect(x: usize, y: usize, w: usize, h: usize, img_width: usize, img_height: usize) -> (res:
    Rect)
    requires
        img_width <= u32::MAX,
        img_height <= u32::MAX,
        w <= u32::MAX,
        h <= u32::MAX,
    ensures
        res == clamped_rect(
            x as int,
            y as int,
            w as int,
            h as int,
            img_width as int,
            img_height as int,
        ),
{
    let last_col = img_width.saturating_sub(1);
    let last_row = img_height.saturating_sub(1);
    let cx: usize = if x < last_col {
        x
    } else {
        last_col
    };
    let cy: usize = if y < last_row {
        y
    } else {
        last_row
    };
    let x = cx as u32;
    let y = cy as u32;
    let max_w = (img_width as u32).saturating_sub(x);
    let max_h = (img_height as u32).saturating_sub(y);
    let w32 = w as u32;
    let h32 = h as u32;
    let width = if w32 < max_w {
        w32
    } else {
        max_w
    };
    let height = if h32 < max_h {
        h32
    } else {
        max_h
    };
    Rect { x, y, width, height }
}

/// The three frames, laid out as `frame_layout` says.
fn layout_frames(
    iw: usize,
    ih: usize,
    horizontal: bool,
    gutters: &Vec<Gutter>,
    xs: usize,
    xe: usize,
    ys: usize,
    ye: usize,
) -> (res: Vec<Rect>)
    requires
        0 < iw <= u32::MAX,
        0 < ih <= u32::MAX,
        xs < iw,
        xe < iw,
        ys < ih,
        ye < ih,
        well_ordered(gutters@, if horizontal { iw as int } else { ih as int }),
    ensures
        res@ == frame_layout(
            iw as int,
            ih as int,
            horizontal,
            gutters@,
            xs as int,
            xe as int,
            ys as int,
            ye as int,
        ),
{
    let mut rects: Vec<Rect> = Vec::new();
    if gutters.len() == 2 {
        let c1 = gutters[0].center();
        let c2 = gutters[1].center();
        if horizontal {
            let h = y_end_extent(ye, ys);
            rects.push(create_rect(xs, ys, c1.saturating_sub(xs), h, iw, ih));
            rects.push(create_rect(c1, ys, c2.saturating_sub(c1), h, iw, ih));
            rects.push(create_rect(c2, ys, xe.saturating_add(1).saturating_sub(c2), h, iw, ih));
        } else {
            let w = y_end_extent(xe, xs);
            rects.push(create_rect(xs, ys, w, c1.saturating_sub(ys), iw, ih));
            rects.push(create_rect(xs, c1, w, c2.saturating_sub(c1), iw, ih));
            rects.push(create_rect(xs, c2, w, ye.saturating_add(1).saturating_sub(c2), iw, ih));
        }
    } else if horizontal {
        let active_len = y_end_extent(xe, xs);
        let w = active_len / 3;
        let h = y_end_extent(ye, ys);
        rects.push(create_rect(xs, ys, w, h, iw, ih));
        rects.push(create_rect(xs.saturating_add(w), ys, w, h, iw, ih));
        let third_start = xs.saturating_add(2 * w);
        rects.push(
            create_rect(third_start, ys, xe.saturating_add(1).saturating_sub(third_start), h, iw, ih),
        );
    } else {
        let active_len = y_end_extent(ye, ys);
        let w = active_len / 3;
        let w_h = y_end_extent(xe, xs);
        rects.push(create_rect(xs, ys, w_h, w, iw, ih));
        rects.push(create_rect(xs, ys.saturating_add(w), w_h, w, iw, ih));
        let third_start = ys.saturating_add(2 * w);
        rects.push(
            create_rect(xs, third_start, w_h, ye.saturating_add(1).saturating_sub(third_start), iw, ih),
        );
    }
    assert(rects@ =~= frame_layout(
        iw as int,
        ih as int,
        horizontal,
        gutters@,
        xs as int,
        xe as int,
        ys as int,
        ye as int,
    ));
    rects
}

/// `end + 1 - start`, or zero: the extent of an inclusive range of indices.
fn y_end_extent(end: usize, start: usize) -> (res: usize)
    requires
        end < u32::MAX,
    ensures
        res == sub_or_zero(end + 1, start as int),
        res <= end + 1,
{
    end.saturating_add(1).saturating_sub(start)
}

impl SplitContext {
    /// Creates a new `SplitContext` with the given input image and configuration.
    pub fn new(img: DynamicImage, config: SplitConfig) -> (res: Self)
        ensures
            res.config == config,
            res.input_image == img,
            res.detected_rects@ == Seq::<Rect>::empty(),
    {
        SplitContext { config, input_image: img, detected_rects: Vec::new() }
    }

    /// Runs the splitting algorithm on the input image.
    ///
    /// Fails when a dimension of the image is zero. Otherwise the detected
    /// rectangles are the three frames that `split_rects` describes: the
    /// gutters are searched along the longer side, and the frames are cut at
    /// the centers of two gutters, or in thirds of the active range when
    /// there are not exactly two.
    pub fn run(&mut self) -> (res: Result<()>)
        ensures
            final(self).config == old(self).config,
            final(self).input_image == old(self).input_image,
            ({
                let (w, h) = image_dims(old(self).input_image);
                &&& (w == 0 || h == 0) ==> {
                    &&& res matches Err(Error::Splitting(m)) && m@ == "Image dimensions cannot be zero"@
                    &&& final(self).detected_rects == old(self).detected_rects
                }
                &&& !(w == 0 || h == 0) ==> {
                    &&& res is Ok
                    &&& final(self).detected_rects@.len() == 3
                    &&& forall|i: int|
                        0 <= i < 3 ==> #[trigger] rect_within(
                            final(self).detected_rects@[i],
                            w as int,
                            h as int,
                        )
                    &&& final(self).detected_rects@ == split_rects(
                        w,
                        h,
                        image_luma(old(self).input_image),
                        old(self).config,
                    )
                }
            }),
    {
        let (width32, height32) = dimensions(&self.input_image);
        let width = width32 as usize;
        let height = height32 as usize;
        if width == 0 || height == 0 {
            let msg = String::from_str("Image dimensions cannot be zero");
            return Err(Error::Splitting(msg));
        }
        let is_horizontal = width >= height;
        let profile = compute_profile(&self.input_image);
        let ghost luma = image_luma(self.input_image);
        proof {
            lemma_profile_bounds(profile, width32, height32, luma);
            assert(profile.vpp@ =~= column_profile(luma, width32, height32));
            assert(profile.hpp@ =~= row_profile(luma, width32, height32));
            lemma_window_sums_fit(profile.vpp@);
            lemma_window_sums_fit(profile.hpp@);
        }
        let gutter_config = GutterConfig {
            expected_count: Some(self.config.expected_frames.saturating_sub(1)),
            light_gutters: self.config.light_gutters,
            min_width: self.config.min_width,
            percentile: self.config.percentile,
        };
        let gutters = if is_horizontal {
            find_gutters(profile.vpp.as_slice(), &gutter_config)
        } else {
            find_gutters(profile.hpp.as_slice(), &gutter_config)
        };
        let (x_start, x_end) = find_active_bounds(
            profile.vpp.as_slice(),
            self.config.percentile,
            self.config.light_gutters,
        );
        let (y_start, y_end) = find_active_bounds(
            profile.hpp.as_slice(),
            self.config.percentile,
            self.config.light_gutters,
        );
        let rects = layout_frames(
            width,
            height,
            is_horizontal,
            &gutters,
            x_start,
            x_end,
            y_start,
            y_end,
        );
        proof {
            lemma_split_rects_within(width32, height32, luma, self.config);
        }
        self.detected_rects = rects;
        Ok(())
    }
}

proof fn lemma_clamped_rect_within(x: int, y: int, w: int, h: int, iw: int, ih: int)
    requires
        x >= 0,
        y >= 0,
        w >= 0,
        h >= 0,
        0 < iw <= u32::MAX,
        0 < ih <= u32::MAX,
    ensures
        rect_within(clamped_rect(x, y, w, h, iw, ih), iw, ih),
{
}

proof fn lemma_active_bounds_nonneg(prof: Seq<u64>, p: Percentile, light: bool)
    ensures
        active_bounds(prof, p, light).0 >= 0,
        active_bounds(prof, p, light).1 >= 0,
{
    if prof.len() > 0 {
        let sm = smoothed(prof, SMOOTHING_WINDOW as int);
        let m = gutter_mask(sm, percentile_value(sm, p), light);
        lemma_first_clear(m, 0);
        lemma_last_clear(m, m.len() as int);
    }
}

/// Splitting a non-empty image always yields three frames, and each frame
/// lies inside the image.
pub proof fn lemma_split_rects_within(w: u32, h: u32, luma: Seq<u8>, config: SplitConfig)
    requires
        w > 0,
        h > 0,
    ensures
        split_rects(w, h, luma, config).len() == 3,
        forall|i: int|
            0 <= i < 3 ==> #[trigger] rect_within(split_rects(w, h, luma, config)[i], w as int, h as int),
{
    let vpp = column_profile(luma, w, h);
    let hpp = row_profile(luma, w, h);
    lemma_active_bounds_nonneg(vpp, config.percentile, config.light_gutters);
    lemma_active_bounds_nonneg(hpp, config.percentile, config.light_gutters);
    let horizontal = w >= h;
    let gutters = gutters_of(if horizontal { vpp } else { hpp }, gutter_config_of(config));
    let (xs, xe) = active_bounds(vpp, config.percentile, config.light_gutters);
    let (ys, ye) = active_bounds(hpp, config.percentile, config.light_gutters);
    let rects = frame_layout(w as int, h as int, horizontal, gutters, xs, xe, ys, ye);
    assert(rects == split_rects(w, h, luma, config));
    assert forall|i: int| 0 <= i < 3 implies #[trigger] rect_within(rects[i], w as int, h as int) by {
        if gutters.len() == 2 {
            let c1 = (gutters[0].start + gutters[0].end) / 2;
            let c2 = (gutters[1].start + gutters[1].end) / 2;
            if horizontal {
                let hh = sub_or_zero(ye + 1, ys);
                lemma_clamped_rect_within(xs, ys, sub_or_zero(c1, xs), hh, w as int, h as int);
                lemma_clamped_rect_within(c1, ys, sub_or_zero(c2, c1), hh, w as int, h as int);
                lemma_clamped_rect_within(c2, ys, sub_or_zero(xe + 1, c2), hh, w as int, h as int);
            } else {
                let ww = sub_or_zero(xe + 1, xs);
                lemma_clamped_rect_within(xs, ys, ww, sub_or_zero(c1, ys), w as int, h as int);
                lemma_clamped_rect_within(xs, c1, ww, sub_or_zero(c2, c1), w as int, h as int);
                lemma_clamped_rect_within(xs, c2, ww, sub_or_zero(ye + 1, c2), w as int, h as int);
            }
        } else if horizontal {
            let third = sub_or_zero(xe + 1, xs) / 3;
            let hh = sub_or_zero(ye + 1, ys);
            lemma_clamped_rect_within(xs, ys, third, hh, w as int, h as int);
            lemma_clamped_rect_within(xs + third, ys, third, hh, w as int, h as int);
            lemma_clamped_rect_within(
                xs + 2 * third,
                ys,
                sub_or_zero(xe + 1, xs + 2 * third),
                hh,
                w as int,
                h as int,
            );
        } else {
            let third = sub_or_zero(ye + 1, ys) / 3;
            let ww = sub_or_zero(xe + 1, xs);
            lemma_clamped_rect_within(xs, ys, ww, third, w as int, h as int);
            lemma_clamped_rect_within(xs, ys + third, ww, third, w as int, h as int);
            lemma_clamped_rect_within(
                xs,
                ys + 2 * third,
                ww,
                sub_or_zero(ye + 1, ys + 2 * third),
                w as int,
                h as int,
            );
        }
    }
}

/// The frames tile the active range along the stacking axis: the first
/// starts where the range starts, each starts where the one before ends, and
/// the last ends where the range ends; across the other axis each covers the
/// whole active range. This holds for the cut in thirds, and for the cut at
/// two gutter centers that lie in order inside the active range.
pub proof fn lemma_frames_tile_active_range(
    iw: int,
    ih: int,
    horizontal: bool,
    gutters: Seq<Gutter>,
    xs: int,
    xe: int,
    ys: int,
    ye: int,
)
    requires
        0 < iw <= u32::MAX,
        0 < ih <= u32::MAX,
        0 <= xs <= xe < iw,
        0 <= ys <= ye < ih,
        gutters.len() == 2 ==> {
            let c1 = (gutters[0].start + gutters[0].end) / 2;
            let c2 = (gutters[1].start + gutters[1].end) / 2;
            if horizontal {
                xs <= c1 <= c2 <= xe
            } else {
                ys <= c1 <= c2 <= ye
            }
        },
    ensures
        ({
            let r = frame_layout(iw, ih, horizontal, gutters, xs, xe, ys, ye);
            &&& r.len() == 3
            &&& horizontal ==> {
                &&& r[0].x == xs
                &&& r[0].x + r[0].width == r[1].x
                &&& r[1].x + r[1].width == r[2].x
                &&& r[2].x + r[2].width == xe + 1
                &&& forall|i: int| 0 <= i < 3 ==> #[trigger] r[i].y == ys && r[i].height == ye + 1 - ys
            }
            &&& !horizontal ==> {
                &&& r[0].y == ys
                &&& r[0].y + r[0].height == r[1].y
                &&& r[1].y + r[1].height == r[2].y
                &&& r[2].y + r[2].height == ye + 1
                &&& forall|i: int| 0 <= i < 3 ==> #[trigger] r[i].x == xs && r[i].width == xe + 1 - xs
            }
        }),
{
    let r = frame_layout(iw, ih, horizontal, gutters, xs, xe, ys, ye);
    if gutters.len() != 2 {
        if horizontal {
            let third = sub_or_zero(xe + 1, xs) / 3;
            assert(xs + 2 * third <= xe + 1);
        } else {
            let third = sub_or_zero(ye + 1, ys) / 3;
            assert(ys + 2 * third <= ye + 1);
        }
    }
    assert(r.len() == 3);
}

/// Gutter `g` has an average smoothed value no worse than gutter `d`: for
/// dark gutters `sum(g) / len(g) <= sum(d) / len(d)`, for light gutters the
/// other way round, with sums over the smoothed profile `sm` and lengths the
/// numbers of indices the gutters span.
pub open spec fn no_worse_average(sm: Seq<u64>, light: bool, g: Gutter, d: Gutter) -> bool {
    let sg = sum_u64(sm.subrange(g.start as int, g.end as int));
    let sd = sum_u64(sm.subrange(d.start as int, d.end as int));
    if light {
        sd * (g.end - g.start) <= sg * (d.end - d.start)
    } else {
        sg * (d.end - d.start) <= sd * (g.end - g.start)
    }
}

/// A strip split into three frames along its width, whose column profile
/// has at least two candidate gutters, is cut at the centers of two of
/// them: the second frame starts at the center of the first gutter and the
/// third at the center of the second, the first gutter lies before the
/// second, and no other candidate has a better average than either.
#[verifier::spinoff_prover]
pub proof fn lemma_three_frames_cut_at_best_gutters(w: u32, h: u32, luma: Seq<u8>, config: SplitConfig)
    requires
        w > 0,
        h > 0,
        w >= h,
        config.expected_frames == 3,
        candidate_gutters(column_profile(luma, w, h), config.percentile, config.light_gutters, config.min_width).len()
            >= 2,
    ensures
        ({
            let vpp = column_profile(luma, w, h);
            let cands = candidate_gutters(vpp, config.percentile, config.light_gutters, config.min_width);
            let sm = smoothed(vpp, SMOOTHING_WINDOW as int);
            let rects = split_rects(w, h, luma, config);
            exists|g1: Gutter, g2: Gutter|
                #![trigger cands.contains(g1), cands.contains(g2)]
                {
                    &&& cands.contains(g1)
                    &&& cands.contains(g2)
                    &&& g1.end <= g2.start
                    &&& rects[1].x == (g1.start + g1.end) / 2
                    &&& rects[2].x == (g2.start + g2.end) / 2
                    &&& forall|d: Gutter|
                        #[trigger] cands.contains(d) && d != g1 && d != g2 ==> no_worse_average(
                            sm,
                            config.light_gutters,
                            g1,
                            d,
                        ) && no_worse_average(sm, config.light_gutters, g2, d)
                }
        }),
{
    let vpp = column_profile(luma, w, h);
    let gcfg = gutter_config_of(config);
    let cands = candidate_gutters(vpp, config.percentile, config.light_gutters, config.min_width);
    let sm = smoothed(vpp, SMOOTHING_WINDOW as int);
    assert(gcfg.expected_count == Some(2usize));
    lemma_gutters_of_expected_count(vpp, gcfg);
    let gs = gutters_of(vpp, gcfg);
    let g1 = gs[0];
    let g2 = gs[1];
    assert(gs.contains(g1) && gs.contains(g2));
    let rects = split_rects(w, h, luma, config);
    let c1 = (g1.start + g1.end) / 2;
    let c2 = (g2.start + g2.end) / 2;
    assert(c1 < w && c2 < w);
    assert forall|d: Gutter| #[trigger] cands.contains(d) && d != g1 && d != g2 implies (no_worse_average(
        sm,
        config.light_gutters,
        g1,
        d,
    ) && no_worse_average(sm, config.light_gutters, g2, d)) by {
        if gs.contains(d) {
            let t = choose|t: int| 0 <= t < gs.len() && gs[t] == d;
        }
        lemma_kept_gutters_beat_dropped(vpp, gcfg, g1, d);
        lemma_kept_gutters_beat_dropped(vpp, gcfg, g2, d);
    }
    assert(rects[1].x == c1);
    assert(rects[2].x == c2);
    assert(g1.end <= g2.start);
}

/// The extent of the crop that `split_image` takes of an `iw` by `ih`
/// image for a rectangle: the corner is clamped to the last column and row,
/// and the extent to what remains of the image from there.
pub open spec fn split_extent(iw: u32, ih: u32, r: Rect) -> (u32, u32) {
    let x = min_int(r.x as int, sub_or_zero(iw as int, 1));
    let y = min_int(r.y as int, sub_or_zero(ih as int, 1));
    (min_int(r.width as int, iw - x) as u32, min_int(r.height as int, ih - y) as u32)
}

/// The corner at which `split_image` crops an `iw` by `ih` image for a
/// rectangle: clamped to the last column and row.
pub open spec fn split_corner(iw: u32, ih: u32, r: Rect) -> (u32, u32) {
    (
        min_int(r.x as int, sub_or_zero(iw as int, 1)) as u32,
        min_int(r.y as int, sub_or_zero(ih as int, 1)) as u32,
    )
}

/// The crop that `split_image` takes of `img` for a rectangle: the image
/// cropped at the clamped corner with the clamped extent.
pub open spec fn split_crop(img: DynamicImage, r: Rect) -> DynamicImage {
    let (iw, ih) = image_dims(img);
    let (x, y) = split_corner(iw, ih, r);
    let (w, h) = split_extent(iw, ih, r);
    image_crop(img, x, y, w, h)
}

/// Splits an image into sub-images based on the provided rects.
///
/// Each rectangle is clamped into the image before cropping, so this never
/// fails; it returns a `Result` for API consistency.
pub fn split_image(img: &DynamicImage, rects: &[Rect]) -> (res: Result<Vec<DynamicImage>>)
    ensures
        res matches Ok(subs) && {
            &&& subs@.len() == rects@.len()
            &&& forall|i: int| 0 <= i < rects@.len() ==> #[trigger] subs@[i] == split_crop(*img, rects@[i])
            &&& forall|i: int|
                0 <= i < rects@.len() ==> #[trigger] image_dims(subs@[i]) == split_extent(
                    image_dims(*img).0,
                    image_dims(*img).1,
                    rects@[i],
                )
        },
{
    let mut sub_images: Vec<DynamicImage> = Vec::new();
    let (img_w, img_h) = dimensions(img);
    let mut i: usize = 0;
    while i < rects.len()
        invariant
            i <= rects@.len(),
            (img_w, img_h) == image_dims(*img),
            sub_images@.len() == i,
            forall|k: int| 0 <= k < i ==> #[trigger] sub_images@[k] == split_crop(*img, rects@[k]),
            forall|k: int|
                0 <= k < i ==> #[trigger] image_dims(sub_images@[k]) == split_extent(
                    img_w,
                    img_h,
                    rects@[k],
                ),
        decreases rects@.len() - i,
    {
        let r = rects[i];
        let last_col = img_w.saturating_sub(1);
        let last_row = img_h.saturating_sub(1);
        let x = if r.x < last_col {
            r.x
        } else {
            last_col
        };
        let y = if r.y < last_row {
            r.y
        } else {
            last_row
        };
        let room_w = img_w.saturating_sub(x);
        let room_h = img_h.saturating_sub(y);
        let w = if r.width < room_w {
            r.width
        } else {
            room_w
        };
        let h = if r.height < room_h {
            r.height
        } else {
            room_h
        };
        let cropped = crop_imm(img, x, y, w, h);
        sub_images.push(cropped);
        i = i + 1;
    }
    Ok(sub_images)
}

} // verus!
