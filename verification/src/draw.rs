//! Drawing markers and boxes onto an RGBA overlay image.

use vstd::prelude::*;

use image::{DynamicImage, Rgba, RgbaImage};

use crate::geom::PixelRect;
use crate::imaging::{image_dims, image_rgba};

verus! {

/// An RGBA canvas that markers and boxes are drawn onto, made from an image.
#[verifier::external_body]
pub struct Overlay {
    canvas: RgbaImage,
}

/// The `(width, height)` of an overlay, fixed when it was made.
pub uninterp spec fn overlay_dims(o: Overlay) -> (u32, u32);

/// The pixels of an overlay: the `[r, g, b, a]` channels at each `(x, y)`.
pub uninterp spec fn overlay_pixels(o: Overlay) -> Map<(u32, u32), [u8; 4]>;

/// Calls `DynamicImage::to_rgba8` and keeps the result as a canvas: the
/// image's dimensions, its pixels converted to RGBA.
#[verifier::external_body]
fn canvas_of(img: &DynamicImage) -> (res: Overlay)
    ensures
        overlay_dims(res) == image_dims(*img),
        overlay_pixels(res) == image_rgba(*img),
{
    Overlay { canvas: img.to_rgba8() }
}

/// Wraps the canvas as `DynamicImage::ImageRgba8`, whose RGBA conversion is
/// the canvas itself.
#[verifier::external_body]
fn image_of(o: Overlay) -> (res: DynamicImage)
    ensures
        image_dims(res) == overlay_dims(o),
        image_rgba(res) == overlay_pixels(o),
{
    DynamicImage::ImageRgba8(o.canvas)
}

/// Calls `ImageBuffer::dimensions` on the canvas.
#[verifier::external_body]
fn canvas_dimensions(o: &Overlay) -> (res: (u32, u32))
    ensures
        res == overlay_dims(*o),
{
    o.canvas.dimensions()
}

/// Calls `ImageBuffer::put_pixel`, which sets the pixel at `(x, y)` and
/// nothing else, and panics outside the canvas.
#[verifier::external_body]
fn canvas_put_pixel(o: &mut Overlay, x: u32, y: u32, color: [u8; 4])
    requires
        x < overlay_dims(*old(o)).0,
        y < overlay_dims(*old(o)).1,
    ensures
        overlay_dims(*final(o)) == overlay_dims(*old(o)),
        overlay_pixels(*final(o)) == overlay_pixels(*old(o)).insert((x, y), color),
{
    o.canvas.put_pixel(x, y, Rgba(color))
}

impl Overlay {
    /// A canvas holding an RGBA copy of the image.
    pub fn from_image(img: &DynamicImage) -> (res: Overlay)
        ensures
            overlay_dims(res) == image_dims(*img),
            overlay_pixels(res) == image_rgba(*img),
    {
        canvas_of(img)
    }

    /// The canvas as an image.
    pub fn into_image(self) -> (res: DynamicImage)
        ensures
            image_dims(res) == overlay_dims(self),
            image_rgba(res) == overlay_pixels(self),
    {
        image_of(self)
    }

    /// The canvas's `(width, height)`.
    pub fn dimensions(&self) -> (res: (u32, u32))
        ensures
            res == overlay_dims(*self),
    {
        canvas_dimensions(self)
    }

    /// Sets the pixel at `(x, y)`, which must lie on the canvas.
    fn put_pixel(&mut self, x: u32, y: u32, color: [u8; 4])
        requires
            x < overlay_dims(*old(self)).0,
            y < overlay_dims(*old(self)).1,
        ensures
            overlay_dims(*final(self)) == overlay_dims(*old(self)),
            overlay_pixels(*final(self)) == overlay_pixels(*old(self)).insert((x, y), color),
    {
        canvas_put_pixel(self, x, y, color)
    }
}

/// `pixels` with every point of `area` set to `color`.
pub open spec fn paint(pixels: Map<(u32, u32), [u8; 4]>, area: Set<(u32, u32)>, color: [u8; 4]) -> Map<
    (u32, u32),
    [u8; 4],
> {
    pixels.union_prefer_right(area.mk_map(|p: (u32, u32)| color))
}

/// The points of a `w` by `h` image within `[x0, x1] x [y0, y1]`.
pub open spec fn area(w: u32, h: u32, x0: int, x1: int, y0: int, y1: int) -> Set<(u32, u32)> {
    Set::new(|p: (u32, u32)| p.0 < w && p.1 < h && x0 <= p.0 <= x1 && y0 <= p.1 <= y1)
}

proof fn lemma_paint_insert(
    pixels: Map<(u32, u32), [u8; 4]>,
    a: Set<(u32, u32)>,
    p: (u32, u32),
    color: [u8; 4],
)
    ensures
        paint(pixels, a, color).insert(p, color) == paint(pixels, a.insert(p), color),
{
    assert(paint(pixels, a, color).insert(p, color) =~= paint(pixels, a.insert(p), color));
}

proof fn lemma_paint_twice(
    pixels: Map<(u32, u32), [u8; 4]>,
    a: Set<(u32, u32)>,
    b: Set<(u32, u32)>,
    color: [u8; 4],
)
    ensures
        paint(paint(pixels, a, color), b, color) == paint(pixels, a.union(b), color),
{
    assert(paint(paint(pixels, a, color), b, color) =~= paint(pixels, a.union(b), color));
}

/// Sets every pixel of the image within `[x0, x1] x [y0, y1]` to `color`.
fn fill_area(img: &mut Overlay, x0: i64, x1: i64, y0: i64, y1: i64, color: [u8; 4])
    ensures
        overlay_dims(*final(img)) == overlay_dims(*old(img)),
        overlay_pixels(*final(img)) == paint(
            overlay_pixels(*old(img)),
            area(overlay_dims(*old(img)).0, overlay_dims(*old(img)).1, x0 as int, x1 as int, y0 as int, y1 as int),
            color,
        ),
{
    let ghost start = overlay_pixels(*img);
    let (w, h) = img.dimensions();
    // Only the part of the area inside the image is visited.
    let lo_x: i64 = if x0 > 0 { x0 } else { 0 };
    let hi_x: i64 = if x1 < w as i64 - 1 { x1 } else { w as i64 - 1 };
    let lo_y: i64 = if y0 > 0 { y0 } else { 0 };
    let hi_y: i64 = if y1 < h as i64 - 1 { y1 } else { h as i64 - 1 };
    let mut x = lo_x;
    assert(paint(start, area(w, h, x0 as int, x as int - 1, y0 as int, y1 as int), color) =~= start);
    while x <= hi_x
        invariant
            overlay_dims(*img) == (w, h),
            lo_x <= x <= if hi_x + 1 > lo_x { hi_x + 1 } else { lo_x as int },
            lo_x >= 0,
            lo_x >= x0,
            hi_x <= x1,
            hi_x < w,
            lo_y >= 0,
            lo_y >= y0,
            hi_y <= y1,
            hi_y < h,
            lo_x == x0 || lo_x == 0,
            lo_y == y0 || lo_y == 0,
            hi_x == x1 || hi_x == w - 1,
            hi_y == y1 || hi_y == h - 1,
            overlay_pixels(*img) == paint(start, area(w, h, x0 as int, x as int - 1, y0 as int, y1 as int), color),
        decreases hi_x + 1 - x,
    {
        let mut y = lo_y;
        assert(area(w, h, x0 as int, x as int - 1, y0 as int, y1 as int).union(
            area(w, h, x as int, x as int, y0 as int, y as int - 1),
        ) =~= area(w, h, x0 as int, x as int - 1, y0 as int, y1 as int));
        while y <= hi_y
            invariant
                overlay_dims(*img) == (w, h),
                lo_x <= x <= hi_x,
                lo_x >= 0,
                lo_x >= x0,
                hi_x <= x1,
                hi_x < w,
                lo_y >= 0,
                lo_y >= y0,
                hi_y <= y1,
                hi_y < h,
                lo_y == y0 || lo_y == 0,
                hi_y == y1 || hi_y == h - 1,
                lo_y <= y <= if hi_y + 1 > lo_y { hi_y + 1 } else { lo_y as int },
                overlay_pixels(*img) == paint(
                    start,
                    area(w, h, x0 as int, x as int - 1, y0 as int, y1 as int).union(
                        area(w, h, x as int, x as int, y0 as int, y as int - 1),
                    ),
                    color,
                ),
            decreases hi_y + 1 - y,
        {
            let ghost before = overlay_pixels(*img);
            img.put_pixel(x as u32, y as u32, color);
            proof {
                let a = area(w, h, x0 as int, x as int - 1, y0 as int, y1 as int).union(
                    area(w, h, x as int, x as int, y0 as int, y as int - 1),
                );
                lemma_paint_insert(start, a, (x as u32, y as u32), color);
                assert(a.insert((x as u32, y as u32)) =~= area(w, h, x0 as int, x as int - 1, y0 as int, y1 as int).union(
                    area(w, h, x as int, x as int, y0 as int, y as int),
                ));
            }
            y = y + 1;
        }
        proof {
            assert(area(w, h, x0 as int, x as int - 1, y0 as int, y1 as int).union(
                area(w, h, x as int, x as int, y0 as int, y as int - 1),
            ) =~= area(w, h, x0 as int, x as int, y0 as int, y1 as int));
        }
        x = x + 1;
    }
    proof {
        assert(area(w, h, x0 as int, x as int - 1, y0 as int, y1 as int) =~= area(
            w,
            h,
            x0 as int,
            x1 as int,
            y0 as int,
            y1 as int,
        ));
    }
}

/// `v` fits in an `i32`.
pub open spec fn fits_i32(v: int) -> bool {
    i32::MIN <= v <= i32::MAX
}

/// Draws a filled square marker of half-side `radius` centered at
/// `(center_x, center_y)`, clipped to the canvas.
///
/// The corner coordinates are computed in `i32`, so they must fit there.
pub fn draw_keypoint_marker(img: &mut Overlay, center_x: i32, center_y: i32, radius: i32, color: [u8; 4])
    requires
        radius > i32::MIN,
        radius >= 0 ==> {
            &&& fits_i32(center_x - radius)
            &&& fits_i32(center_x + radius)
            &&& fits_i32(center_y - radius)
            &&& fits_i32(center_y + radius)
        },
    ensures
        overlay_dims(*final(img)) == overlay_dims(*old(img)),
        overlay_pixels(*final(img)) == paint(
            overlay_pixels(*old(img)),
            area(
                overlay_dims(*old(img)).0,
                overlay_dims(*old(img)).1,
                center_x - radius,
                center_x + radius,
                center_y - radius,
                center_y + radius,
            ),
            color,
        ),
{
    let cx = center_x as i64;
    let cy = center_y as i64;
    let r = radius as i64;
    fill_area(img, cx - r, cx + r, cy - r, cy + r, color);
}

/// The outline drawn around a crosshair marker: opaque-ish black.
pub open spec fn crosshair_outline_color() -> [u8; 4] {
    [0u8, 0u8, 0u8, 220u8]
}

/// The horizontal bar of a crosshair: `arm` to each side of the center,
/// `thickness` rows from `-(thickness / 2)`.
pub open spec fn crosshair_bar(w: u32, h: u32, cx: int, cy: int, arm: int, thickness: int) -> Set<(u32, u32)> {
    area(w, h, cx - arm, cx + arm, cy - thickness / 2, cy + thickness - 1 - thickness / 2)
}

/// The vertical bar of a crosshair.
pub open spec fn crosshair_post(w: u32, h: u32, cx: int, cy: int, arm: int, thickness: int) -> Set<(u32, u32)> {
    area(w, h, cx - thickness / 2, cx + thickness - 1 - thickness / 2, cy - arm, cy + arm)
}

/// What a crosshair marker leaves on a canvas: first a dark outline cross
/// two pixels longer and thicker, then the colored cross on top.
pub open spec fn crosshair_pixels(
    pixels: Map<(u32, u32), [u8; 4]>,
    w: u32,
    h: u32,
    cx: int,
    cy: int,
    arm: int,
    thickness: int,
    color: [u8; 4],
) -> Map<(u32, u32), [u8; 4]> {
    let outlined = paint(
        paint(pixels, crosshair_bar(w, h, cx, cy, arm + 2, thickness + 2), crosshair_outline_color()),
        crosshair_post(w, h, cx, cy, arm + 2, thickness + 2),
        crosshair_outline_color(),
    );
    paint(
        paint(outlined, crosshair_bar(w, h, cx, cy, arm, thickness), color),
        crosshair_post(w, h, cx, cy, arm, thickness),
        color,
    )
}

/// What a crosshair marker leaves at each canvas pixel: the marker's color
/// on the colored cross (a bar `arm` to each side of the center and
/// `thickness` rows high, and a post `thickness` columns wide and `arm` up
/// and down); the dark outline color on the rest of the outline cross, which
/// is two pixels longer at each end and two pixels thicker, on the bar and on
/// the post alike; the pixel as it was everywhere else.
#[verifier::spinoff_prover]
pub proof fn lemma_crosshair_marker_pixels(
    pixels: Map<(u32, u32), [u8; 4]>,
    w: u32,
    h: u32,
    cx: int,
    cy: int,
    arm: int,
    thickness: int,
    color: [u8; 4],
    x: u32,
    y: u32,
)
    requires
        x < w,
        y < h,
    ensures
        ({
            let r = crosshair_pixels(pixels, w, h, cx, cy, arm, thickness, color);
            let half = thickness / 2;
            let oa = arm + 2;
            let ot = thickness + 2;
            let oh = ot / 2;
            let on_bar = cx - arm <= x <= cx + arm && cy - half <= y <= cy + thickness - 1 - half;
            let on_post = cx - half <= x <= cx + thickness - 1 - half && cy - arm <= y <= cy + arm;
            let on_outline_bar = cx - oa <= x <= cx + oa && cy - oh <= y <= cy + ot - 1 - oh;
            let on_outline_post = cx - oh <= x <= cx + ot - 1 - oh && cy - oa <= y <= cy + oa;
            &&& (on_bar || on_post) ==> r.dom().contains((x, y)) && r[(x, y)] == color
            &&& !(on_bar || on_post) && (on_outline_bar || on_outline_post) ==> r.dom().contains((x, y)) && r[(
                x,
                y,
            )] == [0u8, 0u8, 0u8, 220u8]
            &&& !(on_bar || on_post || on_outline_bar || on_outline_post) ==> {
                &&& r.dom().contains((x, y)) == pixels.dom().contains((x, y))
                &&& pixels.dom().contains((x, y)) ==> r[(x, y)] == pixels[(x, y)]
            }
        }),
{
    let p = (x, y);
    let ob = crosshair_bar(w, h, cx, cy, arm + 2, thickness + 2);
    let op = crosshair_post(w, h, cx, cy, arm + 2, thickness + 2);
    let b = crosshair_bar(w, h, cx, cy, arm, thickness);
    let q = crosshair_post(w, h, cx, cy, arm, thickness);
    let dark = crosshair_outline_color();
    let m1 = paint(pixels, ob, dark);
    let m2 = paint(m1, op, dark);
    let m3 = paint(m2, b, color);
    let m4 = paint(m3, q, color);
    assert(m4 == crosshair_pixels(pixels, w, h, cx, cy, arm, thickness, color));
    assert(ob.contains(p) ==> m1.dom().contains(p) && m1[p] == dark);
    assert(!ob.contains(p) ==> m1.dom().contains(p) == pixels.dom().contains(p) && (pixels.dom().contains(p) ==> m1[p] == pixels[p]));
    assert(op.contains(p) ==> m2.dom().contains(p) && m2[p] == dark);
    assert(!op.contains(p) ==> m2.dom().contains(p) == m1.dom().contains(p) && (m1.dom().contains(p) ==> m2[p] == m1[p]));
    assert(b.contains(p) ==> m3.dom().contains(p) && m3[p] == color);
    assert(!b.contains(p) ==> m3.dom().contains(p) == m2.dom().contains(p) && (m2.dom().contains(p) ==> m3[p] == m2[p]));
    assert(q.contains(p) ==> m4.dom().contains(p) && m4[p] == color);
    assert(!q.contains(p) ==> m4.dom().contains(p) == m3.dom().contains(p) && (m3.dom().contains(p) ==> m4[p] == m3[p]));
}

/// Draws a `+` crosshair marker with a dark outline halo, clipped to the canvas.
///
/// The offsets are computed in `i32`, so the outline's thickness must fit
/// there, and so must every coordinate of a bar that is drawn.
pub fn draw_crosshair_marker(
    img: &mut Overlay,
    center_x: i32,
    center_y: i32,
    arm_length: i32,
    thickness: u32,
    color: [u8; 4],
)
    requires
        i32::MIN < arm_length <= i32::MAX - 2,
        thickness + 2 <= i32::MAX,
        arm_length + 2 >= 0 ==> {
            let oa = arm_length + 2;
            let ot = thickness + 2;
            let oh = ot / 2;
            &&& fits_i32(center_x - oa) && fits_i32(center_x + oa)
            &&& fits_i32(center_y - oa) && fits_i32(center_y + oa)
            &&& fits_i32(center_x - oh) && fits_i32(center_x + ot - 1 - oh)
            &&& fits_i32(center_y - oh) && fits_i32(center_y + ot - 1 - oh)
        },
        arm_length >= 0 && thickness >= 1 ==> {
            let half = thickness / 2;
            &&& fits_i32(center_x - arm_length) && fits_i32(center_x + arm_length)
            &&& fits_i32(center_y - arm_length) && fits_i32(center_y + arm_length)
            &&& fits_i32(center_x - half) && fits_i32(center_x + thickness - 1 - half)
            &&& fits_i32(center_y - half) && fits_i32(center_y + thickness - 1 - half)
        },
    ensures
        overlay_dims(*final(img)) == overlay_dims(*old(img)),
        overlay_pixels(*final(img)) == crosshair_pixels(
            overlay_pixels(*old(img)),
            overlay_dims(*old(img)).0,
            overlay_dims(*old(img)).1,
            center_x as int,
            center_y as int,
            arm_length as int,
            thickness as int,
            color,
        ),
{
    let cx = center_x as i64;
    let cy = center_y as i64;
    let outline_arm = (arm_length + 2) as i64;
    let outline_thick = (thickness + 2) as i64;
    let outline_half = outline_thick / 2;
    let outline_color: [u8; 4] = [0, 0, 0, 220];
    fill_area(
        img,
        cx - outline_arm,
        cx + outline_arm,
        cy - outline_half,
        cy + outline_thick - 1 - outline_half,
        outline_color,
    );
    fill_area(
        img,
        cx - outline_half,
        cx + outline_thick - 1 - outline_half,
        cy - outline_arm,
        cy + outline_arm,
        outline_color,
    );
    let arm = arm_length as i64;
    let thick = thickness as i64;
    let half = thick / 2;
    fill_area(img, cx - arm, cx + arm, cy - half, cy + thick - 1 - half, color);
    fill_area(img, cx - half, cx + thick - 1 - half, cy - arm, cy + arm, color);
}

/// `a + b`, capped at `u32::MAX`.
pub open spec fn add_capped(a: int, b: int) -> int {
    if a + b > u32::MAX {
        u32::MAX as int
    } else {
        a + b
    }
}

/// `a - b`, floored at zero.
pub open spec fn sub_floored(a: int, b: int) -> int {
    if a - b < 0 {
        0
    } else {
        a - b
    }
}

/// The smaller of two integers.
pub open spec fn min_of(a: int, b: int) -> int {
    if a <= b {
        a
    } else {
        b
    }
}

/// The ring drawn at inset `t` of a bounding box on a `w` by `h` canvas:
/// its top and bottom rows and left and right columns, each clamped to the
/// last column and row.
pub open spec fn box_ring(rect: PixelRect, w: u32, h: u32, t: int) -> Set<(u32, u32)> {
    let y_top = min_of(add_capped(rect.y as int, t), sub_floored(h as int, 1));
    let y_bot = min_of(sub_floored(add_capped(rect.y as int, rect.height as int), 1 + t), sub_floored(h as int, 1));
    let x_left = min_of(add_capped(rect.x as int, t), sub_floored(w as int, 1));
    let x_right = min_of(sub_floored(add_capped(rect.x as int, rect.width as int), 1 + t), sub_floored(w as int, 1));
    area(w, h, x_left, x_right, y_top, y_top)
        .union(area(w, h, x_left, x_right, y_bot, y_bot))
        .union(area(w, h, x_left, x_left, y_top, y_bot))
        .union(area(w, h, x_right, x_right, y_top, y_bot))
}

/// The rings at insets `0` up to (not including) `n`.
pub open spec fn box_outline(rect: PixelRect, w: u32, h: u32, n: int) -> Set<(u32, u32)> {
    Set::new(|p: (u32, u32)| exists|t: int| 0 <= t < n && #[trigger] box_ring(rect, w, h, t).contains(p))
}

/// A bounding box `n` pixels thick grows inward and is the same on all four
/// sides: for a rectangle inside the canvas, at every inset `t` below `n`
/// (and below the rectangle's width and height) the columns `x + t` and
/// `x + width - 1 - t` are drawn from row `y + t` to row
/// `y + height - 1 - t`, and the rows `y + t` and `y + height - 1 - t` from
/// column `x + t` to column `x + width - 1 - t`.
#[verifier::spinoff_prover]
pub proof fn lemma_box_border_sides(rect: PixelRect, w: u32, h: u32, n: int, t: int, v: int)
    requires
        rect.x + rect.width <= w,
        rect.y + rect.height <= h,
        0 <= t < n,
        t < rect.width,
        t < rect.height,
    ensures
        rect.y + t <= v <= rect.y + rect.height - 1 - t ==> {
            &&& box_outline(rect, w, h, n).contains(((rect.x + t) as u32, v as u32))
            &&& box_outline(rect, w, h, n).contains(((rect.x + rect.width - 1 - t) as u32, v as u32))
        },
        rect.x + t <= v <= rect.x + rect.width - 1 - t ==> {
            &&& box_outline(rect, w, h, n).contains((v as u32, (rect.y + t) as u32))
            &&& box_outline(rect, w, h, n).contains((v as u32, (rect.y + rect.height - 1 - t) as u32))
        },
{
    let ring = box_ring(rect, w, h, t);
    if rect.y + t <= v <= rect.y + rect.height - 1 - t {
        assert(ring.contains(((rect.x + t) as u32, v as u32)));
        assert(ring.contains(((rect.x + rect.width - 1 - t) as u32, v as u32)));
    }
    if rect.x + t <= v <= rect.x + rect.width - 1 - t {
        assert(ring.contains((v as u32, (rect.y + t) as u32)));
        assert(ring.contains((v as u32, (rect.y + rect.height - 1 - t) as u32)));
    }
}

/// A bounding box no thicker than its rectangle, inside the canvas, draws
/// only inside the rectangle and only within `n` pixels of one of its edges.
#[verifier::spinoff_prover]
pub proof fn lemma_box_border_inside(rect: PixelRect, w: u32, h: u32, n: int, p: (u32, u32))
    requires
        rect.x + rect.width <= w,
        rect.y + rect.height <= h,
        n <= rect.width,
        n <= rect.height,
        box_outline(rect, w, h, n).contains(p),
    ensures
        rect.x <= p.0 < rect.x + rect.width,
        rect.y <= p.1 < rect.y + rect.height,
        p.0 < rect.x + n || p.0 >= rect.x + rect.width - n || p.1 < rect.y + n || p.1 >= rect.y + rect.height - n,
{
    let t = choose|t: int| 0 <= t < n && #[trigger] box_ring(rect, w, h, t).contains(p);
}

/// Draws the outline of a pixel rectangle, `thickness` pixels wide and
/// growing inward, clamped to the canvas.
///
/// A canvas with no pixels cannot take a visible border.
#[verifier::spinoff_prover]
#[verifier::rlimit(40)]
pub fn draw_bounding_box(img: &mut Overlay, rect: &PixelRect, color: [u8; 4], thickness: u32)
    requires
        thickness > 0 ==> overlay_dims(*old(img)).0 > 0 && overlay_dims(*old(img)).1 > 0,
    ensures
        overlay_dims(*final(img)) == overlay_dims(*old(img)),
        overlay_pixels(*final(img)) == paint(
            overlay_pixels(*old(img)),
            box_outline(*rect, overlay_dims(*old(img)).0, overlay_dims(*old(img)).1, thickness as int),
            color,
        ),
{
    let ghost start = overlay_pixels(*img);
    let (max_x, max_y) = img.dimensions();
    let mut t: u32 = 0;
    assert(paint(start, box_outline(*rect, max_x, max_y, 0), color) =~= start);
    while t < thickness
        invariant
            overlay_dims(*img) == (max_x, max_y),
            t <= thickness,
            overlay_pixels(*img) == paint(start, box_outline(*rect, max_x, max_y, t as int), color),
        decreases thickness - t,
    {
        let y_top = min_u32(rect.y.saturating_add(t), max_y.saturating_sub(1));
        let y_bot = min_u32(
            rect.y.saturating_add(rect.height).saturating_sub(1 + t),
            max_y.saturating_sub(1),
        );
        let x_left = min_u32(rect.x.saturating_add(t), max_x.saturating_sub(1));
        let x_right = min_u32(
            rect.x.saturating_add(rect.width).saturating_sub(1 + t),
            max_x.saturating_sub(1),
        );
        let ghost before = overlay_pixels(*img);
        fill_area(img, x_left as i64, x_right as i64, y_top as i64, y_top as i64, color);
        fill_area(img, x_left as i64, x_right as i64, y_bot as i64, y_bot as i64, color);
        fill_area(img, x_left as i64, x_left as i64, y_top as i64, y_bot as i64, color);
        fill_area(img, x_right as i64, x_right as i64, y_top as i64, y_bot as i64, color);
        proof {
            let o = box_outline(*rect, max_x, max_y, t as int);
            let a = area(max_x, max_y, x_left as int, x_right as int, y_top as int, y_top as int);
            let b = area(max_x, max_y, x_left as int, x_right as int, y_bot as int, y_bot as int);
            let c = area(max_x, max_y, x_left as int, x_left as int, y_top as int, y_bot as int);
            let d = area(max_x, max_y, x_right as int, x_right as int, y_top as int, y_bot as int);
            lemma_paint_twice(start, o, a, color);
            lemma_paint_twice(start, o.union(a), b, color);
            lemma_paint_twice(start, o.union(a).union(b), c, color);
            lemma_paint_twice(start, o.union(a).union(b).union(c), d, color);
            let ring = box_ring(*rect, max_x, max_y, t as int);
            assert(ring == a.union(b).union(c).union(d));
            assert forall|p: (u32, u32)| #[trigger] box_outline(*rect, max_x, max_y, t + 1).contains(p)
                <==> o.union(a).union(b).union(c).union(d).contains(p) by {
                if box_outline(*rect, max_x, max_y, t + 1).contains(p) {
                    let s = choose|s: int| 0 <= s < t + 1 && #[trigger] box_ring(*rect, max_x, max_y, s).contains(p);
                    if s < t {
                        assert(o.contains(p));
                    } else {
                        assert(ring.contains(p));
                    }
                }
                if o.union(a).union(b).union(c).union(d).contains(p) {
                    if !o.contains(p) {
                        assert(ring.contains(p));
                        assert(box_ring(*rect, max_x, max_y, t as int).contains(p));
                    }
                }
            }
            assert(box_outline(*rect, max_x, max_y, t + 1) =~= o.union(a).union(b).union(c).union(d));
        }
        t = t + 1;
    }
}

/// The smaller of two `u32` values.
fn min_u32(a: u32, b: u32) -> (res: u32)
    ensures
        res == min_of(a as int, b as int),
{
    if a <= b {
        a
    } else {
        b
    }
}

// ---------------------------------------------------------------------
// Lines
// ---------------------------------------------------------------------

/// The points that the all-octant Bresenham walk from `(x, y)` visits on
/// its way to `(x1, y1)`, given its error term `err`, the spans `a` and `b`
/// of the whole line and the step directions `sx` and `sy`; at most `fuel`
/// points are produced.
pub open spec fn walk(
    x: int,
    y: int,
    err: int,
    x1: int,
    y1: int,
    a: int,
    b: int,
    sx: int,
    sy: int,
    fuel: nat,
) -> Seq<(int, int)>
    decreases fuel,
{
    if fuel == 0 {
        seq![]
    } else if x == x1 && y == y1 {
        seq![(x, y)]
    } else {
        let e2 = 2 * err;
        let (nx, err1) = if e2 >= -b {
            (x + sx, err - b)
        } else {
            (x, err)
        };
        let (ny, err2) = if e2 <= a {
            (y + sy, err1 + a)
        } else {
            (y, err1)
        };
        seq![(x, y)] + walk(nx, ny, err2, x1, y1, a, b, sx, sy, (fuel - 1) as nat)
    }
}

/// Absolute value.
pub open spec fn abs_int(v: int) -> int {
    if v < 0 {
        -v
    } else {
        v
    }
}

/// Step direction toward `to` from `from`: one when `to` is greater, minus one otherwise.
pub open spec fn step_toward(from: int, to: int) -> int {
    if from < to {
        1
    } else {
        -1
    }
}

/// The points of the Bresenham line from `(x0, y0)` to `(x1, y1)`, in order.
pub open spec fn line_points(x0: int, y0: int, x1: int, y1: int) -> Seq<(int, int)> {
    let a = abs_int(x1 - x0);
    let b = abs_int(y1 - y0);
    walk(x0, y0, a - b, x1, y1, a, b, step_toward(x0, x1), step_toward(y0, y1), (a + b + 1) as nat)
}

/// The points of `pts` that lie on a `w` by `h` canvas.
pub open spec fn on_canvas(w: u32, h: u32, pts: Seq<(int, int)>) -> Set<(u32, u32)> {
    Set::new(|p: (u32, u32)| p.0 < w && p.1 < h && pts.contains((p.0 as int, p.1 as int)))
}

/// The walk's state relation: `u` and `v` steps remain on each axis and the
/// error term is the one the walk keeps for them.
pub open spec fn walk_state(err: int, a: int, b: int, u: int, v: int) -> bool {
    &&& 0 <= u <= a
    &&& 0 <= v <= b
    &&& err == a - b + b * u - a * v
}

#[verifier::spinoff_prover]
proof fn lemma_walk_progress(err: int, a: int, b: int, u: int, v: int)
    requires
        walk_state(err, a, b, u, v),
        u > 0 || v > 0,
    ensures
        2 * err >= -b ==> u >= 1,
        2 * err <= a ==> v >= 1,
        2 * err >= -b || 2 * err <= a,
        2 * err >= -b ==> walk_state(err - b, a, b, u - 1, v),
        2 * err <= a ==> walk_state(
            (if 2 * err >= -b { err - b } else { err }) + a,
            a,
            b,
            (if 2 * err >= -b { u - 1 } else { u }),
            v - 1,
        ),
{
    assert(err == a - b + b * u - a * v);
    if u == 0 {
        assert(b * u == 0) by (nonlinear_arith)
            requires
                u == 0,
        ;
        assert(a * v >= a) by (nonlinear_arith)
            requires
                v >= 1,
                a >= 0,
        ;
        assert(err <= -b);
    }
    if v == 0 {
        assert(a * v == 0) by (nonlinear_arith)
            requires
                v == 0,
        ;
        assert(b * u >= b) by (nonlinear_arith)
            requires
                u >= 1,
                b >= 0,
        ;
        assert(err >= a);
    }
    assert(b * (u - 1) == b * u - b) by (nonlinear_arith);
    assert(a * (v - 1) == a * v - a) by (nonlinear_arith);
}

proof fn lemma_walk_fuel(
    x: int,
    y: int,
    err: int,
    x1: int,
    y1: int,
    a: int,
    b: int,
    sx: int,
    sy: int,
    f1: nat,
    f2: nat,
)
    requires
        sx == 1 || sx == -1,
        sy == 1 || sy == -1,
        walk_state(err, a, b, (x1 - x) * sx, (y1 - y) * sy),
        f1 >= (x1 - x) * sx + (y1 - y) * sy + 1,
        f2 >= (x1 - x) * sx + (y1 - y) * sy + 1,
    ensures
        walk(x, y, err, x1, y1, a, b, sx, sy, f1) == walk(x, y, err, x1, y1, a, b, sx, sy, f2),
    decreases f1,
{
    if !(x == x1 && y == y1) {
        let u = (x1 - x) * sx;
        let v = (y1 - y) * sy;
        assert(u > 0 || v > 0) by (nonlinear_arith)
            requires
                sx == 1 || sx == -1,
                sy == 1 || sy == -1,
                u == (x1 - x) * sx,
                v == (y1 - y) * sy,
                !(x == x1 && y == y1),
                u >= 0,
                v >= 0,
        ;
        lemma_walk_progress(err, a, b, u, v);
        let e2 = 2 * err;
        let (nx, err1) = if e2 >= -b {
            (x + sx, err - b)
        } else {
            (x, err)
        };
        let (ny, err2) = if e2 <= a {
            (y + sy, err1 + a)
        } else {
            (y, err1)
        };
        assert((x1 - (x + sx)) * sx == u - 1) by (nonlinear_arith)
            requires
                sx == 1 || sx == -1,
                u == (x1 - x) * sx,
        ;
        assert((y1 - (y + sy)) * sy == v - 1) by (nonlinear_arith)
            requires
                sy == 1 || sy == -1,
                v == (y1 - y) * sy,
        ;
        lemma_walk_fuel(nx, ny, err2, x1, y1, a, b, sx, sy, (f1 - 1) as nat, (f2 - 1) as nat);
    }
}

proof fn lemma_unit_scale(d: int, s: int, u: int)
    requires
        s == 1 || s == -1,
    ensures
        d * s == u ==> (d == u || d == -u),
{
    if s == 1 {
        assert(d * s == d);
    } else {
        assert(d * s == -d);
    }
}

/// Draws the Bresenham line from `(x0, y0)` to `(x1, y1)`, clipped to the canvas.
///
/// The spans `x1 - x0` and `y1 - y0` and their magnitudes are computed in
/// `i32`, so they must fit there.
pub fn draw_line(img: &mut Overlay, x0: i32, y0: i32, x1: i32, y1: i32, color: [u8; 4])
    requires
        i32::MIN < x1 - x0 <= i32::MAX,
        i32::MIN < y1 - y0 <= i32::MAX,
    ensures
        overlay_dims(*final(img)) == overlay_dims(*old(img)),
        overlay_pixels(*final(img)) == paint(
            overlay_pixels(*old(img)),
            on_canvas(
                overlay_dims(*old(img)).0,
                overlay_dims(*old(img)).1,
                line_points(x0 as int, y0 as int, x1 as int, y1 as int),
            ),
            color,
        ),
{
    let ghost start = overlay_pixels(*img);
    let (max_w, max_h) = img.dimensions();
    let tx = x1 as i64;
    let ty = y1 as i64;
    let dx: i64 = if tx >= x0 as i64 { tx - x0 as i64 } else { x0 as i64 - tx };
    let neg_dy: i64 = if ty >= y0 as i64 { y0 as i64 - ty } else { ty - y0 as i64 };
    let sx: i64 = if x0 < x1 { 1 } else { -1 };
    let sy: i64 = if y0 < y1 { 1 } else { -1 };
    let mut err: i64 = dx + neg_dy;
    let mut cx = x0 as i64;
    let mut cy = y0 as i64;
    let ghost a = dx as int;
    let ghost b = -neg_dy as int;
    let ghost full = line_points(x0 as int, y0 as int, x1 as int, y1 as int);
    let ghost mut visited: Seq<(int, int)> = seq![];
    assert(on_canvas(max_w, max_h, visited) =~= Set::<(u32, u32)>::empty());
    assert(paint(start, on_canvas(max_w, max_h, visited), color) =~= start);
    proof {
        assert((tx - x0) * sx == a) by (nonlinear_arith)
            requires
                sx == 1 || sx == -1,
                (x0 < tx) ==> sx == 1,
                (x0 >= tx) ==> sx == -1,
                a == abs_int(tx - x0),
        ;
        assert((ty - y0) * sy == b) by (nonlinear_arith)
            requires
                sy == 1 || sy == -1,
                (y0 < ty) ==> sy == 1,
                (y0 >= ty) ==> sy == -1,
                b == abs_int(ty - y0),
        ;
        assert(b * a - a * b == 0) by (nonlinear_arith);
    }
    loop
        invariant_except_break
            overlay_dims(*img) == (max_w, max_h),
            sx == 1 || sx == -1,
            sy == 1 || sy == -1,
            a == dx,
            b == -neg_dy,
            a <= 0x1_0000_0000,
            b <= 0x1_0000_0000,
            walk_state(err as int, a, b, (tx - cx) * sx, (ty - cy) * sy),
            -3 * b <= 2 * err <= 3 * a,
            tx == x1 as i64,
            ty == y1 as i64,
            -a <= tx - cx <= a,
            -b <= ty - cy <= b,
            visited + walk(
                cx as int,
                cy as int,
                err as int,
                tx as int,
                ty as int,
                a,
                b,
                sx as int,
                sy as int,
                ((tx - cx) * sx + (ty - cy) * sy + 1) as nat,
            ) == full,
            overlay_pixels(*img) == paint(start, on_canvas(max_w, max_h, visited), color),
        ensures
            overlay_dims(*img) == (max_w, max_h),
            overlay_pixels(*img) == paint(start, on_canvas(max_w, max_h, full), color),
        decreases (tx - cx) * sx + (ty - cy) * sy,
    {
        let ghost u = (tx - cx) * sx;
        let ghost v = (ty - cy) * sy;
        proof {
            lemma_walk_fuel(
                cx as int,
                cy as int,
                err as int,
                tx as int,
                ty as int,
                a,
                b,
                sx as int,
                sy as int,
                (u + v + 1) as nat,
                (u + v + 1) as nat,
            );
        }
        if cx >= 0 && cy >= 0 && cx < max_w as i64 && cy < max_h as i64 {
            img.put_pixel(cx as u32, cy as u32, color);
            proof {
                broadcast use vstd::seq_lib::lemma_seq_contains_after_push;

                lemma_paint_insert(start, on_canvas(max_w, max_h, visited), (cx as u32, cy as u32), color);
                assert(on_canvas(max_w, max_h, visited).insert((cx as u32, cy as u32)) =~= on_canvas(
                    max_w,
                    max_h,
                    visited.push((cx as int, cy as int)),
                ));
            }
        } else {
            proof {
                broadcast use vstd::seq_lib::lemma_seq_contains_after_push;

                assert(on_canvas(max_w, max_h, visited) =~= on_canvas(
                    max_w,
                    max_h,
                    visited.push((cx as int, cy as int)),
                ));
            }
        }
        proof {
            visited = visited.push((cx as int, cy as int));
        }
        if cx == tx && cy == ty {
            proof {
                assert(u == 0 && v == 0) by (nonlinear_arith)
                    requires
                        u == (tx - cx) * sx,
                        v == (ty - cy) * sy,
                        cx == tx,
                        cy == ty,
                ;
                assert(visited =~= full);
            }
            break;
        }
        proof {
            assert(u > 0 || v > 0) by (nonlinear_arith)
                requires
                    sx == 1 || sx == -1,
                    sy == 1 || sy == -1,
                    u == (tx - cx) * sx,
                    v == (ty - cy) * sy,
                    !(cx == tx && cy == ty),
                    u >= 0,
                    v >= 0,
            ;
            lemma_walk_progress(err as int, a, b, u, v);
        }
        let ghost old_x = cx;
        let ghost old_y = cy;
        let ghost old_err = err;
        let e2 = 2 * err;
        if e2 >= neg_dy {
            err = err + neg_dy;
            cx = cx + sx;
        }
        if e2 <= dx {
            err = err + dx;
            cy = cy + sy;
        }
        proof {
            lemma_unit_scale(tx - cx, sx as int, (u - (if 2 * old_err >= -b { 1int } else { 0int })));
            lemma_unit_scale(ty - cy, sy as int, (v - (if 2 * old_err <= a { 1int } else { 0int })));
            assert((tx - cx) * sx == u - (if 2 * old_err >= -b { 1int } else { 0int })) by (nonlinear_arith)
                requires
                    sx == 1 || sx == -1,
                    u == (tx - old_x) * sx,
                    cx == old_x + (if 2 * old_err >= -b { sx } else { 0 }),
            ;
            assert((ty - cy) * sy == v - (if 2 * old_err <= a { 1int } else { 0int })) by (nonlinear_arith)
                requires
                    sy == 1 || sy == -1,
                    v == (ty - old_y) * sy,
                    cy == old_y + (if 2 * old_err <= a { sy } else { 0 }),
            ;
            lemma_walk_fuel(
                cx as int,
                cy as int,
                err as int,
                tx as int,
                ty as int,
                a,
                b,
                sx as int,
                sy as int,
                (u + v) as nat,
                ((tx - cx) * sx + (ty - cy) * sy + 1) as nat,
            );
            assert(visited + walk(
                cx as int,
                cy as int,
                err as int,
                tx as int,
                ty as int,
                a,
                b,
                sx as int,
                sy as int,
                (u + v) as nat,
            ) =~= full);
        }
    }
}

proof fn lemma_walk_ends(
    x: int,
    y: int,
    err: int,
    x1: int,
    y1: int,
    a: int,
    b: int,
    sx: int,
    sy: int,
    fuel: nat,
)
    requires
        sx == 1 || sx == -1,
        sy == 1 || sy == -1,
        walk_state(err, a, b, (x1 - x) * sx, (y1 - y) * sy),
        fuel >= (x1 - x) * sx + (y1 - y) * sy + 1,
    ensures
        walk(x, y, err, x1, y1, a, b, sx, sy, fuel).len() >= 1,
        walk(x, y, err, x1, y1, a, b, sx, sy, fuel)[0] == (x, y),
        walk(x, y, err, x1, y1, a, b, sx, sy, fuel).last() == (x1, y1),
    decreases fuel,
{
    if !(x == x1 && y == y1) {
        let u = (x1 - x) * sx;
        let v = (y1 - y) * sy;
        assert(u > 0 || v > 0) by (nonlinear_arith)
            requires
                sx == 1 || sx == -1,
                sy == 1 || sy == -1,
                u == (x1 - x) * sx,
                v == (y1 - y) * sy,
                !(x == x1 && y == y1),
                u >= 0,
                v >= 0,
        ;
        lemma_walk_progress(err, a, b, u, v);
        let e2 = 2 * err;
        let (nx, err1) = if e2 >= -b {
            (x + sx, err - b)
        } else {
            (x, err)
        };
        let (ny, err2) = if e2 <= a {
            (y + sy, err1 + a)
        } else {
            (y, err1)
        };
        assert((x1 - (x + sx)) * sx == u - 1) by (nonlinear_arith)
            requires
                sx == 1 || sx == -1,
                u == (x1 - x) * sx,
        ;
        assert((y1 - (y + sy)) * sy == v - 1) by (nonlinear_arith)
            requires
                sy == 1 || sy == -1,
                v == (y1 - y) * sy,
        ;
        lemma_walk_ends(nx, ny, err2, x1, y1, a, b, sx, sy, (fuel - 1) as nat);
    }
}

/// A Bresenham line starts at its first end point and finishes at its second.
pub proof fn lemma_line_end_points(x0: int, y0: int, x1: int, y1: int)
    ensures
        line_points(x0, y0, x1, y1).len() >= 1,
        line_points(x0, y0, x1, y1)[0] == (x0, y0),
        line_points(x0, y0, x1, y1).last() == (x1, y1),
{
    let a = abs_int(x1 - x0);
    let b = abs_int(y1 - y0);
    let sx = step_toward(x0, x1);
    let sy = step_toward(y0, y1);
    assert((x1 - x0) * sx == a) by (nonlinear_arith)
        requires
            sx == step_toward(x0, x1),
            a == abs_int(x1 - x0),
    ;
    assert((y1 - y0) * sy == b) by (nonlinear_arith)
        requires
            sy == step_toward(y0, y1),
            b == abs_int(y1 - y0),
    ;
    assert(b * a - a * b == 0) by (nonlinear_arith);
    lemma_walk_ends(x0, y0, a - b, x1, y1, a, b, sx, sy, (a + b + 1) as nat);
}

/// The offsets of the parallel strokes of a thick line: `thickness` of them
/// from `-(thickness / 2)`.
pub open spec fn stroke_offsets_contain(thickness: int, off: int) -> bool {
    -(thickness / 2) <= off <= thickness - 1 - thickness / 2
}

/// The pixels a thick line covers: for a thickness of at most one the line
/// itself; otherwise parallel lines shifted across the line's minor axis
/// (vertically for mostly horizontal lines, horizontally otherwise).
pub open spec fn thick_line_pixels(w: u32, h: u32, x0: int, y0: int, x1: int, y1: int, thickness: int) -> Set<
    (u32, u32),
> {
    if thickness <= 1 {
        on_canvas(w, h, line_points(x0, y0, x1, y1))
    } else if abs_int(x1 - x0) >= abs_int(y1 - y0) {
        Set::new(
            |p: (u32, u32)|
                exists|off: int|
                    stroke_offsets_contain(thickness, off) && #[trigger] on_canvas(
                        w,
                        h,
                        line_points(x0, y0 + off, x1, y1 + off),
                    ).contains(p),
        )
    } else {
        Set::new(
            |p: (u32, u32)|
                exists|off: int|
                    stroke_offsets_contain(thickness, off) && #[trigger] on_canvas(
                        w,
                        h,
                        line_points(x0 + off, y0, x1 + off, y1),
                    ).contains(p),
        )
    }
}

/// A line thicker than one pixel is drawn as `thickness` parallel strokes
/// shifted across its minor axis by each offset from `-(thickness / 2)` to
/// `thickness - 1 - thickness / 2`: vertically for a mostly horizontal line,
/// horizontally for a mostly vertical one. Every stroke is drawn whole, and
/// in particular both of its shifted end points where they lie on the canvas.
#[verifier::spinoff_prover]
pub proof fn lemma_thick_line_strokes(
    w: u32,
    h: u32,
    x0: int,
    y0: int,
    x1: int,
    y1: int,
    thickness: int,
    off: int,
)
    requires
        thickness > 1,
        -(thickness / 2) <= off <= thickness - 1 - thickness / 2,
    ensures
        abs_int(x1 - x0) >= abs_int(y1 - y0) ==> {
            &&& on_canvas(w, h, line_points(x0, y0 + off, x1, y1 + off)).subset_of(
                thick_line_pixels(w, h, x0, y0, x1, y1, thickness),
            )
            &&& 0 <= x0 < w && 0 <= y0 + off < h ==> thick_line_pixels(w, h, x0, y0, x1, y1, thickness).contains(
                (x0 as u32, (y0 + off) as u32),
            )
            &&& 0 <= x1 < w && 0 <= y1 + off < h ==> thick_line_pixels(w, h, x0, y0, x1, y1, thickness).contains(
                (x1 as u32, (y1 + off) as u32),
            )
        },
        abs_int(x1 - x0) < abs_int(y1 - y0) ==> {
            &&& on_canvas(w, h, line_points(x0 + off, y0, x1 + off, y1)).subset_of(
                thick_line_pixels(w, h, x0, y0, x1, y1, thickness),
            )
            &&& 0 <= x0 + off < w && 0 <= y0 < h ==> thick_line_pixels(w, h, x0, y0, x1, y1, thickness).contains(
                ((x0 + off) as u32, y0 as u32),
            )
            &&& 0 <= x1 + off < w && 0 <= y1 < h ==> thick_line_pixels(w, h, x0, y0, x1, y1, thickness).contains(
                ((x1 + off) as u32, y1 as u32),
            )
        },
{
    let all = thick_line_pixels(w, h, x0, y0, x1, y1, thickness);
    if abs_int(x1 - x0) >= abs_int(y1 - y0) {
        let s = on_canvas(w, h, line_points(x0, y0 + off, x1, y1 + off));
        assert forall|p: (u32, u32)| s.contains(p) implies all.contains(p) by {
            assert(stroke_offsets_contain(thickness, off));
        }
        lemma_line_end_points(x0, y0 + off, x1, y1 + off);
        let pts = line_points(x0, y0 + off, x1, y1 + off);
        if 0 <= x0 < w && 0 <= y0 + off < h {
            assert(pts[0] == (x0, y0 + off));
            assert(s.contains((x0 as u32, (y0 + off) as u32)));
        }
        if 0 <= x1 < w && 0 <= y1 + off < h {
            assert(pts[pts.len() - 1] == (x1, y1 + off));
            assert(s.contains((x1 as u32, (y1 + off) as u32)));
        }
    } else {
        let s = on_canvas(w, h, line_points(x0 + off, y0, x1 + off, y1));
        assert forall|p: (u32, u32)| s.contains(p) implies all.contains(p) by {
            assert(stroke_offsets_contain(thickness, off));
        }
        lemma_line_end_points(x0 + off, y0, x1 + off, y1);
        let pts = line_points(x0 + off, y0, x1 + off, y1);
        if 0 <= x0 + off < w && 0 <= y0 < h {
            assert(pts[0] == (x0 + off, y0));
            assert(s.contains(((x0 + off) as u32, y0 as u32)));
        }
        if 0 <= x1 + off < w && 0 <= y1 < h {
            assert(pts[pts.len() - 1] == (x1 + off, y1));
            assert(s.contains(((x1 + off) as u32, y1 as u32)));
        }
    }
}

/// Draws a thick line as parallel Bresenham strokes.
///
/// Offsets and shifted end points are computed in `i32`, so they must fit there.
pub fn draw_thick_line(
    img: &mut Overlay,
    x0: i32,
    y0: i32,
    x1: i32,
    y1: i32,
    color: [u8; 4],
    thickness: u32,
)
    requires
        i32::MIN < x1 - x0 <= i32::MAX,
        i32::MIN < y1 - y0 <= i32::MAX,
        thickness > 1 ==> {
            let half = thickness / 2;
            let last = thickness - 1 - half;
            &&& thickness <= i32::MAX
            &&& abs_int(x1 - x0) >= abs_int(y1 - y0) ==> fits_i32(y0 - half) && fits_i32(y0 + last)
                && fits_i32(y1 - half) && fits_i32(y1 + last)
            &&& abs_int(x1 - x0) < abs_int(y1 - y0) ==> fits_i32(x0 - half) && fits_i32(x0 + last)
                && fits_i32(x1 - half) && fits_i32(x1 + last)
        },
    ensures
        overlay_dims(*final(img)) == overlay_dims(*old(img)),
        overlay_pixels(*final(img)) == paint(
            overlay_pixels(*old(img)),
            thick_line_pixels(
                overlay_dims(*old(img)).0,
                overlay_dims(*old(img)).1,
                x0 as int,
                y0 as int,
                x1 as int,
                y1 as int,
                thickness as int,
            ),
            color,
        ),
{
    if thickness <= 1 {
        draw_line(img, x0, y0, x1, y1, color);
        return;
    }
    let ghost start = overlay_pixels(*img);
    let (w, h) = img.dimensions();
    let half = (thickness / 2) as i32;
    let last = thickness as i32 - 1 - half;
    let dx = if x1 >= x0 { x1 - x0 } else { x0 - x1 };
    let dy = if y1 >= y0 { y1 - y0 } else { y0 - y1 };
    let horizontal = dx >= dy;
    let ghost covered = thick_line_pixels(w, h, x0 as int, y0 as int, x1 as int, y1 as int, thickness as int);
    let mut offset: i32 = -half;
    let ghost done: Set<(u32, u32)> = Set::empty();
    assert(paint(start, done, color) =~= start);
    while offset <= last
        invariant
            overlay_dims(*img) == (w, h),
            1 < thickness <= i32::MAX,
            half == thickness / 2,
            last == thickness - 1 - half,
            -half <= offset <= last + 1,
            horizontal == (abs_int(x1 - x0) >= abs_int(y1 - y0)),
            i32::MIN < x1 - x0 <= i32::MAX,
            i32::MIN < y1 - y0 <= i32::MAX,
            horizontal ==> fits_i32(y0 - half) && fits_i32(y0 + last) && fits_i32(y1 - half)
                && fits_i32(y1 + last),
            !horizontal ==> fits_i32(x0 - half) && fits_i32(x0 + last) && fits_i32(x1 - half)
                && fits_i32(x1 + last),
            done == (if horizontal {
                Set::new(
                    |p: (u32, u32)|
                        exists|off: int|
                            -half <= off < offset && #[trigger] on_canvas(
                                w,
                                h,
                                line_points(x0 as int, y0 + off, x1 as int, y1 + off),
                            ).contains(p),
                )
            } else {
                Set::new(
                    |p: (u32, u32)|
                        exists|off: int|
                            -half <= off < offset && #[trigger] on_canvas(
                                w,
                                h,
                                line_points(x0 + off, y0 as int, x1 + off, y1 as int),
                            ).contains(p),
                )
            }),
            overlay_pixels(*img) == paint(start, done, color),
        decreases last + 1 - offset,
    {
        let ghost line = if horizontal {
            on_canvas(w, h, line_points(x0 as int, y0 + offset, x1 as int, y1 + offset))
        } else {
            on_canvas(w, h, line_points(x0 + offset, y0 as int, x1 + offset, y1 as int))
        };
        if horizontal {
            draw_line(img, x0, y0 + offset, x1, y1 + offset, color);
        } else {
            draw_line(img, x0 + offset, y0, x1 + offset, y1, color);
        }
        proof {
            lemma_paint_twice(start, done, line, color);
            let next = if horizontal {
                Set::new(
                    |p: (u32, u32)|
                        exists|off: int|
                            -half <= off < offset + 1 && #[trigger] on_canvas(
                                w,
                                h,
                                line_points(x0 as int, y0 + off, x1 as int, y1 + off),
                            ).contains(p),
                )
            } else {
                Set::new(
                    |p: (u32, u32)|
                        exists|off: int|
                            -half <= off < offset + 1 && #[trigger] on_canvas(
                                w,
                                h,
                                line_points(x0 + off, y0 as int, x1 + off, y1 as int),
                            ).contains(p),
                )
            };
            assert forall|p: (u32, u32)| #[trigger] next.contains(p) <==> done.union(line).contains(p) by {
                if next.contains(p) && !line.contains(p) {
                    if horizontal {
                        let off = choose|off: int|
                            -half <= off < offset + 1 && #[trigger] on_canvas(
                                w,
                                h,
                                line_points(x0 as int, y0 + off, x1 as int, y1 + off),
                            ).contains(p);
                        assert(off != offset);
                        assert(done.contains(p));
                    } else {
                        let off = choose|off: int|
                            -half <= off < offset + 1 && #[trigger] on_canvas(
                                w,
                                h,
                                line_points(x0 + off, y0 as int, x1 + off, y1 as int),
                            ).contains(p);
                        assert(off != offset);
                        assert(done.contains(p));
                    }
                }
                if line.contains(p) {
                    if horizontal {
                        assert(on_canvas(w, h, line_points(x0 as int, y0 + offset, x1 as int, y1 + offset)).contains(p));
                    } else {
                        assert(on_canvas(w, h, line_points(x0 + offset, y0 as int, x1 + offset, y1 as int)).contains(p));
                    }
                }
            }
            assert(next =~= done.union(line));
            done = next;
        }
        offset = offset + 1;
    }
    proof {
        assert forall|p: (u32, u32)| #[trigger] done.contains(p) <==> covered.contains(p) by {
            if horizontal {
                if covered.contains(p) {
                    let off = choose|off: int|
                        stroke_offsets_contain(thickness as int, off) && #[trigger] on_canvas(
                            w,
                            h,
                            line_points(x0 as int, y0 + off, x1 as int, y1 + off),
                        ).contains(p);
                    assert(-half <= off < offset);
                }
            } else {
                if covered.contains(p) {
                    let off = choose|off: int|
                        stroke_offsets_contain(thickness as int, off) && #[trigger] on_canvas(
                            w,
                            h,
                            line_points(x0 + off, y0 as int, x1 + off, y1 as int),
                        ).contains(p);
                    assert(-half <= off < offset);
                }
            }
        }
        assert(done =~= covered);
    }
}

} // verus!
