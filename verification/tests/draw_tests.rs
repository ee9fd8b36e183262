use image::{DynamicImage, GenericImageView, Rgba, RgbaImage};
use reto_core::draw::{
    draw_bounding_box, draw_crosshair_marker, draw_keypoint_marker, draw_line, draw_thick_line,
    Overlay,
};
use reto_core::PixelRect;

const RED: [u8; 4] = [255, 0, 0, 255];
const BG: [u8; 4] = [200, 200, 200, 255];

fn canvas(w: u32, h: u32) -> Overlay {
    Overlay::from_image(&DynamicImage::ImageRgba8(RgbaImage::from_pixel(w, h, Rgba(BG))))
}

fn pixels(o: Overlay) -> RgbaImage {
    o.into_image().into_rgba8()
}

fn painted(img: &RgbaImage, color: [u8; 4]) -> Vec<(u32, u32)> {
    let mut out = Vec::new();
    for y in 0..img.height() {
        for x in 0..img.width() {
            if img.get_pixel(x, y).0 == color {
                out.push((x, y));
            }
        }
    }
    out
}

#[test]
fn test_overlay_keeps_dimensions() {
    let o = canvas(30, 10);
    assert_eq!(o.dimensions(), (30, 10));
    let img = o.into_image();
    assert_eq!(img.dimensions(), (30, 10));
}

#[test]
fn test_bounding_box_outline() {
    let mut o = canvas(10, 8);
    draw_bounding_box(&mut o, &PixelRect { x: 2, y: 1, width: 5, height: 4 }, RED, 1);
    let img = pixels(o);
    let p = painted(&img, RED);
    // Perimeter of a 5 x 4 box: 2 * 5 + 2 * 2 = 14 pixels.
    assert_eq!(p.len(), 14);
    assert!(p.contains(&(2, 1)) && p.contains(&(6, 1)) && p.contains(&(2, 4)) && p.contains(&(6, 4)));
    assert_eq!(img.get_pixel(4, 2).0, BG);
}

#[test]
fn test_bounding_box_thick_and_clamped() {
    let mut o = canvas(6, 6);
    // Reaches past the canvas: the border is clamped to the last column and row.
    draw_bounding_box(&mut o, &PixelRect { x: 0, y: 0, width: 100, height: 100 }, RED, 2);
    let img = pixels(o);
    assert_eq!(img.get_pixel(0, 0).0, RED);
    assert_eq!(img.get_pixel(5, 5).0, RED);
    assert_eq!(img.get_pixel(1, 1).0, RED);
    assert_eq!(img.get_pixel(3, 3).0, BG);
}

#[test]
fn test_keypoint_marker_clipped() {
    let mut o = canvas(10, 10);
    draw_keypoint_marker(&mut o, 0, 0, 2, RED);
    let p = painted(&pixels(o), RED);
    // Only the quarter of the 5 x 5 square inside the canvas is drawn.
    assert_eq!(p.len(), 9);
}

#[test]
fn test_keypoint_marker_negative_radius_draws_nothing() {
    let mut o = canvas(10, 10);
    draw_keypoint_marker(&mut o, 5, 5, -1, RED);
    assert!(painted(&pixels(o), RED).is_empty());
}

#[test]
fn test_crosshair_marker_layers() {
    let mut o = canvas(40, 40);
    draw_crosshair_marker(&mut o, 20, 20, 5, 1, RED);
    let img = pixels(o);
    // Colored cross: 11 pixels each way, sharing the center.
    assert_eq!(painted(&img, RED).len(), 21);
    assert_eq!(img.get_pixel(20, 20).0, RED);
    // The dark outline shows around the arms' ends and sides.
    assert_eq!(img.get_pixel(27, 20).0, [0, 0, 0, 220]);
    assert_eq!(img.get_pixel(21, 21).0, [0, 0, 0, 220]);
    assert_eq!(img.get_pixel(30, 30).0, BG);
}

#[test]
fn test_draw_line_diagonal_and_endpoints() {
    let mut o = canvas(10, 10);
    draw_line(&mut o, 1, 1, 5, 5, RED);
    let p = painted(&pixels(o), RED);
    assert_eq!(p, vec![(1, 1), (2, 2), (3, 3), (4, 4), (5, 5)]);

    let mut o = canvas(10, 10);
    draw_line(&mut o, 8, 2, 0, 4, RED);
    let p = painted(&pixels(o), RED);
    assert!(p.contains(&(8, 2)) && p.contains(&(0, 4)));
    // A mostly horizontal line has one pixel per column.
    assert_eq!(p.len(), 9);
}

#[test]
fn test_draw_line_clipped_outside() {
    let mut o = canvas(5, 5);
    draw_line(&mut o, -3, 2, 7, 2, RED);
    let p = painted(&pixels(o), RED);
    assert_eq!(p, vec![(0, 2), (1, 2), (2, 2), (3, 2), (4, 2)]);
}

#[test]
fn test_draw_thick_line() {
    let mut o = canvas(12, 12);
    draw_thick_line(&mut o, 1, 5, 9, 5, RED, 3);
    let p = painted(&pixels(o), RED);
    // Three parallel rows of nine pixels.
    assert_eq!(p.len(), 27);
    assert!(p.contains(&(1, 4)) && p.contains(&(9, 6)));
}
