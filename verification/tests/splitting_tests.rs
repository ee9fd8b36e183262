use image::{DynamicImage, GrayImage, Luma, RgbaImage, Rgba};
use reto_core::splitting::{
    compute_profile, find_gutters, profile_from_luma, split_image, Gutter, GutterConfig,
    Percentile, Rect, SplitConfig, SplitContext,
};
use reto_core::Result;

fn pct(per_million: u32) -> Percentile {
    Percentile { per_million }
}

#[test]
fn test_compute_profile_white() {
    let width = 100;
    let height = 100;
    let img = DynamicImage::ImageLuma8(GrayImage::from_pixel(width, height, Luma([255])));

    let profile = compute_profile(&img);

    assert_eq!(profile.width, width);
    assert_eq!(profile.height, height);
    assert_eq!(profile.vpp.len(), width as usize);
    assert_eq!(profile.hpp.len(), height as usize);

    let expected_v = 255 * u64::from(height);
    let expected_h = 255 * u64::from(width);

    for (i, &val) in profile.vpp.iter().enumerate() {
        assert_eq!(val, expected_v, "VPP mismatch at index {i}");
    }
    for (i, &val) in profile.hpp.iter().enumerate() {
        assert_eq!(val, expected_h, "HPP mismatch at index {i}");
    }
}

#[test]
fn test_compute_profile_black() {
    let width = 50;
    let height = 50;
    let img = DynamicImage::ImageLuma8(GrayImage::from_pixel(width, height, Luma([0])));

    let profile = compute_profile(&img);

    for &val in &profile.vpp {
        assert_eq!(val, 0);
    }
    for &val in &profile.hpp {
        assert_eq!(val, 0);
    }
}

#[test]
fn test_compute_profile_half_white_half_black() {
    let width = 100;
    let height = 100;
    let mut img = GrayImage::new(width, height);

    for x in 0..width {
        for y in 0..height {
            if x < 50 {
                img.put_pixel(x, y, Luma([255]));
            } else {
                img.put_pixel(x, y, Luma([0]));
            }
        }
    }

    let profile = compute_profile(&DynamicImage::ImageLuma8(img));

    for x in 0..100 {
        if x < 50 {
            assert_eq!(profile.vpp[x], 25500, "VPP mismatch at index {x}");
        } else {
            assert_eq!(profile.vpp[x], 0, "VPP mismatch at index {x}");
        }
    }

    for y in 0..100 {
        assert_eq!(profile.hpp[y], 12750, "HPP mismatch at index {y}");
    }
}

#[test]
fn test_compute_profile_of_color_image() {
    // A colour image is converted to luma first: white stays 255.
    let img = DynamicImage::ImageRgba8(RgbaImage::from_pixel(4, 2, Rgba([255, 255, 255, 255])));
    let profile = compute_profile(&img);
    assert_eq!(profile.vpp, vec![510; 4]);
    assert_eq!(profile.hpp, vec![1020; 2]);
}

#[test]
fn test_compute_profile_empty_image() {
    let img = DynamicImage::ImageLuma8(GrayImage::new(0, 5));
    let profile = compute_profile(&img);
    assert_eq!(profile.width, 0);
    assert_eq!(profile.height, 5);
    assert!(profile.vpp.is_empty());
    assert_eq!(profile.hpp, vec![0; 5]);
}

#[test]
fn test_profile_from_luma_exact_sums() {
    // 3 x 2 image: rows [1, 2, 3] and [4, 5, 6], then bytes past the pixels.
    let luma = [1u8, 2, 3, 4, 5, 6, 200, 200];
    let profile = profile_from_luma(3, 2, &luma);
    assert_eq!(profile.vpp, vec![5, 7, 9]);
    assert_eq!(profile.hpp, vec![6, 15]);
}

#[test]
fn test_find_gutters_standard() {
    let mut profile = vec![1000u64; 340];
    profile[100..120].fill(10);
    profile[220..240].fill(10);

    let config = GutterConfig {
        expected_count: Some(2),
        light_gutters: false,
        min_width: 10,
        percentile: pct(100_000),
    };

    let gutters = find_gutters(&profile, &config);

    assert_eq!(gutters.len(), 2);
    assert!(gutters[0].start >= 98 && gutters[0].start <= 102);
    assert!(gutters[0].end >= 118 && gutters[0].end <= 122);
    assert!(gutters[1].start >= 218 && gutters[1].start <= 222);
    assert!(gutters[1].end >= 238 && gutters[1].end <= 242);
}

#[test]
fn test_find_gutters_with_noise() {
    let mut profile = vec![0u64; 340];
    let mut seed = 42u64;
    let mut next_rand = || {
        seed = seed.wrapping_mul(6364136223846793005).wrapping_add(1);
        seed % 20
    };

    for (i, val) in profile.iter_mut().enumerate() {
        let base = if (100..120).contains(&i) || (220..240).contains(&i) {
            10
        } else {
            1000
        };
        *val = base + next_rand();
    }

    let config = GutterConfig {
        expected_count: Some(2),
        light_gutters: false,
        min_width: 10,
        percentile: pct(100_000),
    };

    let gutters = find_gutters(&profile, &config);
    assert_eq!(gutters.len(), 2);
    assert!(gutters[0].start >= 97 && gutters[0].start <= 103);
    assert!(gutters[0].end >= 117 && gutters[0].end <= 123);
    assert!(gutters[1].start >= 217 && gutters[1].start <= 223);
    assert!(gutters[1].end >= 237 && gutters[1].end <= 243);
}

#[test]
fn test_find_gutters_light() {
    let mut profile = vec![10u64; 340];
    profile[100..120].fill(1000);
    profile[220..240].fill(1000);

    let config = GutterConfig {
        expected_count: Some(2),
        light_gutters: true,
        min_width: 10,
        percentile: pct(900_000),
    };

    let gutters = find_gutters(&profile, &config);
    assert_eq!(gutters.len(), 2);
    assert!(gutters[0].start >= 98 && gutters[0].start <= 102);
    assert!(gutters[0].end >= 118 && gutters[0].end <= 122);
    assert!(gutters[1].start >= 218 && gutters[1].start <= 222);
    assert!(gutters[1].end >= 238 && gutters[1].end <= 242);
}

#[test]
fn test_find_gutters_empty_profile() {
    let config = GutterConfig {
        expected_count: None,
        light_gutters: false,
        min_width: 0,
        percentile: pct(500_000),
    };
    assert!(find_gutters(&[], &config).is_empty());
}

#[test]
fn test_find_gutters_keeps_best_when_too_many() {
    // Three dark valleys; the darkest two are kept, in order of position.
    let mut profile = vec![1000u64; 300];
    profile[40..60].fill(300);
    profile[140..160].fill(0);
    profile[240..260].fill(100);
    let config = GutterConfig {
        expected_count: Some(2),
        light_gutters: false,
        min_width: 5,
        percentile: pct(250_000),
    };
    let all = find_gutters(
        &profile,
        &GutterConfig { expected_count: None, ..config },
    );
    assert_eq!(all.len(), 3);
    let best = find_gutters(&profile, &config);
    assert_eq!(best.len(), 2);
    assert_eq!(best[0], all[1]);
    assert_eq!(best[1], all[2]);
}

#[test]
fn test_find_gutters_min_width_drops_narrow_runs() {
    let mut profile = vec![1000u64; 200];
    profile[50..58].fill(0);
    profile[120..160].fill(0);
    let config = GutterConfig {
        expected_count: None,
        light_gutters: false,
        min_width: 15,
        percentile: pct(100_000),
    };
    let gutters = find_gutters(&profile, &config);
    assert_eq!(gutters.len(), 1);
    assert!(gutters[0].start >= 118 && gutters[0].end <= 162);
}

#[test]
fn test_find_gutters_run_reaching_the_end() {
    let mut profile = vec![1000u64; 100];
    profile[80..100].fill(0);
    let config = GutterConfig {
        expected_count: None,
        light_gutters: false,
        min_width: 1,
        percentile: pct(100_000),
    };
    let gutters = find_gutters(&profile, &config);
    assert_eq!(gutters.len(), 1);
    assert_eq!(gutters[0].end, 100);
}

#[test]
fn test_gutter_center() {
    assert_eq!(Gutter { start: 10, end: 21 }.center(), 15);
    assert_eq!(Gutter { start: usize::MAX - 1, end: usize::MAX }.center(), usize::MAX - 1);
}

#[test]
fn test_rect_fields() {
    let r = Rect { x: 1, y: 2, width: 3, height: 4 };
    assert_eq!(r.x, 1);
    assert_eq!(r.y, 2);
    assert_eq!(r.width, 3);
    assert_eq!(r.height, 4);
}

#[test]
fn test_split_context_horizontal_standard() -> Result<()> {
    let width = 300;
    let height = 100;
    let mut img = GrayImage::new(width, height);

    for x in 0..width {
        for y in 0..height {
            let is_gutter = (90..110).contains(&x) || (190..210).contains(&x);
            if is_gutter {
                img.put_pixel(x, y, Luma([0]));
            } else {
                img.put_pixel(x, y, Luma([255]));
            }
        }
    }
    let dynamic_img = DynamicImage::ImageLuma8(img);

    let config = SplitConfig {
        expected_frames: 3,
        percentile: pct(200_000),
        min_width: 10,
        light_gutters: false,
    };

    let mut context = SplitContext::new(dynamic_img, config);
    context.run()?;

    assert_eq!(context.detected_rects.len(), 3);

    let r1 = context.detected_rects[0];
    let r2 = context.detected_rects[1];
    let r3 = context.detected_rects[2];

    assert_eq!(r1.x, 0);
    assert_eq!(r1.width, 100);
    assert_eq!(r2.x, 100);
    assert_eq!(r2.width, 100);
    assert_eq!(r3.x, 200);
    assert_eq!(r3.width, 100);
    Ok(())
}

#[test]
fn test_split_context_fallback() -> Result<()> {
    let width = 300;
    let height = 100;
    let img = DynamicImage::ImageLuma8(GrayImage::from_pixel(width, height, Luma([255])));

    let config = SplitConfig {
        expected_frames: 3,
        percentile: pct(100_000),
        min_width: 5,
        light_gutters: false,
    };

    let mut context = SplitContext::new(img, config);
    context.run()?;

    assert_eq!(context.detected_rects.len(), 3);
    assert_eq!(context.detected_rects[0].x, 0);
    assert_eq!(context.detected_rects[0].width, 100);
    assert_eq!(context.detected_rects[1].x, 100);
    assert_eq!(context.detected_rects[1].width, 100);
    assert_eq!(context.detected_rects[2].x, 200);
    assert_eq!(context.detected_rects[2].width, 100);
    Ok(())
}

#[test]
fn test_split_context_two_gutters_cut_at_centers() -> Result<()> {
    // Narrow dark gutters, so the threshold separates them from the frames.
    let (width, height) = (300u32, 100u32);
    let mut img = GrayImage::from_pixel(width, height, Luma([255]));
    for x in (95..105).chain(195..205) {
        for y in 0..height {
            img.put_pixel(x, y, Luma([0]));
        }
    }
    let config = SplitConfig { expected_frames: 3, percentile: pct(20_000), min_width: 3, light_gutters: false };
    let mut context = SplitContext::new(DynamicImage::ImageLuma8(img), config);
    context.run()?;
    let r = &context.detected_rects;
    assert_eq!(r.len(), 3);
    assert_eq!((r[0].x, r[0].width), (0, 100));
    assert_eq!((r[1].x, r[1].width), (100, 100));
    assert_eq!((r[2].x, r[2].width), (200, 100));
    for rect in r {
        assert_eq!((rect.y, rect.height), (0, 100));
    }
    Ok(())
}

#[test]
fn test_split_context_vertical_fallback() -> Result<()> {
    let img = DynamicImage::ImageLuma8(GrayImage::from_pixel(40, 90, Luma([255])));
    let config = SplitConfig { expected_frames: 3, percentile: pct(100_000), min_width: 5, light_gutters: false };
    let mut context = SplitContext::new(img, config);
    context.run()?;
    let r = &context.detected_rects;
    assert_eq!(r.len(), 3);
    assert_eq!((r[0].y, r[0].height), (0, 30));
    assert_eq!((r[1].y, r[1].height), (30, 30));
    assert_eq!((r[2].y, r[2].height), (60, 30));
    for rect in r {
        assert_eq!((rect.x, rect.width), (0, 40));
    }
    Ok(())
}

#[test]
fn test_split_context_rejects_empty_image() {
    let img = DynamicImage::ImageLuma8(GrayImage::new(0, 10));
    let config = SplitConfig { expected_frames: 3, percentile: pct(100_000), min_width: 5, light_gutters: false };
    let mut context = SplitContext::new(img, config);
    match context.run() {
        Err(reto_core::Error::Splitting(msg)) => assert_eq!(msg, "Image dimensions cannot be zero"),
        other => panic!("unexpected result: {:?}", other.is_ok()),
    }
    assert!(context.detected_rects.is_empty());
}

#[test]
fn test_split_image_cropping() -> Result<()> {
    let width = 300;
    let height = 100;
    let img = DynamicImage::ImageLuma8(GrayImage::from_pixel(width, height, Luma([255])));

    let rects = vec![
        Rect { x: 0, y: 0, width: 100, height: 100 },
        Rect { x: 100, y: 0, width: 100, height: 100 },
        Rect { x: 200, y: 0, width: 100, height: 100 },
    ];

    let sub_images = split_image(&img, &rects)?;
    assert_eq!(sub_images.len(), 3);
    for sub in sub_images {
        assert_eq!(sub.width(), 100);
        assert_eq!(sub.height(), 100);
    }
    Ok(())
}

#[test]
fn test_split_image_clamps_out_of_range_rects() -> Result<()> {
    let img = DynamicImage::ImageLuma8(GrayImage::from_pixel(50, 40, Luma([7])));
    let rects = vec![
        Rect { x: 45, y: 30, width: 100, height: 100 },
        Rect { x: 500, y: 500, width: 10, height: 10 },
    ];
    let subs = split_image(&img, &rects)?;
    assert_eq!((subs[0].width(), subs[0].height()), (5, 10));
    assert_eq!((subs[1].width(), subs[1].height()), (1, 1));
    Ok(())
}

#[test]
fn test_profiles_share_total_intensity() {
    let mut img = GrayImage::new(7, 5);
    for x in 0..7 {
        for y in 0..5 {
            img.put_pixel(x, y, Luma([((x * 31 + y * 17) % 256) as u8]));
        }
    }
    let profile = compute_profile(&DynamicImage::ImageLuma8(img));
    let v: u64 = profile.vpp.iter().sum();
    let h: u64 = profile.hpp.iter().sum();
    assert_eq!(v, h);
}

#[test]
fn test_split_rects_stay_inside_image() -> Result<()> {
    let img = DynamicImage::ImageLuma8(GrayImage::from_pixel(31, 7, Luma([90])));
    let config = SplitConfig { expected_frames: 0, percentile: pct(1_000_000), min_width: 0, light_gutters: true };
    let mut context = SplitContext::new(img, config);
    context.run()?;
    assert_eq!(context.detected_rects.len(), 3);
    for r in &context.detected_rects {
        assert!(r.x < 31 && r.x + r.width <= 31);
        assert!(r.y < 7 && r.y + r.height <= 7);
    }
    Ok(())
}

#[test]
fn test_split_image_crops_at_the_clamped_corner() -> Result<()> {
    let mut gray = GrayImage::new(40, 20);
    for x in 0..40 {
        for y in 0..20 {
            gray.put_pixel(x, y, Luma([(x * 5 + y) as u8]));
        }
    }
    let img = DynamicImage::ImageLuma8(gray);
    let rects = vec![
        Rect { x: 10, y: 3, width: 8, height: 4 },
        Rect { x: 38, y: 18, width: 10, height: 10 },
        Rect { x: 90, y: 90, width: 5, height: 5 },
    ];
    let subs = split_image(&img, &rects)?;
    let first = subs[0].to_luma8();
    assert_eq!(first.dimensions(), (8, 4));
    assert_eq!(first.get_pixel(0, 0).0[0], 10 * 5 + 3);
    assert_eq!(first.get_pixel(7, 3).0[0], 17 * 5 + 6);
    assert_eq!(subs[0], img.crop_imm(10, 3, 8, 4));
    let second = subs[1].to_luma8();
    assert_eq!(second.dimensions(), (2, 2));
    assert_eq!(second.get_pixel(1, 1).0[0], 39 * 5 + 19);
    let third = subs[2].to_luma8();
    assert_eq!(third.dimensions(), (1, 1));
    assert_eq!(third.get_pixel(0, 0).0[0], 39 * 5 + 19);
    Ok(())
}
