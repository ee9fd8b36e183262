use reto_core::{
    is_supported_extension, is_supported_image, summarize_outcomes, HorizontalDelegator,
    ItemProcessingOutcome, PixelRect, ProcessSummary, RoiError, Size2D, StripOrientation,
    VerticalDelegator,
};
use reto_core::pipeline::item_file_stem;
use std::path::PathBuf;

#[test]
fn test_orientation_from_dimensions() {
    assert_eq!(StripOrientation::from_dimensions(300, 100), Ok(StripOrientation::Horizontal));
    assert_eq!(StripOrientation::from_dimensions(100, 300), Ok(StripOrientation::Vertical));
    assert_eq!(
        StripOrientation::from_dimensions(100, 100),
        Err(RoiError::SquareImageNotSupported { width: 100, height: 100 })
    );
    assert_eq!(
        StripOrientation::from_size(Size2D::new(0, 10)),
        Err(RoiError::ImageTooSmall { width: 0, height: 10 })
    );
}

#[test]
fn test_pixel_rect_size() {
    let r = PixelRect { x: 3, y: 4, width: 10, height: 20 };
    assert_eq!(r.size(), Size2D::new(10, 20));
}

#[test]
fn test_delegators() {
    let h = HorizontalDelegator;
    let v = VerticalDelegator;
    let size = Size2D::new(300, 100);
    assert_eq!(h.major_dimension(size), 300);
    assert_eq!(h.minor_dimension(size), 100);
    assert_eq!(v.major_dimension(size), 100);
    assert_eq!(v.minor_dimension(size), 300);
    assert_eq!(h.to_xy(5, 7), (5, 7));
    assert_eq!(v.to_xy(5, 7), (7, 5));
    assert_eq!(v.to_stack_coords(7, 5), (5, 7));
    assert_eq!(h.slice_stride(4, size), (4, 300));
    assert_eq!(v.slice_stride(4, size), (1200, 1));
}

#[test]
fn test_is_supported_image() {
    assert!(is_supported_image(&PathBuf::from("test.jpg")));
    assert!(is_supported_image(&PathBuf::from("test.PNG")));
    assert!(is_supported_image(&PathBuf::from("test.webp")));
    assert!(!is_supported_image(&PathBuf::from("test.txt")));
    assert!(!is_supported_image(&PathBuf::from("test")));
}

#[test]
fn test_is_supported_extension_cases() {
    for ext in ["jpg", "jpeg", "png", "bmp", "tiff", "tif", "webp", "JpEg", "TIF"] {
        assert!(is_supported_extension(ext), "{ext}");
    }
    for ext in ["", "jp", "jpgg", "gif", "pngx", "ｐｎｇ"] {
        assert!(!is_supported_extension(ext), "{ext}");
    }
}

#[test]
fn test_summarize_outcomes() {
    let summary = summarize_outcomes(&[
        ItemProcessingOutcome::Success,
        ItemProcessingOutcome::Failure,
        ItemProcessingOutcome::Success,
        ItemProcessingOutcome::Success,
    ]);
    assert_eq!(
        summary,
        ProcessSummary { total_input: 4, successful_count: 3, failed_count: 1 }
    );
    assert_eq!(summarize_outcomes(&[]), ProcessSummary::default());
}

#[test]
fn test_item_file_stem() {
    assert_eq!(item_file_stem(&PathBuf::from("/scans/scan.png")), "scan");
    assert_eq!(item_file_stem(&PathBuf::from("roll.07.tif")), "roll.07");
    assert_eq!(item_file_stem(&PathBuf::from("")), "strip");
    assert_eq!(item_file_stem(&PathBuf::from("/")), "strip");
}
