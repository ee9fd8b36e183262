//! Core library for splitting scanned film strips into frames.

use vstd::prelude::*;

/// Error types and Result alias.
pub mod error;
/// Integer geometry of a scan.
pub mod geom;
/// Calls into the `image` crate.
pub mod imaging;
/// Projection profiles of a luma image.
pub mod profile;
/// Gutter detection in a projection profile.
pub mod gutters;
/// Splitting a strip into frames.
pub mod splitting;
/// Batch bookkeeping.
pub mod pipeline;
/// Drawing onto overlay images.
pub mod draw;

pub use error::{Error, Result, RoiError};
pub use pipeline::{is_supported_extension, is_supported_image, ItemProcessingOutcome, ProcessSummary, summarize_outcomes};
pub use geom::{HorizontalDelegator, PixelRect, Size2D, StripOrientation, VerticalDelegator};

verus! {

/// A demo function that checks the library is wired up.
///
/// It never returns an error, but follows the library convention.
pub fn demo_function() -> (res: Result<()>)
    ensures
        res is Ok,
{
    Ok(())
}

} // verus!
