//! Integer geometry of a scanned film strip: dimensions, orientation and
//! the axis mapping of each orientation.

use vstd::prelude::*;

use crate::error::RoiError;

verus! {

/// 2D dimension container representing width and height.
#[derive(Debug, Clone, Copy, PartialEq, Eq, Hash)]
pub struct Size2D<T> {
    /// Width dimension.
    pub width: T,
    /// Height dimension.
    pub height: T,
}

impl<T> Size2D<T> {
    /// Creates a new `Size2D` with specified width and height.
    pub fn new(width: T, height: T) -> (res: Self)
        ensures
            res.width == width,
            res.height == height,
    {
        Size2D { width, height }
    }
}

/// Film strip scan orientation based on dimensional aspect ratio.
///
/// Invariant: input images always have an aspect ratio other than one.
#[derive(Debug, Clone, Copy, PartialEq, Eq, Hash)]
pub enum StripOrientation {
    /// Width > Height: portrait frames stacked side by side.
    Horizontal,
    /// Height > Width: landscape frames stacked top to bottom.
    Vertical,
}

/// What `StripOrientation::from_size` answers for a width and a height.
pub open spec fn orientation_of(width: u32, height: u32) -> Result<StripOrientation, RoiError> {
    if width == 0 || height == 0 {
        Err(RoiError::ImageTooSmall { width, height })
    } else if width > height {
        Ok(StripOrientation::Horizontal)
    } else if height > width {
        Ok(StripOrientation::Vertical)
    } else {
        Err(RoiError::SquareImageNotSupported { width, height })
    }
}

/// An image has an orientation exactly when both of its sides are non-zero
/// and they differ; the longer side is the stacking axis.
pub proof fn lemma_orientation_cases(width: u32, height: u32)
    ensures
        orientation_of(width, height) is Ok <==> (width > 0 && height > 0 && width != height),
        orientation_of(width, height) == Ok::<StripOrientation, RoiError>(StripOrientation::Horizontal)
            <==> (height > 0 && width > height),
        orientation_of(width, height) == Ok::<StripOrientation, RoiError>(StripOrientation::Vertical)
            <==> (width > 0 && height > width),
{
}

impl StripOrientation {
    /// Determines the film orientation from explicit dimensions.
    ///
    /// Fails with `ImageTooSmall` when a dimension is zero and with
    /// `SquareImageNotSupported` when the image is square.
    pub fn from_dimensions(width: u32, height: u32) -> (res: Result<Self, RoiError>)
        ensures
            res == orientation_of(width, height),
    {
        Self::from_size(Size2D::new(width, height))
    }

    /// Determines the film orientation from structured 2D dimensions.
    pub fn from_size(size: Size2D<u32>) -> (res: Result<Self, RoiError>)
        ensures
            res == orientation_of(size.width, size.height),
    {
        let width = size.width;
        let height = size.height;
        if width == 0 || height == 0 {
            return Err(RoiError::ImageTooSmall { width, height });
        }
        if width > height {
            Ok(StripOrientation::Horizontal)
        } else if height > width {
            Ok(StripOrientation::Vertical)
        } else {
            Err(RoiError::SquareImageNotSupported { width, height })
        }
    }
}

/// Concrete integer pixel rectangle bounding box.
#[derive(Debug, Clone, Copy, PartialEq, Eq, Hash)]
pub struct PixelRect {
    /// Horizontal pixel offset from left.
    pub x: u32,
    /// Vertical pixel offset from top.
    pub y: u32,
    /// Pixel width.
    pub width: u32,
    /// Pixel height.
    pub height: u32,
}

impl PixelRect {
    /// Returns the rectangle dimensions as a `Size2D<u32>`.
    pub fn size(&self) -> (res: Size2D<u32>)
        ensures
            res.width == self.width,
            res.height == self.height,
    {
        Size2D::new(self.width, self.height)
    }
}

/// Axis operations for horizontally stacked portrait frames (width > height).
#[derive(Debug, Clone, Copy)]
pub struct HorizontalDelegator;

/// Axis operations for vertically stacked landscape frames (height > width).
#[derive(Debug, Clone, Copy)]
pub struct VerticalDelegator;

impl HorizontalDelegator {
    /// Length of the stacking dimension: the width.
    #[verifier::allow_in_spec]
    pub fn major_dimension(&self, size: Size2D<u32>) -> u32
        returns
            size.width,
    {
        size.width
    }

    /// Length of the frame's cross dimension: the height.
    #[verifier::allow_in_spec]
    pub fn minor_dimension(&self, size: Size2D<u32>) -> u32
        returns
            size.height,
    {
        size.height
    }

    /// Maps stacking coordinates `(major, cross)` to pixel coordinates `(x, y)`.
    #[verifier::allow_in_spec]
    pub fn to_xy(&self, major: u32, cross: u32) -> (u32, u32)
        returns
            (major, cross),
    {
        (major, cross)
    }

    /// Maps pixel coordinates `(x, y)` to stacking coordinates `(major, cross)`.
    #[verifier::allow_in_spec]
    pub fn to_stack_coords(&self, x: u32, y: u32) -> (u32, u32)
        returns
            (x, y),
    {
        (x, y)
    }

    /// The `(start_index, stride)` in a row-major buffer of the column at `major_idx`.
    pub fn slice_stride(&self, major_idx: u32, size: Size2D<u32>) -> (res: (usize, usize))
        ensures
            res.0 == major_idx,
            res.1 == size.width,
    {
        (major_idx as usize, size.width as usize)
    }
}

impl VerticalDelegator {
    /// Length of the stacking dimension: the height.
    #[verifier::allow_in_spec]
    pub fn major_dimension(&self, size: Size2D<u32>) -> u32
        returns
            size.height,
    {
        size.height
    }

    /// Length of the frame's cross dimension: the width.
    #[verifier::allow_in_spec]
    pub fn minor_dimension(&self, size: Size2D<u32>) -> u32
        returns
            size.width,
    {
        size.width
    }

    /// Maps stacking coordinates `(major, cross)` to pixel coordinates `(x, y)`.
    #[verifier::allow_in_spec]
    pub fn to_xy(&self, major: u32, cross: u32) -> (u32, u32)
        returns
            (cross, major),
    {
        (cross, major)
    }

    /// Maps pixel coordinates `(x, y)` to stacking coordinates `(major, cross)`.
    #[verifier::allow_in_spec]
    pub fn to_stack_coords(&self, x: u32, y: u32) -> (u32, u32)
        returns
            (y, x),
    {
        (y, x)
    }

    /// The `(start_index, stride)` in a row-major buffer of the row at `major_idx`.
    ///
    /// The start index is computed in `u32`, so it must fit there.
    pub fn slice_stride(&self, major_idx: u32, size: Size2D<u32>) -> (res: (usize, usize))
        requires
            major_idx * size.width <= u32::MAX,
        ensures
            res.0 == major_idx * size.width,
            res.1 == 1,
    {
        ((major_idx * size.width) as usize, 1)
    }
}

/// For either delegator, mapping stacking coordinates to pixel coordinates
/// and back gives the same coordinates, and mapping pixel coordinates
/// to stacking coordinates and back gives the same pixel.
pub proof fn lemma_stack_coords_round_trip(h: HorizontalDelegator, v: VerticalDelegator, a: u32, b: u32)
    ensures
        h.to_stack_coords(h.to_xy(a, b).0, h.to_xy(a, b).1) == (a, b),
        h.to_xy(h.to_stack_coords(a, b).0, h.to_stack_coords(a, b).1) == (a, b),
        v.to_stack_coords(v.to_xy(a, b).0, v.to_xy(a, b).1) == (a, b),
        v.to_xy(v.to_stack_coords(a, b).0, v.to_stack_coords(a, b).1) == (a, b),
{
}

/// The stacking and cross dimensions of either delegator cover the image:
/// their product is the pixel count, and for the orientation that
/// `from_size` picks the stacking dimension is the longer one.
pub proof fn lemma_delegator_dimensions(h: HorizontalDelegator, v: VerticalDelegator, size: Size2D<u32>)
    ensures
        h.major_dimension(size) * h.minor_dimension(size) == size.width * size.height,
        v.major_dimension(size) * v.minor_dimension(size) == size.width * size.height,
        orientation_of(size.width, size.height) == Ok::<StripOrientation, RoiError>(StripOrientation::Horizontal)
            ==> h.major_dimension(size) > h.minor_dimension(size),
        orientation_of(size.width, size.height) == Ok::<StripOrientation, RoiError>(StripOrientation::Vertical)
            ==> v.major_dimension(size) > v.minor_dimension(size),
{
    assert(size.height * size.width == size.width * size.height) by (nonlinear_arith);
}

} // verus!
