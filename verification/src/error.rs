//! Error types of the library.

use vstd::prelude::*;

verus! {

#[verifier::external_type_specification]
#[verifier::external_body]
pub struct ExIoError(std::io::Error);

/// Common error type of the library.
#[derive(Debug)]
pub enum Error {
    /// IO error wrapper.
    Io(std::io::Error),
    /// Splitting error.
    Splitting(String),
    /// Placeholder for other errors.
    Unknown(String),
}

/// `Result` with the library's `Error`.
pub type Result<T> = core::result::Result<T, Error>;

impl Error {
    /// The message of the error: its kind, a colon, and what it carries.
    pub fn to_string(&self) -> (res: String)
        ensures
            match self {
                Error::Io(_) => res@.len() >= 10 && res@.subrange(0, 10) == "IO error: "@,
                Error::Splitting(s) => res@ == "Splitting error: "@ + s@,
                Error::Unknown(s) => res@ == "Unknown error: "@ + s@,
            },
    {
        match self {
            Error::Io(e) => {
                let detail = e.to_string();
                let mut res = String::from_str("IO error: ");
                proof {
                    reveal_strlit("IO error: ");
                }
                res.append(detail.as_str());
                proof {
                    assert(res@.subrange(0, 10) =~= "IO error: "@);
                }
                res
            },
            Error::Splitting(s) => {
                let mut res = String::from_str("Splitting error: ");
                res.append(s.as_str());
                res
            },
            Error::Unknown(s) => {
                let mut res = String::from_str("Unknown error: ");
                res.append(s.as_str());
                res
            },
        }
    }
}

impl From<std::io::Error> for Error {
    fn from(err: std::io::Error) -> (res: Self) {
        Error::Io(err)
    }
}

impl vstd::std_specs::convert::FromSpecImpl<std::io::Error> for Error {
    open spec fn obeys_from_spec() -> bool {
        true
    }

    open spec fn from_spec(v: std::io::Error) -> Self {
        Error::Io(v)
    }
}

/// Errors in the geometry of a scan: image dimensions and frame indices.
#[derive(Debug, Clone, Copy, PartialEq, Eq)]
pub enum RoiError {
    /// The image has a zero dimension.
    ImageTooSmall { width: u32, height: u32 },
    /// The image is square, so it has no stacking axis.
    SquareImageNotSupported { width: u32, height: u32 },
    /// A frame index past the detected frames was requested.
    FrameIndexOutOfRange { requested: usize, available: usize },
}

} // verus!
