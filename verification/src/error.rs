use vstd::prelude::*;

verus! {

/// `std::io::Error`, carried through as an opaque value.
#[verifier::external_type_specification]
#[verifier::external_body]
pub struct ExIoError(std::io::Error);

/// `las::Error`, carried through as an opaque value.
#[verifier::external_type_specification]
#[verifier::external_body]
pub struct ExLasError(las::Error);

/// What can go wrong while a point cloud is built.
#[derive(Debug)]
pub enum LaszyError {
    /// A source or destination file could not be opened, read or written.
    IoError(std::io::Error),
    /// The point-file codec rejected a header or a point record.
    LasError(String),
    /// The builder's configuration is one that the library does not support.
    LaszyError(String),
    /// Cropping and thinning left no point that gives the cloth a ceiling.
    EmptyCloud(String),
    /// The output path does not end in an extension that the operation writes.
    InvalidFileExtension(String),
}

/// The text that `std::io::Error` renders through `Display` (`ToString::to_string`).
/// Nothing is claimed about the text.
#[verifier::external_body]
fn io_error_text(error: &std::io::Error) -> (text: String) {
    error.to_string()
}

/// The text that `las::Error` renders through `Display` (`ToString::to_string`).
/// Nothing is claimed about the text.
#[verifier::external_body]
fn las_error_text(error: &las::Error) -> (text: String) {
    error.to_string()
}

impl LaszyError {
    /// The human-readable text of the error: the text carried by the variant,
    /// or the rendering of the wrapped I/O error.
    pub fn message(&self) -> (text: String)
        ensures
            match *self {
                LaszyError::IoError(_) => true,
                LaszyError::LasError(s) => text@ == s@,
                LaszyError::LaszyError(s) => text@ == s@,
                LaszyError::EmptyCloud(s) => text@ == s@,
                LaszyError::InvalidFileExtension(s) => text@ == s@,
            },
    {
        match self {
            LaszyError::IoError(e) => io_error_text(e),
            LaszyError::LasError(s) => s.clone(),
            LaszyError::LaszyError(s) => s.clone(),
            LaszyError::EmptyCloud(s) => s.clone(),
            LaszyError::InvalidFileExtension(s) => s.clone(),
        }
    }
}

impl From<std::io::Error> for LaszyError {
    fn from(error: std::io::Error) -> (r: Self) {
        LaszyError::IoError(error)
    }
}

impl vstd::std_specs::convert::FromSpecImpl<std::io::Error> for LaszyError {
    open spec fn obeys_from_spec() -> bool {
        true
    }

    open spec fn from_spec(error: std::io::Error) -> Self {
        LaszyError::IoError(error)
    }
}

impl From<las::Error> for LaszyError {
    fn from(error: las::Error) -> (r: Self)
        ensures
            r is LasError,
    {
        LaszyError::LasError(las_error_text(&error))
    }
}

impl vstd::std_specs::convert::FromSpecImpl<las::Error> for LaszyError {
    open spec fn obeys_from_spec() -> bool {
        false
    }

    open spec fn from_spec(error: las::Error) -> Self {
        arbitrary()
    }
}

} // verus!
