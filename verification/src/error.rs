//! The error type shared by the whole pipeline.

use vstd::prelude::*;
use crate::ebml::EbmlError;

verus! {

/// Every failure the pipeline can surface, by kind.
#[derive(Clone, Copy, Debug, PartialEq, Eq, Structural)]
pub enum WebmetroError {
    /// Malformed EBML in the input stream.
    EbmlError(EbmlError),
    /// A buffer would grow past the configured soft limit.
    ResourcesExceeded,
    /// Underlying transport failure.
    IoError,
    /// Wrapped foreign error.
    Unknown,
}

impl From<EbmlError> for WebmetroError {
    fn from(err: EbmlError) -> (r: WebmetroError) {
        WebmetroError::EbmlError(err)
    }
}

impl vstd::std_specs::convert::FromSpecImpl<EbmlError> for WebmetroError {
    open spec fn obeys_from_spec() -> bool {
        true
    }

    open spec fn from_spec(err: EbmlError) -> WebmetroError {
        WebmetroError::EbmlError(err)
    }
}

} // verus!
