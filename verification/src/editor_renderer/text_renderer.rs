//! Errors of the text renderer.
use vstd::prelude::*;

verus! {

/// Why the text renderer could not be created.
#[non_exhaustive]
#[derive(Debug)]
pub enum TextRendererError {
    /// The font file could not be read.
    FontLoading(std::io::Error),
}

impl From<std::io::Error> for TextRendererError {
    fn from(e: std::io::Error) -> (r: TextRendererError) {
        TextRendererError::FontLoading(e)
    }
}

impl vstd::std_specs::convert::FromSpecImpl<std::io::Error> for TextRendererError {
    open spec fn obeys_from_spec() -> bool {
        true
    }

    open spec fn from_spec(e: std::io::Error) -> TextRendererError {
        TextRendererError::FontLoading(e)
    }
}

} // verus!
