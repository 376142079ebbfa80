use vstd::prelude::*;

verus! {

/// Why a skybox conversion request was refused.
#[derive(Debug, Clone, Copy, PartialEq, Eq, Structural)]
pub enum ConversionError {
    /// The image is not a single layer of six square faces stacked vertically, or its byte
    /// length does not split into six equal strips. The image is left as it was.
    MalformedLayout,
    /// The image was already converted; converting it again would misread its layers.
    DuplicateConversion,
}

} // verus!
