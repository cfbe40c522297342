use vstd::prelude::*;

verus! {

/// Every way in which reading or extracting a container can fail.
#[derive(Debug, Clone, Copy, PartialEq, Eq, Structural)]
pub enum ExtractError {
    /// No input file was named on the command line.
    NoInputFile,
    /// No output directory was named on the command line.
    NoOutputDirectory,
    /// The first four bytes are not the `TMOD` marker.
    BadMagic,
    /// The entry count in the header is negative.
    NegativeEntryCount,
    /// An entry declares a negative payload length.
    NegativeLength,
    /// The input ends before a field or payload is complete.
    Truncated,
    /// A 7-bit length prefix has too many groups or exceeds 32 bits.
    LengthOverflow,
    /// String bytes are not valid UTF-8.
    InvalidUtf8,
    /// A compressed payload is not a valid raw deflate stream.
    Decompress,
    /// A payload does not inflate to its declared uncompressed length.
    SizeMismatch,
}

impl ExtractError {
    /// Usage errors are the ones after which usage text is shown.
    pub open spec fn spec_is_usage_error(self) -> bool {
        self is NoInputFile || self is NoOutputDirectory
    }

    pub fn is_usage_error(&self) -> (r: bool)
        ensures
            r == self.spec_is_usage_error(),
    {
        match self {
            ExtractError::NoInputFile | ExtractError::NoOutputDirectory => true,
            _ => false,
        }
    }
}

} // verus!
