//! The ways a palette run can fail.

use vstd::prelude::*;
use vstd::string::StringExecFns;

verus! {

/// Why a run produced no palette.
#[derive(Clone, Copy, Debug, PartialEq, Eq, Structural)]
pub enum PaletteError {
    /// The video could not be opened, or it holds no frame.
    SourceOpen,
    /// A frame failed to decode after `frames_processed` frames had been read.
    Decode { frames_processed: usize },
    /// There is nothing to cluster: the ranking holds no sample.
    EmptyInput,
    /// A parameter is outside its domain.
    InvalidConfiguration,
    /// The k-means outcome does not fit the samples it was asked for.
    ClusteringMismatch,
}

impl PaletteError {
    /// The words in which the error is told.
    pub open spec fn text(self) -> Seq<char> {
        match self {
            PaletteError::SourceOpen => "the video cannot be opened or holds no frame"@,
            PaletteError::Decode { .. } => "a frame of the video failed to decode"@,
            PaletteError::EmptyInput => "no colour was extracted, so there is nothing to cluster"@,
            PaletteError::InvalidConfiguration => "a parameter is outside its domain"@,
            PaletteError::ClusteringMismatch => "the clustering outcome does not fit the samples"@,
        }
    }

    /// The error in words, for the user.
    pub fn message(&self) -> (message: String)
        ensures
            message@ == self.text(),
    {
        match self {
            PaletteError::SourceOpen => String::from_str(
                "the video cannot be opened or holds no frame",
            ),
            PaletteError::Decode { .. } => String::from_str("a frame of the video failed to decode"),
            PaletteError::EmptyInput => String::from_str(
                "no colour was extracted, so there is nothing to cluster",
            ),
            PaletteError::InvalidConfiguration => String::from_str(
                "a parameter is outside its domain",
            ),
            PaletteError::ClusteringMismatch => String::from_str(
                "the clustering outcome does not fit the samples",
            ),
        }
    }
}

} // verus!
