use vstd::prelude::*;

verus! {

/// Why a clustering request was turned down.
#[derive(Clone, Copy, Debug, PartialEq, Eq, Structural)]
pub enum KmeansError {
    /// Fewer than two clusters were asked for.
    TooFewClusters,
    /// Fewer than one iteration was allowed.
    TooFewIterations,
    /// The convergence threshold carries a negative sign.
    NegativeThreshold,
    /// The number of colour bytes is no multiple of three.
    RaggedRgb,
    /// The points do not all have the same dimension, or a point to classify
    /// does not have the dimension of the centroids.
    DimensionMismatch,
    /// More clusters were asked for than there are points.
    InsufficientPoints,
    /// The indices of the initial centroids do not name distinct points.
    InvalidSeeds,
    /// There is no centroid to classify a point by.
    NoCentroids,
}

impl KmeansError {
    /// The text of the message that describes this error.
    pub open spec fn message_text(self) -> Seq<char> {
        match self {
            KmeansError::TooFewClusters => "Error: k must be greater than or equal to 2."@,
            KmeansError::TooFewIterations => "Error: max_iter must be greater than or equal to 1."@,
            KmeansError::NegativeThreshold => "Error: convergence_threshold must be positive"@,
            KmeansError::RaggedRgb => "Error: The length of rgb_slice must be a multiple of 3."@,
            KmeansError::DimensionMismatch => "Error: All data points must have the same dimension."@,
            KmeansError::InsufficientPoints => "Error: k must not exceed the number of data points."@,
            KmeansError::InvalidSeeds => "Error: The initial centroids must be distinct data points."@,
            KmeansError::NoCentroids => "Error: There are no centroids."@,
        }
    }

    /// The message that describes this error to a caller.
    pub fn message(&self) -> (text: String)
        ensures
            text@ == self.message_text(),
    {
        match self {
            KmeansError::TooFewClusters => "Error: k must be greater than or equal to 2.".to_owned(),
            KmeansError::TooFewIterations => "Error: max_iter must be greater than or equal to 1.".to_owned(),
            KmeansError::NegativeThreshold => "Error: convergence_threshold must be positive".to_owned(),
            KmeansError::RaggedRgb => "Error: The length of rgb_slice must be a multiple of 3.".to_owned(),
            KmeansError::DimensionMismatch => "Error: All data points must have the same dimension.".to_owned(),
            KmeansError::InsufficientPoints => "Error: k must not exceed the number of data points.".to_owned(),
            KmeansError::InvalidSeeds => "Error: The initial centroids must be distinct data points.".to_owned(),
            KmeansError::NoCentroids => "Error: There are no centroids.".to_owned(),
        }
    }
}

} // verus!
