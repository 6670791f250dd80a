use vstd::prelude::*;
use crate::errors::KmeansError;
use crate::nearest::rows;
use crate::scalar::Scalar;

verus! {

/// The convergence threshold that a request stands for: the one given, or
/// zero where none is given.
pub open spec fn threshold_of<S: Scalar>(convergence_threshold: Option<S>) -> S {
    match convergence_threshold {
        Some(threshold) => threshold,
        None => S::zero_spec(),
    }
}

/// What is wrong with the parameters of a request, if anything: the first
/// of too few clusters, too few iterations, and a negative threshold.
pub open spec fn parameter_rejection<S: Scalar>(
    k: usize,
    max_iter: usize,
    convergence_threshold: Option<S>,
) -> Option<KmeansError> {
    if k < 2 {
        Some(KmeansError::TooFewClusters)
    } else if max_iter < 1 {
        Some(KmeansError::TooFewIterations)
    } else if threshold_of(convergence_threshold).is_sign_negative_spec() {
        Some(KmeansError::NegativeThreshold)
    } else {
        None
    }
}

/// Whether all of `points` have the dimension of the first.
pub open spec fn same_dimension<S>(points: Seq<Seq<S>>) -> bool {
    forall|i: int| 0 <= i < points.len() ==> (#[trigger] points[i]).len() == points[0].len()
}

/// The threshold that a request stands for.
pub fn threshold_or_zero<S: Scalar>(convergence_threshold: Option<S>) -> (threshold: S)
    ensures
        threshold == threshold_of(convergence_threshold),
{
    match convergence_threshold {
        Some(threshold) => threshold,
        None => S::zero(),
    }
}

/// Checks the parameters of a request.
pub fn check_parameters<S: Scalar>(
    k: usize,
    max_iter: usize,
    convergence_threshold: Option<S>,
) -> (rejection: Option<KmeansError>)
    ensures
        rejection == parameter_rejection(k, max_iter, convergence_threshold),
{
    if k < 2 {
        Some(KmeansError::TooFewClusters)
    } else if max_iter < 1 {
        Some(KmeansError::TooFewIterations)
    } else if threshold_or_zero(convergence_threshold).is_sign_negative() {
        Some(KmeansError::NegativeThreshold)
    } else {
        None
    }
}

/// Tells whether all of `points` have the dimension of the first.
pub fn has_same_dimension<S>(points: &[Vec<S>]) -> (same: bool)
    ensures
        same == same_dimension(rows(points@)),
{
    let ghost ps = rows(points@);
    let mut i: usize = 0;
    while i < points.len()
        invariant
            i <= points.len(),
            ps == rows(points@),
            forall|t: int| 0 <= t < i ==> (#[trigger] ps[t]).len() == ps[0].len(),
        decreases points.len() - i,
    {
        if points[i].len() != points[0].len() {
            assert(ps[i as int].len() != ps[0].len());
            return false;
        }
        i += 1;
    }
    true
}

/// Why a request to cluster `points` around `k` centroids is turned down, if
/// it is: the first of a wrong parameter, points of different dimensions,
/// and fewer points than clusters. A request without points is not turned
/// down for their number.
pub open spec fn kmeans_rejection<S: Scalar>(
    points: Seq<Seq<S>>,
    k: usize,
    max_iter: usize,
    convergence_threshold: Option<S>,
) -> Option<KmeansError> {
    match parameter_rejection(k, max_iter, convergence_threshold) {
        Some(e) => Some(e),
        None => if !same_dimension(points) {
            Some(KmeansError::DimensionMismatch)
        } else if 0 < points.len() < k {
            Some(KmeansError::InsufficientPoints)
        } else {
            None
        },
    }
}

/// Why a request to find `k` colours for `len` colour bytes is turned down,
/// if it is: the first of a wrong parameter, a number of bytes that is no
/// multiple of three, and fewer colours given than asked for. A request
/// without bytes is not turned down for their number.
pub open spec fn rgb_rejection<S: Scalar>(
    len: nat,
    k: usize,
    max_iter: usize,
    convergence_threshold: Option<S>,
) -> Option<KmeansError> {
    match parameter_rejection(k, max_iter, convergence_threshold) {
        Some(e) => Some(e),
        None => if len % 3 != 0 {
            Some(KmeansError::RaggedRgb)
        } else if 0 < len / 3 < k {
            Some(KmeansError::InsufficientPoints)
        } else {
            None
        },
    }
}

/// Checks a request to cluster `points` around `k` centroids.
pub fn check_request<S: Scalar>(
    points: &[Vec<S>],
    k: usize,
    max_iter: usize,
    convergence_threshold: Option<S>,
) -> (rejection: Option<KmeansError>)
    ensures
        rejection == kmeans_rejection(rows(points@), k, max_iter, convergence_threshold),
{
    match check_parameters(k, max_iter, convergence_threshold) {
        Some(e) => Some(e),
        None => if !has_same_dimension(points) {
            Some(KmeansError::DimensionMismatch)
        } else if 0 < points.len() && points.len() < k {
            Some(KmeansError::InsufficientPoints)
        } else {
            None
        },
    }
}

/// Checks a request to find `k` colours for `len` colour bytes.
pub fn check_rgb_request<S: Scalar>(
    len: usize,
    k: usize,
    max_iter: usize,
    convergence_threshold: Option<S>,
) -> (rejection: Option<KmeansError>)
    ensures
        rejection == rgb_rejection(len as nat, k, max_iter, convergence_threshold),
{
    match check_parameters(k, max_iter, convergence_threshold) {
        Some(e) => Some(e),
        None => if len % 3 != 0 {
            Some(KmeansError::RaggedRgb)
        } else if 0 < len / 3 && len / 3 < k {
            Some(KmeansError::InsufficientPoints)
        } else {
            None
        },
    }
}

} // verus!
