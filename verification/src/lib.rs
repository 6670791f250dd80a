//! K-means clustering with Hamerly's bounds.
//!
//! Lloyd's algorithm assigns every point to its nearest centroid and moves
//! every centroid to the mean of its points, in turn. Hamerly's variant keeps
//! for each point an upper bound on the distance to its centroid and a lower
//! bound on the distance to every other centroid, and by the triangle
//! inequality skips the search for most points in most iterations.
//!
//! The numbers are any type with the operations of [`scalar::Scalar`]. Each
//! function's contract says exactly which operations are applied to which
//! values in which order, so it pins the result for arithmetic that rounds
//! as well. What holds beyond that where the arithmetic is exact is proved
//! in [`laws`], [`soundness`], [`aggregates`], [`objective`] and [`lloyd`].

use vstd::prelude::*;
use crate::bounds::uniform;
use crate::errors::KmeansError;
use crate::kmeans_triangle::{empty_result, hamerly_kmeans_from, run, HamerlyKmeansResult};
use crate::nearest::rows;
use crate::rgb::{points_from_rgb, rgb_bytes, rgb_from_centroids, rgb_points};
use crate::scalar::Scalar;
use crate::seeding::{centroids_at, draw_seeds, is_valid_seeding, select, valid_seeds};
use crate::validate::{
    check_request, check_rgb_request, kmeans_rejection, rgb_rejection, threshold_of,
    threshold_or_zero,
};

pub mod aggregates;
pub mod assignment;
pub mod bounds;
pub mod distance;
pub mod errors;
pub mod integer;
pub mod kmeans_triangle;
pub mod laws;
pub mod lloyd;
pub mod nearest;
pub mod objective;
pub mod rgb;
pub mod scalar;
pub mod seeding;
pub mod soundness;
pub mod update;
pub mod validate;

verus! {

/// The result of a run on no points.
fn no_result<S: Scalar>() -> (result: HamerlyKmeansResult<S>)
    ensures
        result@ == empty_result::<S>(),
{
    let result = HamerlyKmeansResult {
        centroids: Vec::new(),
        iterations: 0,
        point_centroids: Vec::new(),
    };
    assert(result@.centroids =~= empty_result::<S>().centroids);
    assert(result@.point_centroids =~= empty_result::<S>().point_centroids);
    result
}

/// Runs on `data` from the points at `seeds`, of a request that was checked.
fn cluster_from<S: Scalar>(
    data: &[Vec<S>],
    seeds: &[usize],
    max_iter: usize,
    convergence_threshold: Option<S>,
) -> (result: HamerlyKmeansResult<S>)
    requires
        seeds@.len() >= 2,
        valid_seeds(seeds@, data@.len()),
    ensures
        result@ == run(
            select(rows(data@), seeds@),
            rows(data@),
            max_iter as nat,
            threshold_of(convergence_threshold),
        ),
        forall|d: nat|
            uniform(select(rows(data@), seeds@), d) ==> uniform(result@.centroids, d),
{
    let centroids = centroids_at(data, seeds);
    assert(rows(centroids@).len() == seeds@.len());
    let threshold = threshold_or_zero(convergence_threshold);
    hamerly_kmeans_from(centroids, max_iter, threshold, data)
}

/// Finds the k-means centroids of `data`, starting from the points at
/// `seeds`; the number of seeds is the number of clusters.
///
/// The request is checked first, see [`validate::kmeans_rejection`]. Without
/// points the result is empty. Seeds that do not name distinct points are
/// turned down. Otherwise the result is that of the run from the seeded
/// centroids.
pub fn kmeans_seeded<S: Scalar>(
    data: &[Vec<S>],
    seeds: &[usize],
    max_iter: usize,
    convergence_threshold: Option<S>,
) -> (r: Result<HamerlyKmeansResult<S>, KmeansError>)
    ensures
        match kmeans_rejection(rows(data@), seeds@.len() as usize, max_iter, convergence_threshold) {
            Some(e) => r is Err && r->Err_0 == e,
            None => if data@.len() == 0 {
                r matches Ok(result) && result@ == empty_result::<S>()
            } else if !valid_seeds(seeds@, data@.len()) {
                r is Err && r->Err_0 == KmeansError::InvalidSeeds
            } else {
                r matches Ok(result) && result@ == run(
                    select(rows(data@), seeds@),
                    rows(data@),
                    max_iter as nat,
                    threshold_of(convergence_threshold),
                )
            },
        },
{
    match check_request(data, seeds.len(), max_iter, convergence_threshold) {
        Some(e) => {
            return Err(e);
        },
        None => {},
    }
    if data.len() == 0 {
        return Ok(no_result());
    }
    if !is_valid_seeding(seeds, data.len()) {
        return Err(KmeansError::InvalidSeeds);
    }
    Ok(cluster_from(data, seeds, max_iter, convergence_threshold))
}

/// Finds the k-means centroids of `data`, a list of points of one dimension:
/// the centroids, the assignment of the points and the number of iterations.
///
/// The request is checked first, see [`validate::kmeans_rejection`]. Without
/// points the result is empty. Otherwise `k` distinct points are picked as
/// initial centroids, see [`seeding::draw_seeds`], and the result is that of
/// the run from them.
pub fn kmeans<S: Scalar>(
    data: Vec<Vec<S>>,
    k: usize,
    max_iter: usize,
    convergence_threshold: Option<S>,
) -> (r: Result<HamerlyKmeansResult<S>, KmeansError>)
    ensures
        match kmeans_rejection(rows(data@), k, max_iter, convergence_threshold) {
            Some(e) => r is Err && r->Err_0 == e,
            None => r matches Ok(result) && {
                &&& data@.len() == 0 ==> result@ == empty_result::<S>()
                &&& data@.len() > 0 ==> exists|seeds: Seq<usize>|
                    seeds.len() == k && valid_seeds(seeds, data@.len()) && result@ == run(
                        #[trigger] select(rows(data@), seeds),
                        rows(data@),
                        max_iter as nat,
                        threshold_of(convergence_threshold),
                    )
            },
        },
{
    match check_request(data.as_slice(), k, max_iter, convergence_threshold) {
        Some(e) => {
            return Err(e);
        },
        None => {},
    }
    if data.len() == 0 {
        return Ok(no_result());
    }
    let seeds = draw_seeds(data.len(), k);
    Ok(cluster_from(data.as_slice(), seeds.as_slice(), max_iter, convergence_threshold))
}

/// Runs on the colours of `rgb_slice` from those at `seeds`, of a request
/// that was checked, and turns the centroids into bytes.
fn quantize_from<S: Scalar>(
    rgb_slice: &[u8],
    seeds: &[usize],
    max_iter: usize,
    convergence_threshold: Option<S>,
) -> (bytes: Vec<u8>)
    requires
        seeds@.len() >= 2,
        valid_seeds(seeds@, rgb_slice@.len() / 3),
    ensures
        bytes@ == rgb_bytes(
            run(
                select(rgb_points::<S>(rgb_slice@), seeds@),
                rgb_points::<S>(rgb_slice@),
                max_iter as nat,
                threshold_of(convergence_threshold),
            ).centroids,
        ),
{
    let points: Vec<Vec<S>> = points_from_rgb(rgb_slice);
    assert(rows(points@).len() == rgb_slice@.len() / 3);
    let ghost start = select(rows(points@), seeds@);
    assert(uniform(start, 3)) by {
        assert forall|c: int| 0 <= c < start.len() implies (#[trigger] start[c]).len() == 3 by {
            assert(seeds@[c] < points@.len());
            assert(rgb_points::<S>(rgb_slice@)[seeds@[c] as int].len() == 3);
        }
    }
    let result = cluster_from(points.as_slice(), seeds, max_iter, convergence_threshold);
    assert(uniform(result@.centroids, 3));
    assert forall|c: int| 0 <= c < result.centroids@.len() implies (
    #[trigger] result.centroids@[c])@.len() >= 3 by {
        assert(result@.centroids[c].len() == 3);
    }
    rgb_from_centroids(result.centroids.as_slice())
}

/// Finds the k-means centroids of colours for colour quantisation, starting
/// from the colours at `seeds`; the number of seeds is the number of
/// clusters. `rgb_slice` holds the colours as triples of bytes; the result
/// holds the centroids in the same form, each coordinate cut down to a byte.
///
/// The request is checked first, see [`validate::rgb_rejection`]. Without
/// colours the result is empty. Seeds that do not name distinct colours are
/// turned down.
pub fn kmeans_rgb_seeded<S: Scalar>(
    rgb_slice: &[u8],
    seeds: &[usize],
    max_iter: usize,
    convergence_threshold: Option<S>,
) -> (r: Result<Vec<u8>, KmeansError>)
    ensures
        match rgb_rejection(
            rgb_slice@.len(),
            seeds@.len() as usize,
            max_iter,
            convergence_threshold,
        ) {
            Some(e) => r is Err && r->Err_0 == e,
            None => if rgb_slice@.len() == 0 {
                r matches Ok(bytes) && bytes@.len() == 0
            } else if !valid_seeds(seeds@, rgb_slice@.len() / 3) {
                r is Err && r->Err_0 == KmeansError::InvalidSeeds
            } else {
                r matches Ok(bytes) && bytes@ == rgb_bytes(
                    run(
                        select(rgb_points::<S>(rgb_slice@), seeds@),
                        rgb_points::<S>(rgb_slice@),
                        max_iter as nat,
                        threshold_of(convergence_threshold),
                    ).centroids,
                )
            },
        },
{
    match check_rgb_request(rgb_slice.len(), seeds.len(), max_iter, convergence_threshold) {
        Some(e) => {
            return Err(e);
        },
        None => {},
    }
    if rgb_slice.len() == 0 {
        return Ok(Vec::new());
    }
    if !is_valid_seeding(seeds, rgb_slice.len() / 3) {
        return Err(KmeansError::InvalidSeeds);
    }
    Ok(quantize_from(rgb_slice, seeds, max_iter, convergence_threshold))
}

/// Finds the k-means centroids of colours for colour quantisation.
/// `rgb_slice` holds the colours as triples of bytes; the result holds the
/// `k` centroids in the same form, each coordinate cut down to a byte.
///
/// The request is checked first, see [`validate::rgb_rejection`]. Without
/// colours the result is empty. Otherwise `k` distinct colours are picked as
/// initial centroids, see [`seeding::draw_seeds`], and the result is that of
/// the run from them.
pub fn kmeans_rgb<S: Scalar>(
    rgb_slice: Vec<u8>,
    k: usize,
    max_iter: usize,
    convergence_threshold: Option<S>,
) -> (r: Result<Vec<u8>, KmeansError>)
    ensures
        match rgb_rejection(rgb_slice@.len(), k, max_iter, convergence_threshold) {
            Some(e) => r is Err && r->Err_0 == e,
            None => r matches Ok(bytes) && {
                &&& rgb_slice@.len() == 0 ==> bytes@.len() == 0
                &&& rgb_slice@.len() > 0 ==> exists|seeds: Seq<usize>|
                    seeds.len() == k && valid_seeds(seeds, rgb_slice@.len() / 3) && bytes@
                        == rgb_bytes(
                        run(
                            #[trigger] select(rgb_points::<S>(rgb_slice@), seeds),
                            rgb_points::<S>(rgb_slice@),
                            max_iter as nat,
                            threshold_of(convergence_threshold),
                        ).centroids,
                    )
            },
        },
{
    match check_rgb_request(rgb_slice.len(), k, max_iter, convergence_threshold) {
        Some(e) => {
            return Err(e);
        },
        None => {},
    }
    if rgb_slice.len() == 0 {
        return Ok(Vec::new());
    }
    let seeds = draw_seeds(rgb_slice.len() / 3, k);
    Ok(quantize_from(rgb_slice.as_slice(), seeds.as_slice(), max_iter, convergence_threshold))
}

} // verus!
