use vstd::prelude::*;
use crate::aggregates::{adds_like_reals, lemma_centroids_are_means_of_their_points};
use crate::bounds::{cluster_sum_upto, members, uniform, BoundModel};
use crate::laws::after_iterations;
use crate::scalar::Scalar;
use crate::soundness::{
    distance_is_metric, halves_like_reals, lemma_every_iteration_assigns_to_nearest,
    ordered_like_reals, point_is_with_nearest, searches_in_reach,
};
use crate::update::mean;

verus! {

/// Whether going from the centroids `before` to `state` and the centroids
/// `after` is a step of Lloyd's algorithm: every point is with a centroid
/// nearest to it among those `before`, and each centroid `after` is the mean
/// of the points that are with it, their sum in the order of the points over
/// their number.
pub open spec fn is_lloyd_step<S: Scalar>(
    before: Seq<Seq<S>>,
    state: BoundModel<S>,
    after: Seq<Seq<S>>,
    points: Seq<Seq<S>>,
    d: nat,
) -> bool {
    &&& forall|i: int|
        0 <= i < points.len() ==> #[trigger] point_is_with_nearest(state, before, points, i)
    &&& after.len() == before.len()
    &&& forall|j: int|
        0 <= j < before.len() ==> #[trigger] after[j] == mean(
            cluster_sum_upto(points, state.assignment, j, d, points.len()),
            members(state.assignment, j) as usize,
        )
}

/// Equivalence with the unaccelerated algorithm: where the scalars behave
/// like real numbers and every search had every centroid in reach, every
/// iteration of a run is a step of Lloyd's algorithm from the centroids it
/// began with. The runs differ at most in which of equally near centroids a
/// point is with.
pub proof fn lemma_every_iteration_is_a_lloyd_step<S: Scalar>(
    centroids: Seq<Seq<S>>,
    points: Seq<Seq<S>>,
    d: nat,
    t: nat,
)
    requires
        ordered_like_reals::<S>(),
        halves_like_reals::<S>(),
        adds_like_reals::<S>(),
        distance_is_metric::<S>(d),
        2 <= centroids.len() <= usize::MAX,
        points.len() <= usize::MAX,
        uniform(centroids, d),
        uniform(points, d),
        searches_in_reach(centroids, points, t + 1),
    ensures
        is_lloyd_step(
            after_iterations(centroids, points, t).0,
            after_iterations(centroids, points, t + 1).1,
            after_iterations(centroids, points, t + 1).0,
            points,
            d,
        ),
{
    lemma_every_iteration_assigns_to_nearest(centroids, points, d, t);
    crate::laws::lemma_after_iterations_wf(centroids, points, t);
    crate::laws::lemma_after_iterations_wf(centroids, points, t + 1);
    assert(centroids[0].len() == d);
    let after = after_iterations(centroids, points, t + 1);
    assert forall|j: int| 0 <= j < centroids.len() implies #[trigger] after.0[j] == mean(
        cluster_sum_upto(points, after.1.assignment, j, d, points.len()),
        members(after.1.assignment, j) as usize,
    ) by {
        lemma_centroids_are_means_of_their_points(centroids, points, d, t + 1, j);
    }
}

/// At a fixed point no reassignment was missed: where an iteration leaves
/// the centroids where they were, every point is with a centroid nearest to
/// it among the centroids that the run then has.
pub proof fn lemma_fixed_point_is_nearest<S: Scalar>(
    centroids: Seq<Seq<S>>,
    points: Seq<Seq<S>>,
    d: nat,
    t: nat,
)
    requires
        ordered_like_reals::<S>(),
        halves_like_reals::<S>(),
        distance_is_metric::<S>(d),
        2 <= centroids.len() <= usize::MAX,
        points.len() <= usize::MAX,
        uniform(centroids, d),
        uniform(points, d),
        searches_in_reach(centroids, points, t + 1),
        after_iterations(centroids, points, t + 1).0 == after_iterations(centroids, points, t).0,
    ensures
        forall|i: int|
            0 <= i < points.len() ==> #[trigger] point_is_with_nearest(
                after_iterations(centroids, points, t + 1).1,
                after_iterations(centroids, points, t + 1).0,
                points,
                i,
            ),
{
    lemma_every_iteration_assigns_to_nearest(centroids, points, d, t);
}

} // verus!
