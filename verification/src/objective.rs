use vstd::prelude::*;
use crate::bounds::{uniform, BoundModel};
use crate::distance::{distance, squared_distance};
use crate::laws::{after_iterations, lemma_after_iterations_wf};
use crate::scalar::Scalar;
use crate::soundness::{
    distance_is_metric, halves_like_reals, le, lemma_every_iteration_assigns_to_nearest,
    ordered_like_reals, point_is_with_nearest, searches_in_reach,
};

verus! {

/// The sum of the squared distances of the first `m` points to the centroids
/// that `assignment` gives them, added to zero in the order of the points.
pub open spec fn objective_upto<S: Scalar>(
    points: Seq<Seq<S>>,
    centroids: Seq<Seq<S>>,
    assignment: Seq<usize>,
    m: nat,
) -> S
    decreases m,
{
    if m == 0 {
        S::zero_spec()
    } else {
        objective_upto(points, centroids, assignment, (m - 1) as nat).plus_spec(
            squared_distance(points[m - 1], centroids[assignment[m - 1] as int]),
        )
    }
}

/// The objective of k-means: the total within-cluster sum of squared
/// distances.
pub open spec fn objective<S: Scalar>(
    points: Seq<Seq<S>>,
    centroids: Seq<Seq<S>>,
    assignment: Seq<usize>,
) -> S {
    objective_upto(points, centroids, assignment, points.len())
}

/// Whether sums and squares keep the order as with real numbers: the sum of
/// the smaller scalars is at most the sum of the larger ones, and the
/// shorter of two distances has the smaller square.
pub open spec fn sums_keep_order<S: Scalar>() -> bool {
    &&& forall|a: S, b: S, c: S, e: S|
        #![trigger a.plus_spec(c), b.plus_spec(e)]
        le(a, b) && le(c, e) ==> le(a.plus_spec(c), b.plus_spec(e))
    &&& forall|x: Seq<S>, y: Seq<S>, v: Seq<S>, w: Seq<S>|
        #![trigger distance(x, y), distance(v, w)]
        le(distance(x, y), distance(v, w)) ==> le(squared_distance(x, y), squared_distance(v, w))
}

proof fn lemma_nearest_is_least_upto<S: Scalar>(
    points: Seq<Seq<S>>,
    centroids: Seq<Seq<S>>,
    state: BoundModel<S>,
    other: Seq<usize>,
    m: nat,
)
    requires
        ordered_like_reals::<S>(),
        sums_keep_order::<S>(),
        m <= points.len(),
        forall|i: int|
            0 <= i < points.len() ==> #[trigger] point_is_with_nearest(
                state,
                centroids,
                points,
                i,
            ),
        other.len() == points.len(),
        forall|i: int| 0 <= i < points.len() ==> (#[trigger] other[i]) < centroids.len(),
    ensures
        le(
            objective_upto(points, centroids, state.assignment, m),
            objective_upto(points, centroids, other, m),
        ),
    decreases m,
{
    if m == 0 {
        assert(!S::zero_spec().lt_spec(S::zero_spec()));
    } else {
        lemma_nearest_is_least_upto(points, centroids, state, other, (m - 1) as nat);
        let i = m - 1;
        assert(point_is_with_nearest(state, centroids, points, i));
        let own = centroids[state.assignment[i] as int];
        let rival = centroids[other[i] as int];
        assert(other[i] < centroids.len());
        assert(le(distance(points[i], own), distance(points[i], rival)));
        assert(le(squared_distance(points[i], own), squared_distance(points[i], rival)));
        let least_before = objective_upto(points, centroids, state.assignment, (m - 1) as nat);
        let other_before = objective_upto(points, centroids, other, (m - 1) as nat);
        assert(le(
            least_before.plus_spec(squared_distance(points[i], own)),
            other_before.plus_spec(squared_distance(points[i], rival)),
        ));
    }
}

/// Points that are each with a nearest centroid have the least objective
/// that any assignment has under these centroids, where the scalars behave
/// like real numbers.
pub proof fn lemma_nearest_is_least<S: Scalar>(
    points: Seq<Seq<S>>,
    centroids: Seq<Seq<S>>,
    state: BoundModel<S>,
    other: Seq<usize>,
)
    requires
        ordered_like_reals::<S>(),
        sums_keep_order::<S>(),
        forall|i: int|
            0 <= i < points.len() ==> #[trigger] point_is_with_nearest(
                state,
                centroids,
                points,
                i,
            ),
        other.len() == points.len(),
        forall|i: int| 0 <= i < points.len() ==> (#[trigger] other[i]) < centroids.len(),
    ensures
        le(objective(points, centroids, state.assignment), objective(points, centroids, other)),
{
    lemma_nearest_is_least_upto(points, centroids, state, other, points.len());
}

/// The assignment step does not raise the objective: where the scalars
/// behave like real numbers and every search had every centroid in reach,
/// the objective of the assignment that an iteration makes is, under the
/// centroids that the iteration began with, at most that of the assignment
/// it began with.
pub proof fn lemma_assignment_step_does_not_raise_objective<S: Scalar>(
    centroids: Seq<Seq<S>>,
    points: Seq<Seq<S>>,
    d: nat,
    t: nat,
)
    requires
        ordered_like_reals::<S>(),
        halves_like_reals::<S>(),
        sums_keep_order::<S>(),
        distance_is_metric::<S>(d),
        2 <= centroids.len() <= usize::MAX,
        points.len() <= usize::MAX,
        uniform(centroids, d),
        uniform(points, d),
        searches_in_reach(centroids, points, t + 1),
    ensures
        le(
            objective(
                points,
                after_iterations(centroids, points, t).0,
                after_iterations(centroids, points, t + 1).1.assignment,
            ),
            objective(
                points,
                after_iterations(centroids, points, t).0,
                after_iterations(centroids, points, t).1.assignment,
            ),
        ),
{
    lemma_every_iteration_assigns_to_nearest(centroids, points, d, t);
    lemma_after_iterations_wf(centroids, points, t);
    let before = after_iterations(centroids, points, t);
    let after = after_iterations(centroids, points, t + 1);
    lemma_nearest_is_least(points, before.0, after.1, before.1.assignment);
}

} // verus!
