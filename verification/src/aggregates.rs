use vstd::prelude::*;
use crate::assignment::{
    assign_point, assign_points, assign_points_upto, lemma_assign_point_wf,
    lemma_assign_points_upto_wf, sibling_distances,
};
use crate::bounds::{
    cluster_sum_upto, lemma_cluster_sum_upto_len, members, uniform, vec_minus, vec_plus,
    BoundModel,
};
use crate::kmeans_triangle::iterate;
use crate::laws::{after_iterations, lemma_after_iterations_wf};
use crate::nearest::{lemma_nearest_upto_in_range, nearest};
use crate::scalar::Scalar;
use crate::update::{mean, means};

verus! {

/// Whether sums and differences of scalars can be reordered as with real
/// numbers: taking away what was added gives back the scalar, and what is
/// added or taken away after an addition can as well come before it.
pub open spec fn adds_like_reals<S: Scalar>() -> bool {
    &&& forall|a: S, b: S| #[trigger] a.plus_spec(b).minus_spec(b) == a
    &&& forall|a: S, b: S, c: S|
        #[trigger] a.plus_spec(b).plus_spec(c) == a.plus_spec(c).plus_spec(b)
    &&& forall|a: S, b: S, c: S|
        #[trigger] a.minus_spec(b).plus_spec(c) == a.plus_spec(c).minus_spec(b)
}

/// Whether each aggregate sum of `state` is what a scan of the points gives:
/// the sum of the points assigned to the centroid, added in their order.
pub open spec fn sums_are_scans<S: Scalar>(
    state: BoundModel<S>,
    points: Seq<Seq<S>>,
    d: nat,
) -> bool {
    forall|j: int|
        0 <= j < state.sums.len() ==> #[trigger] state.sums[j] == cluster_sum_upto(
            points,
            state.assignment,
            j,
            d,
            points.len(),
        )
}

proof fn lemma_scan_without<S: Scalar>(
    points: Seq<Seq<S>>,
    assignment: Seq<usize>,
    i: int,
    to: usize,
    d: nat,
    m: nat,
)
    requires
        adds_like_reals::<S>(),
        uniform(points, d),
        assignment.len() == points.len(),
        0 <= i < m <= points.len(),
        to != assignment[i],
    ensures
        cluster_sum_upto(points, assignment.update(i, to), assignment[i] as int, d, m)
            == vec_minus(
            cluster_sum_upto(points, assignment, assignment[i] as int, d, m),
            points[i],
        ),
    decreases m,
{
    let from = assignment[i] as int;
    let moved = assignment.update(i, to);
    let old_before = cluster_sum_upto(points, assignment, from, d, (m - 1) as nat);
    let new_before = cluster_sum_upto(points, moved, from, d, (m - 1) as nat);
    lemma_cluster_sum_upto_len(points, assignment, from, d, (m - 1) as nat);
    assert(points[i].len() == d);
    assert(points[m - 1].len() == d);
    if m - 1 == i {
        crate::bounds::lemma_cluster_sum_upto_prefix(
            points,
            assignment,
            moved,
            from,
            d,
            (m - 1) as nat,
        );
        assert(vec_minus(vec_plus(old_before, points[i]), points[i]) =~= old_before);
    } else {
        lemma_scan_without(points, assignment, i, to, d, (m - 1) as nat);
        if assignment[m - 1] == from {
            assert(vec_plus(vec_minus(old_before, points[i]), points[m - 1]) =~= vec_minus(
                vec_plus(old_before, points[m - 1]),
                points[i],
            ));
        }
    }
}

proof fn lemma_scan_with<S: Scalar>(
    points: Seq<Seq<S>>,
    assignment: Seq<usize>,
    i: int,
    to: usize,
    d: nat,
    m: nat,
)
    requires
        adds_like_reals::<S>(),
        uniform(points, d),
        assignment.len() == points.len(),
        0 <= i < m <= points.len(),
        to != assignment[i],
    ensures
        cluster_sum_upto(points, assignment.update(i, to), to as int, d, m) == vec_plus(
            cluster_sum_upto(points, assignment, to as int, d, m),
            points[i],
        ),
    decreases m,
{
    let moved = assignment.update(i, to);
    let old_before = cluster_sum_upto(points, assignment, to as int, d, (m - 1) as nat);
    lemma_cluster_sum_upto_len(points, assignment, to as int, d, (m - 1) as nat);
    assert(points[i].len() == d);
    assert(points[m - 1].len() == d);
    if m - 1 == i {
        crate::bounds::lemma_cluster_sum_upto_prefix(
            points,
            assignment,
            moved,
            to as int,
            d,
            (m - 1) as nat,
        );
    } else {
        lemma_scan_with(points, assignment, i, to, d, (m - 1) as nat);
        if assignment[m - 1] == to {
            assert(vec_plus(vec_plus(old_before, points[i]), points[m - 1]) =~= vec_plus(
                vec_plus(old_before, points[m - 1]),
                points[i],
            ));
        }
    }
}

proof fn lemma_scan_of_another<S: Scalar>(
    points: Seq<Seq<S>>,
    assignment: Seq<usize>,
    i: int,
    to: usize,
    j: int,
    d: nat,
    m: nat,
)
    requires
        assignment.len() == points.len(),
        0 <= i < points.len(),
        m <= points.len(),
        j != assignment[i],
        j != to,
    ensures
        cluster_sum_upto(points, assignment.update(i, to), j, d, m) == cluster_sum_upto(
            points,
            assignment,
            j,
            d,
            m,
        ),
    decreases m,
{
    if m > 0 {
        lemma_scan_of_another(points, assignment, i, to, j, d, (m - 1) as nat);
    }
}

/// The assignment step keeps the aggregate sums equal to what a scan gives,
/// whatever it does to point `i`.
pub proof fn lemma_assign_point_keeps_scans<S: Scalar>(
    state: BoundModel<S>,
    centroids: Seq<Seq<S>>,
    sibling: Seq<S>,
    points: Seq<Seq<S>>,
    i: int,
    d: nat,
)
    requires
        adds_like_reals::<S>(),
        centroids.len() > 0,
        uniform(points, d),
        state.wf(centroids.len(), points.len(), d),
        0 <= i < points.len(),
        sums_are_scans(state, points, d),
    ensures
        sums_are_scans(assign_point(state, centroids, sibling, points[i], i), points, d),
{
    let after = assign_point(state, centroids, sibling, points[i], i);
    let own = state.assignment[i] as int;
    let found = nearest(points[i], centroids);
    lemma_nearest_upto_in_range(points[i], centroids, -1, centroids.len());
    lemma_assign_point_wf(state, centroids, sibling, points[i], i, points.len(), d);
    assert forall|j: int| 0 <= j < after.sums.len() implies #[trigger] after.sums[j]
        == cluster_sum_upto(points, after.assignment, j, d, points.len()) by {
        assert(state.sums[j] == cluster_sum_upto(points, state.assignment, j, d, points.len()));
        if after.assignment == state.assignment {
        } else if found.0 == own {
            assert(after.assignment =~= state.assignment);
        } else {
            let to = found.0 as usize;
            assert(after.assignment == state.assignment.update(i, to));
            assert(state.sums[own] == cluster_sum_upto(
                points,
                state.assignment,
                own,
                d,
                points.len(),
            ));
            assert(state.sums[to as int] == cluster_sum_upto(
                points,
                state.assignment,
                to as int,
                d,
                points.len(),
            ));
            if j == own {
                lemma_scan_without(points, state.assignment, i, to, d, points.len());
            } else if j == to {
                lemma_scan_with(points, state.assignment, i, to, d, points.len());
            } else {
                lemma_scan_of_another(points, state.assignment, i, to, j, d, points.len());
            }
        }
    }
}

proof fn lemma_assign_points_upto_keeps_scans<S: Scalar>(
    state: BoundModel<S>,
    centroids: Seq<Seq<S>>,
    sibling: Seq<S>,
    points: Seq<Seq<S>>,
    m: nat,
    d: nat,
)
    requires
        adds_like_reals::<S>(),
        centroids.len() > 0,
        uniform(points, d),
        state.wf(centroids.len(), points.len(), d),
        m <= points.len(),
        sums_are_scans(state, points, d),
    ensures
        sums_are_scans(assign_points_upto(state, centroids, sibling, points, m), points, d),
    decreases m,
{
    if m > 0 {
        lemma_assign_points_upto_keeps_scans(
            state,
            centroids,
            sibling,
            points,
            (m - 1) as nat,
            d,
        );
        lemma_assign_points_upto_wf(
            state,
            centroids,
            sibling,
            points,
            (m - 1) as nat,
            points.len(),
            d,
        );
        lemma_assign_point_keeps_scans(
            assign_points_upto(state, centroids, sibling, points, (m - 1) as nat),
            centroids,
            sibling,
            points,
            m - 1,
            d,
        );
    }
}

/// The aggregates are what a full scan gives: where sums of scalars can be
/// reordered as with real numbers, then at the end of every iteration of a
/// run, and after the first full search, the sum of each centroid is the sum
/// of the points assigned to it, though it was kept by adding and taking
/// away the points that moved.
pub proof fn lemma_sums_are_scans<S: Scalar>(
    centroids: Seq<Seq<S>>,
    points: Seq<Seq<S>>,
    d: nat,
    t: nat,
)
    requires
        adds_like_reals::<S>(),
        0 < centroids.len() <= usize::MAX,
        points.len() <= usize::MAX,
        centroids[0].len() == d,
        uniform(points, d),
    ensures
        sums_are_scans(after_iterations(centroids, points, t).1, points, d),
    decreases t,
{
    if t > 0 {
        lemma_sums_are_scans(centroids, points, d, (t - 1) as nat);
        lemma_after_iterations_wf(centroids, points, (t - 1) as nat);
        let before = after_iterations(centroids, points, (t - 1) as nat);
        lemma_assign_points_upto_keeps_scans(
            before.1,
            before.0,
            sibling_distances(before.0),
            points,
            points.len(),
            d,
        );
        let assigned = assign_points(before.1, before.0, points);
        let after = after_iterations(centroids, points, t).1;
        assert(after.sums == assigned.sums);
        assert(after.assignment == assigned.assignment);
        assert forall|j: int| 0 <= j < after.sums.len() implies #[trigger] after.sums[j]
            == cluster_sum_upto(points, after.assignment, j, d, points.len()) by {
            assert(assigned.sums[j] == cluster_sum_upto(
                points,
                assigned.assignment,
                j,
                d,
                points.len(),
            ));
        }
    }
}

/// The update step gives what a full recomputation gives: where sums of
/// scalars can be reordered as with real numbers, each centroid at the end
/// of an iteration is the mean of the points assigned to it in that
/// iteration, their sum in the order of the points over their number.
pub proof fn lemma_centroids_are_means_of_their_points<S: Scalar>(
    centroids: Seq<Seq<S>>,
    points: Seq<Seq<S>>,
    d: nat,
    t: nat,
    j: int,
)
    requires
        adds_like_reals::<S>(),
        0 < centroids.len() <= usize::MAX,
        points.len() <= usize::MAX,
        centroids[0].len() == d,
        uniform(points, d),
        t > 0,
        0 <= j < centroids.len(),
    ensures
        after_iterations(centroids, points, t).0[j] == mean(
            cluster_sum_upto(
                points,
                after_iterations(centroids, points, t).1.assignment,
                j,
                d,
                points.len(),
            ),
            members(after_iterations(centroids, points, t).1.assignment, j) as usize,
        ),
{
    lemma_sums_are_scans(centroids, points, d, t);
    lemma_after_iterations_wf(centroids, points, t);
    lemma_after_iterations_wf(centroids, points, (t - 1) as nat);
    let before = after_iterations(centroids, points, (t - 1) as nat);
    let after = after_iterations(centroids, points, t);
    let step = iterate(before.0, before.1, points);
    assert(after.0 == step.0);
    assert(after.1.sums == step.1.sums);
    assert(after.1.counts == step.1.counts);
    assert(step.0 == means(step.1.sums, step.1.counts));
    assert(after.1.sums[j] == cluster_sum_upto(
        points,
        after.1.assignment,
        j,
        d,
        points.len(),
    ));
    assert(after.1.counts[j] == members(after.1.assignment, j));
}

} // verus!
