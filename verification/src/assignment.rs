use vstd::prelude::*;
use crate::bounds::{
    add_point, members, members_upto, subtract_point, total_count, total_count_upto, vec_minus,
    vec_plus, BoundModel, BoundState,
};
use crate::distance::{distance, get_distance};
use crate::nearest::{
    get_min_centroid_skip_point_centroid, lemma_nearest_upto_in_range, nearest, nearest_except,
    point_all_centers, rows,
};
use crate::scalar::Scalar;

verus! {

/// For each centroid, the distance to the nearest of the other centroids.
pub open spec fn sibling_distances<S: Scalar>(centroids: Seq<Seq<S>>) -> Seq<S> {
    Seq::new(centroids.len(), |j: int| nearest_except(centroids[j], centroids, j).1)
}

/// The distance below which a point provably keeps its centroid: the larger
/// of half the centroid's distance to its nearest sibling and the point's
/// lower bound.
pub open spec fn pruning_limit<S: Scalar>(sibling: S, lower: S) -> S {
    sibling.over_spec(S::from_u8_spec(2)).larger_spec(lower)
}

/// `state` after `point` has left the aggregate of centroid `from` and joined
/// that of centroid `to`.
pub open spec fn move_point<S: Scalar>(
    state: BoundModel<S>,
    point: Seq<S>,
    from: int,
    to: int,
) -> BoundModel<S> {
    BoundModel {
        counts: state.counts.update(from, (state.counts[from] - 1) as usize).update(
            to,
            (state.counts[to] + 1) as usize,
        ),
        sums: state.sums.update(from, vec_minus(state.sums[from], point)).update(
            to,
            vec_plus(state.sums[to], point),
        ),
        ..state
    }
}

/// `state` after the assignment step has looked at point `i`.
///
/// Where the upper bound is at most the pruning limit, nothing changes. Else
/// the upper bound becomes the exact distance to the point's centroid; where
/// that is still above the limit, all centroids are searched, which gives the
/// point a centroid and both bounds anew, and where the centroid changed the
/// point moves from the old aggregate to the new one.
pub open spec fn assign_point<S: Scalar>(
    state: BoundModel<S>,
    centroids: Seq<Seq<S>>,
    sibling: Seq<S>,
    point: Seq<S>,
    i: int,
) -> BoundModel<S> {
    let own = state.assignment[i] as int;
    let limit = pruning_limit(sibling[own], state.lower[i]);
    if !limit.lt_spec(state.upper[i]) {
        state
    } else {
        let tightened = distance(point, centroids[own]);
        if !limit.lt_spec(tightened) {
            BoundModel { upper: state.upper.update(i, tightened), ..state }
        } else {
            let found = nearest(point, centroids);
            let second = nearest_except(point, centroids, found.0);
            let searched = BoundModel {
                upper: state.upper.update(i, found.1),
                lower: state.lower.update(i, second.1),
                assignment: state.assignment.update(i, found.0 as usize),
                ..state
            };
            if found.0 == own {
                searched
            } else {
                move_point(searched, point, own, found.0)
            }
        }
    }
}

/// `state` after the assignment step has looked at the first `n` points, in
/// their order.
pub open spec fn assign_points_upto<S: Scalar>(
    state: BoundModel<S>,
    centroids: Seq<Seq<S>>,
    sibling: Seq<S>,
    points: Seq<Seq<S>>,
    n: nat,
) -> BoundModel<S>
    decreases n,
{
    if n == 0 {
        state
    } else {
        assign_point(
            assign_points_upto(state, centroids, sibling, points, (n - 1) as nat),
            centroids,
            sibling,
            points[n - 1],
            n - 1,
        )
    }
}

/// `state` after one whole assignment step under `centroids`.
pub open spec fn assign_points<S: Scalar>(
    state: BoundModel<S>,
    centroids: Seq<Seq<S>>,
    points: Seq<Seq<S>>,
) -> BoundModel<S> {
    assign_points_upto(state, centroids, sibling_distances(centroids), points, points.len())
}

/// Giving point `i` another centroid takes one from the count of the old
/// centroid and adds one to the count of the new one.
pub proof fn lemma_members_upto_update(
    assignment: Seq<usize>,
    i: int,
    to: usize,
    j: int,
    n: nat,
)
    requires
        0 <= i < assignment.len(),
        n <= assignment.len(),
    ensures
        members_upto(assignment.update(i, to), j, n) == members_upto(assignment, j, n) - (if i < n
            && assignment[i] == j {
            1int
        } else {
            0int
        }) + (if i < n && to == j {
            1int
        } else {
            0int
        }),
    decreases n,
{
    if n > 0 {
        lemma_members_upto_update(assignment, i, to, j, (n - 1) as nat);
    }
}

/// A centroid that some point among the first `n` is assigned to has a count
/// of at least one.
pub proof fn lemma_members_upto_positive(assignment: Seq<usize>, i: int, n: nat)
    requires
        0 <= i < n,
    ensures
        members_upto(assignment, assignment[i] as int, n) >= 1,
    decreases n,
{
    if n - 1 > i {
        lemma_members_upto_positive(assignment, i, (n - 1) as nat);
    }
}

/// Two different centroids share the points between them.
pub proof fn lemma_members_upto_disjoint(assignment: Seq<usize>, a: int, b: int, n: nat)
    requires
        a != b,
    ensures
        members_upto(assignment, a, n) + members_upto(assignment, b, n) <= n,
    decreases n,
{
    if n > 0 {
        lemma_members_upto_disjoint(assignment, a, b, (n - 1) as nat);
    }
}

/// The number of pairs of a centroid below `k` and a point below `n` assigned
/// to it.
pub open spec fn members_below(assignment: Seq<usize>, k: nat, n: nat) -> nat
    decreases k,
{
    if k == 0 {
        0
    } else {
        members_below(assignment, (k - 1) as nat, n) + members_upto(assignment, k - 1, n)
    }
}

proof fn lemma_members_below_step(assignment: Seq<usize>, k: nat, n: nat)
    requires
        n > 0,
    ensures
        members_below(assignment, k, n) == members_below(assignment, k, (n - 1) as nat) + (if
            assignment[n - 1] < k {
            1nat
        } else {
            0nat
        }),
    decreases k,
{
    if k > 0 {
        lemma_members_below_step(assignment, (k - 1) as nat, n);
    }
}

proof fn lemma_members_below_none(assignment: Seq<usize>, k: nat)
    ensures
        members_below(assignment, k, 0) == 0,
    decreases k,
{
    if k > 0 {
        lemma_members_below_none(assignment, (k - 1) as nat);
    }
}

proof fn lemma_members_below_all(assignment: Seq<usize>, k: nat, n: nat)
    requires
        n <= assignment.len(),
        forall|i: int| 0 <= i < n ==> (#[trigger] assignment[i]) < k,
    ensures
        members_below(assignment, k, n) == n,
    decreases n,
{
    if n > 0 {
        lemma_members_below_all(assignment, k, (n - 1) as nat);
        lemma_members_below_step(assignment, k, n);
        assert(assignment[n - 1] < k);
    } else {
        lemma_members_below_none(assignment, k);
    }
}

proof fn lemma_total_count_is_members_below(counts: Seq<usize>, assignment: Seq<usize>, k: nat)
    requires
        k <= counts.len(),
        forall|j: int| 0 <= j < k ==> (#[trigger] counts[j]) == members(assignment, j),
    ensures
        total_count_upto(counts, k) == members_below(assignment, k, assignment.len()),
    decreases k,
{
    if k > 0 {
        lemma_total_count_is_members_below(counts, assignment, (k - 1) as nat);
    }
}

/// Conservation: in a well-formed bound state the counts of the centroids
/// add up to the number of points.
pub proof fn lemma_conservation<S>(state: BoundModel<S>, k: nat, n: nat, d: nat)
    requires
        state.wf(k, n, d),
    ensures
        total_count(state.counts) == n,
{
    lemma_total_count_is_members_below(state.counts, state.assignment, k);
    lemma_members_below_all(state.assignment, k, n);
}

/// Moving a point between two aggregates keeps the state well-formed.
pub proof fn lemma_move_point_wf<S: Scalar>(
    state: BoundModel<S>,
    point: Seq<S>,
    i: int,
    to: usize,
    k: nat,
    n: nat,
    d: nat,
)
    requires
        state.wf(k, n, d),
        0 <= i < n,
        to < k,
        to != state.assignment[i],
    ensures
        move_point(
            BoundModel { assignment: state.assignment.update(i, to), ..state },
            point,
            state.assignment[i] as int,
            to as int,
        ).wf(k, n, d),
        1 <= state.counts[state.assignment[i] as int],
        state.counts[to as int] < n,
{
    let from = state.assignment[i] as int;
    let moved = move_point(
        BoundModel { assignment: state.assignment.update(i, to), ..state },
        point,
        from,
        to as int,
    );
    lemma_members_upto_positive(state.assignment, i, n);
    lemma_members_upto_disjoint(state.assignment, from, to as int, n);
    assert(state.counts[from] == members(state.assignment, from));
    assert(state.counts[to as int] == members(state.assignment, to as int));
    assert forall|j: int| 0 <= j < k implies (#[trigger] moved.counts[j]) == members(
        moved.assignment,
        j,
    ) by {
        lemma_members_upto_update(state.assignment, i, to, j, n);
        assert(state.counts[j] == members(state.assignment, j));
    }
    assert forall|j: int| 0 <= j < k implies (#[trigger] moved.sums[j]).len() == d by {
        assert(state.sums[j].len() == d);
    }
}

/// The assignment step keeps the state well-formed, whatever it does to a
/// point.
pub proof fn lemma_assign_point_wf<S: Scalar>(
    state: BoundModel<S>,
    centroids: Seq<Seq<S>>,
    sibling: Seq<S>,
    point: Seq<S>,
    i: int,
    n: nat,
    d: nat,
)
    requires
        centroids.len() > 0,
        state.wf(centroids.len(), n, d),
        0 <= i < n,
    ensures
        assign_point(state, centroids, sibling, point, i).wf(centroids.len(), n, d),
{
    let k = centroids.len();
    let own = state.assignment[i] as int;
    let found = nearest(point, centroids);
    lemma_nearest_upto_in_range(point, centroids, -1, k);
    let searched = BoundModel {
        upper: state.upper.update(i, found.1),
        lower: state.lower.update(
            i,
            nearest_except(point, centroids, found.0).1,
        ),
        assignment: state.assignment.update(i, found.0 as usize),
        ..state
    };
    if found.0 == own {
        assert(searched.assignment =~= state.assignment);
    } else {
        lemma_move_point_wf(state, point, i, found.0 as usize, k, n, d);
        let reassigned = BoundModel {
            assignment: state.assignment.update(i, found.0 as usize),
            ..state
        };
        assert(move_point(searched, point, own, found.0).counts == move_point(
            reassigned,
            point,
            own,
            found.0,
        ).counts);
    }
}

/// The assignment step keeps the state well-formed after any number of
/// points.
pub proof fn lemma_assign_points_upto_wf<S: Scalar>(
    state: BoundModel<S>,
    centroids: Seq<Seq<S>>,
    sibling: Seq<S>,
    points: Seq<Seq<S>>,
    m: nat,
    n: nat,
    d: nat,
)
    requires
        centroids.len() > 0,
        state.wf(centroids.len(), n, d),
        m <= n,
    ensures
        assign_points_upto(state, centroids, sibling, points, m).wf(centroids.len(), n, d),
    decreases m,
{
    if m > 0 {
        lemma_assign_points_upto_wf(state, centroids, sibling, points, (m - 1) as nat, n, d);
        lemma_assign_point_wf(
            assign_points_upto(state, centroids, sibling, points, (m - 1) as nat),
            centroids,
            sibling,
            points[m - 1],
            m - 1,
            n,
            d,
        );
    }
}

/// Measures, for each centroid, the distance to the nearest of the other
/// centroids.
pub fn closest_centroid_distances<S: Scalar>(centroids: &[Vec<S>]) -> (sibling: Vec<S>)
    ensures
        sibling@ == sibling_distances(rows(centroids@)),
{
    let ghost cs = rows(centroids@);
    let mut sibling: Vec<S> = Vec::new();
    let mut j: usize = 0;
    while j < centroids.len()
        invariant
            j <= centroids.len(),
            cs == rows(centroids@),
            sibling@.len() == j,
            forall|c: int| 0 <= c < j ==> sibling@[c] == sibling_distances(cs)[c],
        decreases centroids.len() - j,
    {
        let found = get_min_centroid_skip_point_centroid(centroids[j].as_slice(), centroids, j);
        assert(cs[j as int] == centroids@[j as int]@);
        sibling.push(found.1);
        j += 1;
    }
    assert(sibling@ =~= sibling_distances(cs));
    sibling
}

/// Runs the assignment step on point `i`: prunes it, tightens its upper
/// bound, or searches all centroids and moves it to the one found.
fn assign_one<S: Scalar>(
    centroids: &[Vec<S>],
    sibling: &[S],
    point: &[S],
    i: usize,
    state: &mut BoundState<S>,
)
    requires
        centroids@.len() > 0,
        sibling@.len() == centroids@.len(),
        i < old(state)@.assignment.len(),
        exists|d: nat| old(state)@.wf(centroids@.len(), old(state)@.assignment.len(), d),
    ensures
        final(state)@ == assign_point(old(state)@, rows(centroids@), sibling@, point@, i as int),
{
    let ghost before = state@;
    let ghost cs = rows(centroids@);
    let ghost n = before.assignment.len();
    let ghost d = choose|d: nat| before.wf(centroids@.len(), n, d);
    let own = state.point_centroids[i];
    assert(own == before.assignment[i as int]);
    let limit = sibling[own].over(S::from_u8(2)).larger(state.lower_bounds[i]);
    if limit.lt(state.upper_bounds[i]) {
        let tightened = get_distance(point, centroids[own].as_slice());
        assert(cs[own as int] == centroids@[own as int]@);
        state.upper_bounds[i] = tightened;
        if limit.lt(tightened) {
            let mut upper_bound = tightened;
            let mut lower_bound = state.lower_bounds[i];
            let mut point_centroid = own;
            point_all_centers(
                point,
                centroids,
                &mut upper_bound,
                &mut lower_bound,
                &mut point_centroid,
            );
            state.upper_bounds[i] = upper_bound;
            state.lower_bounds[i] = lower_bound;
            state.point_centroids[i] = point_centroid;
            if own != point_centroid {
                proof {
                    lemma_move_point_wf(before, point@, i as int, point_centroid, cs.len(), n, d);
                }
                state.centroid_points_counts[own] = state.centroid_points_counts[own] - 1;
                subtract_point(&mut state.centroid_points_sum, own, point);
                add_point(&mut state.centroid_points_sum, point_centroid, point);
                state.centroid_points_counts[point_centroid] =
                    state.centroid_points_counts[point_centroid] + 1;
            }
            assert(state@.counts =~= assign_point(before, cs, sibling@, point@, i as int).counts);
            assert(state@.sums =~= assign_point(before, cs, sibling@, point@, i as int).sums);
            assert(state@.upper =~= assign_point(before, cs, sibling@, point@, i as int).upper);
            assert(state@.lower =~= assign_point(before, cs, sibling@, point@, i as int).lower);
            assert(state@.assignment =~= assign_point(
                before,
                cs,
                sibling@,
                point@,
                i as int,
            ).assignment);
        }
    }
}

/// Runs one assignment step: measures how far each centroid is from its
/// nearest sibling, then takes the points in their order. A point whose upper
/// bound is within the pruning limit is left alone; of the others the upper
/// bound is made exact, and where that does not settle it all centroids are
/// searched and the point moves to the nearest.
pub fn assignment_step<S: Scalar>(
    centroids: &[Vec<S>],
    points: &[Vec<S>],
    state: &mut BoundState<S>,
)
    requires
        centroids@.len() > 0,
        old(state)@.wf(centroids@.len(), points@.len(), centroids@[0]@.len()),
    ensures
        final(state)@ == assign_points(old(state)@, rows(centroids@), rows(points@)),
        final(state)@.wf(centroids@.len(), points@.len(), centroids@[0]@.len()),
        total_count(final(state)@.counts) == points@.len(),
{
    let sibling = closest_centroid_distances(centroids);
    let ghost cs = rows(centroids@);
    let ghost ps = rows(points@);
    let ghost d = centroids@[0]@.len();
    let n = points.len();
    let mut i: usize = 0;
    while i < n
        invariant
            i <= n,
            n == points@.len(),
            centroids@.len() > 0,
            cs == rows(centroids@),
            ps == rows(points@),
            sibling@ == sibling_distances(cs),
            state@ == assign_points_upto(old(state)@, cs, sibling@, ps, i as nat),
            state@.wf(cs.len(), n as nat, d),
        decreases n - i,
    {
        let ghost before = state@;
        assert(ps[i as int] == points@[i as int]@);
        assign_one(centroids, sibling.as_slice(), points[i].as_slice(), i, state);
        proof {
            lemma_assign_point_wf(before, cs, sibling@, ps[i as int], i as int, n as nat, d);
        }
        i += 1;
    }
    proof {
        lemma_conservation(state@, cs.len(), n as nat, d);
    }
}

} // verus!
