use vstd::prelude::*;
use crate::assignment::{
    assign_point, assign_points, assign_points_upto, lemma_assign_point_wf,
    lemma_assign_points_upto_wf, pruning_limit, sibling_distances,
};
use crate::bounds::{initial_state, uniform, BoundModel};
use crate::distance::{distance, squared_distance};
use crate::kmeans_triangle::iterate;
use crate::laws::{after_iterations, lemma_after_iterations_wf};
use crate::nearest::{lemma_nearest_upto_in_range, nearest, nearest_except, nearest_upto};
use crate::scalar::Scalar;
use crate::update::{
    corrected_lower, corrected_upper, largest, largest_except, largest_upto, means, movements,
};

verus! {

/// `a` is at most `b`: `b` is not below `a`.
pub open spec fn le<S: Scalar>(a: S, b: S) -> bool {
    !b.lt_spec(a)
}

/// Whether the scalars are ordered like the real numbers: `lt` is a strict
/// total order, which the total order agrees with; a square root is not
/// below zero; and the square root, adding a scalar and subtracting one
/// keep the order, the last for amounts that are not below zero.
pub open spec fn ordered_like_reals<S: Scalar>() -> bool {
    &&& forall|a: S| !(#[trigger] a.lt_spec(a))
    &&& forall|a: S, b: S, c: S|
        #![trigger a.lt_spec(b), b.lt_spec(c)]
        a.lt_spec(b) && b.lt_spec(c) ==> a.lt_spec(c)
    &&& forall|a: S, b: S| #[trigger] a.lt_spec(b) || b.lt_spec(a) || a == b
    &&& forall|a: S, b: S| #[trigger] a.total_lt_spec(b) == a.lt_spec(b)
    &&& forall|a: S| le(S::zero_spec(), #[trigger] a.sqrt_spec())
    &&& forall|a: S, b: S|
        #![trigger a.sqrt_spec(), b.sqrt_spec()]
        le(a, b) ==> le(a.sqrt_spec(), b.sqrt_spec())
    &&& forall|a: S, b: S, c: S|
        #![trigger a.plus_spec(c), b.plus_spec(c)]
        le(a, b) ==> le(a.plus_spec(c), b.plus_spec(c))
    &&& forall|a: S, b: S, c: S|
        #![trigger a.minus_spec(c), b.plus_spec(c)]
        le(S::zero_spec(), c) && le(a, b.plus_spec(c)) ==> le(a.minus_spec(c), b)
    &&& forall|a: S, b: S, c: S, e: S|
        #![trigger a.minus_spec(e), b.minus_spec(c)]
        le(a, b) && le(c, e) ==> le(a.minus_spec(e), b.minus_spec(c))
}

/// Whether every centroid is in reach of `point`: the squared distance to it
/// is below the largest scalar, so that a search from there finds it.
pub open spec fn in_reach<S: Scalar>(point: Seq<S>, centroids: Seq<Seq<S>>) -> bool {
    forall|j: int|
        0 <= j < centroids.len() ==> (#[trigger] squared_distance(point, centroids[j])).lt_spec(
            S::max_value_spec(),
        )
}

/// Whether every centroid is in reach of every point.
pub open spec fn all_in_reach<S: Scalar>(points: Seq<Seq<S>>, centroids: Seq<Seq<S>>) -> bool {
    forall|i: int| 0 <= i < points.len() ==> #[trigger] in_reach(points[i], centroids)
}

/// Whether every centroid was in reach of every point in each search of a
/// run up to iteration `t`: in the first full search, and in the assignment
/// steps of the iterations up to `t`, each under the centroids that the
/// iteration began with.
pub open spec fn searches_in_reach<S: Scalar>(
    centroids: Seq<Seq<S>>,
    points: Seq<Seq<S>>,
    t: nat,
) -> bool {
    forall|s: nat|
        s == 0 || s < t ==> all_in_reach(
            points,
            (#[trigger] after_iterations(centroids, points, s)).0,
        )
}

/// Whether the distance is one in the sense of geometry on vectors of
/// dimension `d`: it is the same in both directions, and the way from `x` to
/// `z` is no longer than the way through `y`.
pub open spec fn distance_is_metric<S: Scalar>(d: nat) -> bool {
    &&& forall|x: Seq<S>, y: Seq<S>|
        x.len() == d && y.len() == d ==> #[trigger] distance(x, y) == distance(y, x)
    &&& forall|x: Seq<S>, y: Seq<S>, z: Seq<S>|
        #![trigger distance(x, y), distance(y, z)]
        x.len() == d && y.len() == d && z.len() == d ==> le(
            distance(x, z),
            distance(x, y).plus_spec(distance(y, z)),
        )
}

/// Whether the bounds of `state` enclose the true distances under
/// `centroids`: the upper bound of each point is at least the distance to
/// its centroid, and its lower bound is at most the distance to every other
/// centroid.
pub open spec fn bounds_hold<S: Scalar>(
    state: BoundModel<S>,
    centroids: Seq<Seq<S>>,
    points: Seq<Seq<S>>,
) -> bool {
    forall|i: int|
        0 <= i < points.len() ==> #[trigger] point_bounds_hold(state, centroids, points, i)
}

/// Whether the bounds of point `i` enclose its true distances.
pub open spec fn point_bounds_hold<S: Scalar>(
    state: BoundModel<S>,
    centroids: Seq<Seq<S>>,
    points: Seq<Seq<S>>,
    i: int,
) -> bool {
    &&& le(distance(points[i], centroids[state.assignment[i] as int]), state.upper[i])
    &&& forall|j: int|
        0 <= j < centroids.len() && j != state.assignment[i] ==> le(
            state.lower[i],
            #[trigger] distance(points[i], centroids[j]),
        )
}

/// In an order like that of the reals, "at most" passes on.
pub proof fn lemma_le_transitive<S: Scalar>(x: S, y: S, z: S)
    requires
        ordered_like_reals::<S>(),
        le(x, y),
        le(y, z),
    ensures
        le(x, z),
{
    if z.lt_spec(x) {
        assert(y.lt_spec(z) || z.lt_spec(y) || y == z);
        if y.lt_spec(z) {
            assert(y.lt_spec(z) && z.lt_spec(x));
            assert(y.lt_spec(x));
        }
    }
}

/// Whether there is an index below `m` other than `skip`.
pub open spec fn has_candidate(skip: int, m: nat) -> bool {
    m >= 2 || (m == 1 && skip != 0)
}

proof fn lemma_nothing_found<S: Scalar>(
    point: Seq<S>,
    centroids: Seq<Seq<S>>,
    skip: int,
    m: nat,
)
    requires
        !has_candidate(skip, m),
    ensures
        nearest_upto(point, centroids, skip, m) == (0int, S::max_value_spec()),
{
    if m == 1 {
        assert(nearest_upto(point, centroids, skip, 0) == (0int, S::max_value_spec()));
    }
}

/// A search for the nearest centroid ends with the squared distance to the
/// centroid it names, once it has looked at a centroid, and that squared
/// distance is at most that of every centroid it looked at.
pub proof fn lemma_search_finds_least<S: Scalar>(
    point: Seq<S>,
    centroids: Seq<Seq<S>>,
    skip: int,
    m: nat,
)
    requires
        ordered_like_reals::<S>(),
        m <= centroids.len(),
    ensures
        has_candidate(skip, m) && in_reach(point, centroids) ==> {
            let best = nearest_upto(point, centroids, skip, m);
            0 <= best.0 < m && best.0 != skip && best.1 == squared_distance(
                point,
                centroids[best.0],
            )
        },
        forall|j: int|
            0 <= j < m && j != skip ==> le(
                nearest_upto(point, centroids, skip, m).1,
                #[trigger] squared_distance(point, centroids[j]),
            ),
    decreases m,
{
    if m > 0 {
        lemma_search_finds_least(point, centroids, skip, (m - 1) as nat);
        let before = nearest_upto(point, centroids, skip, (m - 1) as nat);
        let best = nearest_upto(point, centroids, skip, m);
        let d = squared_distance(point, centroids[m - 1]);
        if m - 1 != skip && d.lt_spec(before.1) {
            assert forall|j: int| 0 <= j < m && j != skip implies le(
                best.1,
                #[trigger] squared_distance(point, centroids[j]),
            ) by {
                let other = squared_distance(point, centroids[j]);
                if j < m - 1 {
                    if other.lt_spec(d) {
                        assert(other.lt_spec(d) && d.lt_spec(before.1));
                        assert(other.lt_spec(before.1));
                    }
                } else {
                    assert(!d.lt_spec(d));
                }
            }
        } else if m - 1 != skip {
            if !has_candidate(skip, (m - 1) as nat) && in_reach(point, centroids) {
                lemma_nothing_found(point, centroids, skip, (m - 1) as nat);
                assert(d.lt_spec(S::max_value_spec()));
            }
        }
    }
}

/// A full search gives a point bounds that enclose its true distances: the
/// upper bound is the distance to the centroid found, and the lower bound is
/// at most the distance to every other centroid.
pub proof fn lemma_full_search_is_sound<S: Scalar>(point: Seq<S>, centroids: Seq<Seq<S>>)
    requires
        ordered_like_reals::<S>(),
        centroids.len() > 0,
        in_reach(point, centroids),
    ensures
        0 <= nearest(point, centroids).0 < centroids.len(),
        nearest(point, centroids).1 == distance(point, centroids[nearest(point, centroids).0]),
        forall|j: int|
            0 <= j < centroids.len() && j != nearest(point, centroids).0 ==> le(
                nearest_except(point, centroids, nearest(point, centroids).0).1,
                #[trigger] distance(point, centroids[j]),
            ),
{
    let k = centroids.len();
    lemma_search_finds_least(point, centroids, -1, k);
    let own = nearest(point, centroids).0;
    lemma_search_finds_least(point, centroids, own, k);
    let second = nearest_upto(point, centroids, own, k);
    assert forall|j: int| 0 <= j < k && j != own implies le(
        nearest_except(point, centroids, own).1,
        #[trigger] distance(point, centroids[j]),
    ) by {
        let other = squared_distance(point, centroids[j]);
        assert(le(second.1, other));
        assert(le(second.1.sqrt_spec(), other.sqrt_spec()));
    }
}

/// A search for the largest item ends at an item that none of the items it
/// looked at comes after.
pub proof fn lemma_largest_is_largest<S: Scalar>(v: Seq<S>, skip: int, m: nat)
    requires
        ordered_like_reals::<S>(),
        has_candidate(skip, m),
    ensures
        0 <= largest_upto(v, skip, m) < m,
        largest_upto(v, skip, m) != skip,
        forall|j: int|
            0 <= j < m && j != skip ==> le(#[trigger] v[j], v[largest_upto(v, skip, m)]),
    decreases m,
{
    let found = largest_upto(v, skip, m);
    let before = largest_upto(v, skip, (m - 1) as nat);
    crate::update::lemma_largest_upto_range(v, skip, (m - 1) as nat);
    crate::update::lemma_largest_upto_found(v, skip, m);
    if has_candidate(skip, (m - 1) as nat) {
        lemma_largest_is_largest(v, skip, (m - 1) as nat);
    } else {
        assert(before == -1) by {
            if m - 1 == 1 {
                assert(largest_upto(v, skip, 0) == -1);
            }
        }
    }
    assert forall|j: int| 0 <= j < m && j != skip implies le(#[trigger] v[j], v[found]) by {
        if m - 1 == skip {
        } else if before < 0 {
            assert(!v[j].lt_spec(v[j]));
        } else if v[before].total_lt_spec(v[m - 1]) {
            assert(v[before].lt_spec(v[m - 1]));
            if j < m - 1 {
                if v[m - 1].lt_spec(v[j]) {
                    assert(v[before].lt_spec(v[m - 1]) && v[m - 1].lt_spec(v[j]));
                    assert(v[before].lt_spec(v[j]));
                }
            } else {
                assert(!v[j].lt_spec(v[j]));
            }
        } else {
            if j == m - 1 {
                assert(!v[before].lt_spec(v[m - 1]));
            }
        }
    }
}

/// A search for the nearest centroid names the first of the nearest: every
/// centroid before it that it looked at is strictly farther.
pub proof fn lemma_search_finds_first<S: Scalar>(
    point: Seq<S>,
    centroids: Seq<Seq<S>>,
    skip: int,
    m: nat,
)
    requires
        ordered_like_reals::<S>(),
        m <= centroids.len(),
    ensures
        forall|j: int|
            0 <= j < nearest_upto(point, centroids, skip, m).0 && j < m && j != skip
                ==> nearest_upto(point, centroids, skip, m).1.lt_spec(
                #[trigger] squared_distance(point, centroids[j]),
            ),
    decreases m,
{
    if m > 0 {
        lemma_search_finds_first(point, centroids, skip, (m - 1) as nat);
        lemma_search_finds_least(point, centroids, skip, (m - 1) as nat);
        lemma_nearest_upto_in_range(point, centroids, skip, (m - 1) as nat);
        let before = nearest_upto(point, centroids, skip, (m - 1) as nat);
        let best = nearest_upto(point, centroids, skip, m);
        let d = squared_distance(point, centroids[m - 1]);
        if m - 1 != skip && d.lt_spec(before.1) {
            assert forall|j: int| 0 <= j < best.0 && j < m && j != skip implies best.1.lt_spec(
                #[trigger] squared_distance(point, centroids[j]),
            ) by {
                let other = squared_distance(point, centroids[j]);
                assert(le(before.1, other));
                assert(d.lt_spec(other) || other.lt_spec(d) || d == other);
                if other.lt_spec(d) {
                    assert(other.lt_spec(d) && d.lt_spec(before.1));
                    assert(other.lt_spec(before.1));
                }
            }
        }
    }
}

/// The first full search is tight: each point is with the first of its
/// nearest centroids, its upper bound is the distance to that one and at
/// most the distance to every centroid, and its lower bound is the least
/// distance to another centroid, which is at least the upper bound.
pub proof fn lemma_initial_bounds_are_tight<S: Scalar>(
    centroids: Seq<Seq<S>>,
    points: Seq<Seq<S>>,
    i: int,
)
    requires
        ordered_like_reals::<S>(),
        2 <= centroids.len() <= usize::MAX,
        0 <= i < points.len(),
        in_reach(points[i], centroids),
    ensures
        ({
            let state = initial_state(centroids, points);
            let own = state.assignment[i] as int;
            let second = nearest_except(points[i], centroids, own).0;
            &&& 0 <= own < centroids.len()
            &&& state.upper[i] == distance(points[i], centroids[own])
            &&& forall|j: int|
                0 <= j < centroids.len() ==> le(
                    state.upper[i],
                    #[trigger] distance(points[i], centroids[j]),
                )
            &&& forall|j: int|
                0 <= j < own ==> squared_distance(points[i], centroids[own]).lt_spec(
                    #[trigger] squared_distance(points[i], centroids[j]),
                )
            &&& 0 <= second < centroids.len() && second != own
            &&& state.lower[i] == distance(points[i], centroids[second])
            &&& forall|j: int|
                0 <= j < centroids.len() && j != own ==> le(
                    state.lower[i],
                    #[trigger] distance(points[i], centroids[j]),
                )
            &&& le(state.upper[i], state.lower[i])
        }),
{
    let k = centroids.len();
    let point = points[i];
    let state = initial_state(centroids, points);
    lemma_full_search_is_sound(point, centroids);
    lemma_search_finds_least(point, centroids, -1, k);
    lemma_search_finds_first(point, centroids, -1, k);
    let best = nearest_upto(point, centroids, -1, k);
    let own = state.assignment[i] as int;
    assert(own == best.0);
    lemma_search_finds_least(point, centroids, own, k);
    let second = nearest_except(point, centroids, own).0;
    assert forall|j: int| 0 <= j < k implies le(
        state.upper[i],
        #[trigger] distance(point, centroids[j]),
    ) by {
        let other = squared_distance(point, centroids[j]);
        assert(le(best.1, other));
        assert(le(best.1.sqrt_spec(), other.sqrt_spec()));
    }
    assert(le(state.upper[i], distance(point, centroids[second])));
}

/// The first full search gives bounds that enclose the true distances.
pub proof fn lemma_initial_bounds_hold<S: Scalar>(centroids: Seq<Seq<S>>, points: Seq<Seq<S>>)
    requires
        ordered_like_reals::<S>(),
        0 < centroids.len() <= usize::MAX,
        all_in_reach(points, centroids),
    ensures
        bounds_hold(initial_state(centroids, points), centroids, points),
{
    let state = initial_state(centroids, points);
    assert forall|i: int| 0 <= i < points.len() implies #[trigger] point_bounds_hold(
        state,
        centroids,
        points,
        i,
    ) by {
        assert(in_reach(points[i], centroids));
        lemma_full_search_is_sound(points[i], centroids);
        let own = nearest(points[i], centroids).0;
        assert(state.assignment[i] == own);
        assert(!state.upper[i].lt_spec(state.upper[i]));
    }
}

/// The assignment step keeps the bounds of every point around its true
/// distances, whatever it does to point `i`.
pub proof fn lemma_assign_point_keeps_bounds<S: Scalar>(
    state: BoundModel<S>,
    centroids: Seq<Seq<S>>,
    sibling: Seq<S>,
    points: Seq<Seq<S>>,
    i: int,
    d: nat,
)
    requires
        ordered_like_reals::<S>(),
        centroids.len() > 0,
        state.wf(centroids.len(), points.len(), d),
        0 <= i < points.len(),
        in_reach(points[i], centroids),
        bounds_hold(state, centroids, points),
    ensures
        bounds_hold(assign_point(state, centroids, sibling, points[i], i), centroids, points),
{
    let after = assign_point(state, centroids, sibling, points[i], i);
    lemma_assign_point_wf(state, centroids, sibling, points[i], i, points.len(), d);
    lemma_full_search_is_sound(points[i], centroids);
    let own = state.assignment[i] as int;
    let tightened = distance(points[i], centroids[own]);
    assert(!tightened.lt_spec(tightened));
    let found = nearest(points[i], centroids);
    assert(!found.1.lt_spec(found.1));
    assert forall|t: int| 0 <= t < points.len() implies #[trigger] point_bounds_hold(
        after,
        centroids,
        points,
        t,
    ) by {
        assert(point_bounds_hold(state, centroids, points, t));
        if t != i {
            assert(after.assignment[t] == state.assignment[t]);
            assert(after.upper[t] == state.upper[t]);
            assert(after.lower[t] == state.lower[t]);
        }
    }
}

/// The assignment step keeps the bounds around the true distances after any
/// number of points.
pub proof fn lemma_assign_points_upto_keeps_bounds<S: Scalar>(
    state: BoundModel<S>,
    centroids: Seq<Seq<S>>,
    sibling: Seq<S>,
    points: Seq<Seq<S>>,
    m: nat,
    d: nat,
)
    requires
        ordered_like_reals::<S>(),
        centroids.len() > 0,
        state.wf(centroids.len(), points.len(), d),
        m <= points.len(),
        all_in_reach(points, centroids),
        bounds_hold(state, centroids, points),
    ensures
        bounds_hold(assign_points_upto(state, centroids, sibling, points, m), centroids, points),
    decreases m,
{
    if m > 0 {
        assert(in_reach(points[m - 1], centroids));
        lemma_assign_points_upto_keeps_bounds(
            state,
            centroids,
            sibling,
            points,
            (m - 1) as nat,
            d,
        );
        lemma_assign_points_upto_wf(
            state,
            centroids,
            sibling,
            points,
            (m - 1) as nat,
            points.len(),
            d,
        );
        lemma_assign_point_keeps_bounds(
            assign_points_upto(state, centroids, sibling, points, (m - 1) as nat),
            centroids,
            sibling,
            points,
            m - 1,
            d,
        );
    }
}

/// The correction of the bounds makes up for the movement of the centroids:
/// bounds that enclose the true distances under the centroids `before`
/// enclose them, once corrected, under the centroids `after`.
pub proof fn lemma_correction_keeps_bounds<S: Scalar>(
    state: BoundModel<S>,
    before: Seq<Seq<S>>,
    after: Seq<Seq<S>>,
    points: Seq<Seq<S>>,
    d: nat,
)
    requires
        ordered_like_reals::<S>(),
        distance_is_metric::<S>(d),
        before.len() >= 2,
        after.len() == before.len(),
        uniform(before, d),
        uniform(after, d),
        uniform(points, d),
        state.wf(before.len(), points.len(), d),
        bounds_hold(state, before, points),
    ensures
        bounds_hold(
            BoundModel {
                upper: corrected_upper(state.upper, state.assignment, movements(before, after)),
                lower: corrected_lower(state.lower, state.assignment, movements(before, after)),
                ..state
            },
            after,
            points,
        ),
{
    let k = before.len();
    let moved = movements(before, after);
    let corrected = BoundModel {
        upper: corrected_upper(state.upper, state.assignment, moved),
        lower: corrected_lower(state.lower, state.assignment, moved),
        ..state
    };
    let r = largest(moved);
    lemma_largest_is_largest(moved, -1, k);
    let r_another = largest_except(moved, r);
    lemma_largest_is_largest(moved, r, k);
    assert forall|i: int| 0 <= i < points.len() implies #[trigger] point_bounds_hold(
        corrected,
        after,
        points,
        i,
    ) by {
        assert(point_bounds_hold(state, before, points, i));
        let point = points[i];
        let own = state.assignment[i] as int;
        assert(point.len() == d && before[own].len() == d && after[own].len() == d);
        assert(moved[own] == distance(before[own], after[own]));
        // The upper bound: through the old place of the own centroid.
        let old_way = distance(point, before[own]);
        let new_way = distance(point, after[own]);
        assert(le(new_way, old_way.plus_spec(distance(before[own], after[own]))));
        assert(le(old_way.plus_spec(moved[own]), state.upper[i].plus_spec(moved[own])));
        lemma_le_transitive(
            new_way,
            old_way.plus_spec(moved[own]),
            state.upper[i].plus_spec(moved[own]),
        );
        // The lower bound: no other centroid came nearer than it moved.
        let most = if own == r {
            moved[r_another]
        } else {
            moved[r]
        };
        assert(corrected.lower[i] == state.lower[i].minus_spec(most));
        assert forall|j: int| 0 <= j < k && j != own implies le(
            corrected.lower[i],
            #[trigger] distance(point, after[j]),
        ) by {
            assert(before[j].len() == d && after[j].len() == d);
            assert(moved[j] == distance(before[j], after[j]));
            let old_other = distance(point, before[j]);
            let new_other = distance(point, after[j]);
            assert(le(state.lower[i], old_other));
            assert(le(moved[j], most));
            assert(distance(after[j], before[j]) == distance(before[j], after[j]));
            assert(le(old_other, new_other.plus_spec(distance(after[j], before[j]))));
            assert(le(old_other.minus_spec(moved[j]), new_other)) by {
                assert(le(S::zero_spec(), moved[j]));
                assert(le(old_other, new_other.plus_spec(moved[j])));
            }
            assert(le(state.lower[i].minus_spec(most), old_other.minus_spec(moved[j])));
            lemma_le_transitive(
                state.lower[i].minus_spec(most),
                old_other.minus_spec(moved[j]),
                new_other,
            );
        }
    }
}

/// An iteration keeps the bounds around the true distances: after its
/// assignment step under the centroids it began with, and at its end under
/// the centroids it moved.
pub proof fn lemma_iterate_keeps_bounds<S: Scalar>(
    centroids: Seq<Seq<S>>,
    state: BoundModel<S>,
    points: Seq<Seq<S>>,
    d: nat,
)
    requires
        ordered_like_reals::<S>(),
        distance_is_metric::<S>(d),
        centroids.len() >= 2,
        uniform(centroids, d),
        uniform(points, d),
        state.wf(centroids.len(), points.len(), d),
        all_in_reach(points, centroids),
        bounds_hold(state, centroids, points),
    ensures
        bounds_hold(assign_points(state, centroids, points), centroids, points),
        bounds_hold(
            iterate(centroids, state, points).1,
            iterate(centroids, state, points).0,
            points,
        ),
        uniform(iterate(centroids, state, points).0, d),
{
    let sibling = sibling_distances(centroids);
    lemma_assign_points_upto_keeps_bounds(state, centroids, sibling, points, points.len(), d);
    lemma_assign_points_upto_wf(state, centroids, sibling, points, points.len(), points.len(), d);
    let assigned = assign_points(state, centroids, points);
    let after = means(assigned.sums, assigned.counts);
    assert forall|j: int| 0 <= j < after.len() implies (#[trigger] after[j]).len() == d by {
        assert(assigned.sums[j].len() == d);
    }
    lemma_correction_keeps_bounds(assigned, centroids, after, points, d);
}

/// Bound soundness: where the scalars are ordered like the real numbers, the
/// distance is a metric and every search had every centroid in reach, the
/// bounds enclose the true distances at the end of every iteration of a run
/// and after the first full search. The upper bound of each point is at
/// least the distance to its centroid, and its lower bound is at most the
/// distance to every other centroid.
pub proof fn lemma_bounds_are_sound<S: Scalar>(
    centroids: Seq<Seq<S>>,
    points: Seq<Seq<S>>,
    d: nat,
    t: nat,
)
    requires
        ordered_like_reals::<S>(),
        distance_is_metric::<S>(d),
        2 <= centroids.len() <= usize::MAX,
        points.len() <= usize::MAX,
        uniform(centroids, d),
        uniform(points, d),
        searches_in_reach(centroids, points, t),
    ensures
        bounds_hold(
            after_iterations(centroids, points, t).1,
            after_iterations(centroids, points, t).0,
            points,
        ),
        uniform(after_iterations(centroids, points, t).0, d),
    decreases t,
{
    assert(centroids[0].len() == d);
    if t == 0 {
        assert(after_iterations(centroids, points, 0).0 == centroids);
        lemma_initial_bounds_hold(centroids, points);
    } else {
        assert(searches_in_reach(centroids, points, (t - 1) as nat)) by {
            assert forall|s: nat| s == 0 || s < t - 1 implies all_in_reach(
                points,
                (#[trigger] after_iterations(centroids, points, s)).0,
            ) by {}
        }
        lemma_bounds_are_sound(centroids, points, d, (t - 1) as nat);
        lemma_after_iterations_wf(centroids, points, (t - 1) as nat);
        let before = after_iterations(centroids, points, (t - 1) as nat);
        assert(all_in_reach(points, before.0));
        lemma_iterate_keeps_bounds(before.0, before.1, points, d);
    }
}

/// Whether halving and the larger of two behave as with real numbers: the
/// larger of two scalars is one of them, halving keeps the order, and a
/// scalar that is at most half of a `y` not below zero, where `y` is at most
/// that scalar plus `z`, is at most `z`.
pub open spec fn halves_like_reals<S: Scalar>() -> bool {
    &&& forall|a: S, b: S| #[trigger] a.larger_spec(b) == a || a.larger_spec(b) == b
    &&& forall|a: S, b: S|
        #![trigger a.over_spec(S::from_u8_spec(2)), b.over_spec(S::from_u8_spec(2))]
        le(a, b) ==> le(a.over_spec(S::from_u8_spec(2)), b.over_spec(S::from_u8_spec(2)))
    &&& forall|x: S, y: S, z: S|
        #![trigger y.over_spec(S::from_u8_spec(2)), x.plus_spec(z)]
        le(S::zero_spec(), y) && le(x, y.over_spec(S::from_u8_spec(2))) && le(
            y,
            x.plus_spec(z),
        ) ==> le(x, z)
}

/// Whether point `i` is with a nearest centroid: no centroid is nearer to it
/// than the one it is assigned to.
pub open spec fn point_is_with_nearest<S: Scalar>(
    state: BoundModel<S>,
    centroids: Seq<Seq<S>>,
    points: Seq<Seq<S>>,
    i: int,
) -> bool {
    forall|j: int|
        0 <= j < centroids.len() ==> le(
            distance(points[i], centroids[state.assignment[i] as int]),
            #[trigger] distance(points[i], centroids[j]),
        )
}

/// Each centroid's distance to its nearest sibling is at most its distance
/// to every other centroid.
pub proof fn lemma_sibling_is_nearest<S: Scalar>(centroids: Seq<Seq<S>>, own: int, j: int)
    requires
        ordered_like_reals::<S>(),
        0 <= own < centroids.len(),
        0 <= j < centroids.len(),
        j != own,
    ensures
        le(sibling_distances(centroids)[own], distance(centroids[own], centroids[j])),
{
    lemma_search_finds_least(centroids[own], centroids, own, centroids.len());
    let best = nearest_upto(centroids[own], centroids, own, centroids.len());
    let other = squared_distance(centroids[own], centroids[j]);
    assert(le(best.1, other));
    assert(le(best.1.sqrt_spec(), other.sqrt_spec()));
}

/// The pruning test is sound: a point whose distance to its centroid is at
/// most the pruning limit, with a lower bound that holds, is with a nearest
/// centroid.
pub proof fn lemma_pruned_point_is_with_nearest<S: Scalar>(
    state: BoundModel<S>,
    centroids: Seq<Seq<S>>,
    points: Seq<Seq<S>>,
    i: int,
    d: nat,
)
    requires
        ordered_like_reals::<S>(),
        halves_like_reals::<S>(),
        distance_is_metric::<S>(d),
        uniform(centroids, d),
        uniform(points, d),
        0 <= i < points.len(),
        state.assignment.len() == points.len(),
        state.lower.len() == points.len(),
        state.assignment[i] < centroids.len(),
        forall|j: int|
            0 <= j < centroids.len() && j != state.assignment[i] ==> le(
                state.lower[i],
                #[trigger] distance(points[i], centroids[j]),
            ),
        le(
            distance(points[i], centroids[state.assignment[i] as int]),
            pruning_limit(
                sibling_distances(centroids)[state.assignment[i] as int],
                state.lower[i],
            ),
        ),
    ensures
        point_is_with_nearest(state, centroids, points, i),
{
    let own = state.assignment[i] as int;
    let point = points[i];
    let to_own = distance(point, centroids[own]);
    let sibling = sibling_distances(centroids)[own];
    let half = sibling.over_spec(S::from_u8_spec(2));
    let limit = pruning_limit(sibling, state.lower[i]);
    assert(limit == half.larger_spec(state.lower[i]));
    assert(limit == half || limit == state.lower[i]);
    assert(point.len() == d && centroids[own].len() == d);
    assert forall|j: int| 0 <= j < centroids.len() implies le(
        to_own,
        #[trigger] distance(point, centroids[j]),
    ) by {
        let to_other = distance(point, centroids[j]);
        if j == own {
            assert(!to_own.lt_spec(to_own));
        } else if limit == state.lower[i] {
            lemma_le_transitive(to_own, state.lower[i], to_other);
        } else {
            assert(centroids[j].len() == d);
            let between = distance(centroids[own], centroids[j]);
            lemma_sibling_is_nearest(centroids, own, j);
            assert(le(half, between.over_spec(S::from_u8_spec(2))));
            lemma_le_transitive(to_own, half, between.over_spec(S::from_u8_spec(2)));
            assert(distance(centroids[own], point) == to_own);
            assert(le(between, distance(centroids[own], point).plus_spec(to_other)));
            assert(le(S::zero_spec(), between));
            assert(le(to_own, between.over_spec(S::from_u8_spec(2))) && le(
                between,
                to_own.plus_spec(to_other),
            ));
        }
    }
}

/// The assignment step leaves point `i` with a nearest centroid, and moves
/// no other point.
pub proof fn lemma_assign_point_finds_nearest<S: Scalar>(
    state: BoundModel<S>,
    centroids: Seq<Seq<S>>,
    points: Seq<Seq<S>>,
    i: int,
    d: nat,
)
    requires
        ordered_like_reals::<S>(),
        halves_like_reals::<S>(),
        distance_is_metric::<S>(d),
        centroids.len() > 0,
        uniform(centroids, d),
        uniform(points, d),
        state.wf(centroids.len(), points.len(), d),
        0 <= i < points.len(),
        in_reach(points[i], centroids),
        bounds_hold(state, centroids, points),
    ensures
        point_is_with_nearest(
            assign_point(state, centroids, sibling_distances(centroids), points[i], i),
            centroids,
            points,
            i,
        ),
        forall|t: int|
            0 <= t < points.len() && t != i ==> assign_point(
                state,
                centroids,
                sibling_distances(centroids),
                points[i],
                i,
            ).assignment[t] == state.assignment[t],
{
    let sibling = sibling_distances(centroids);
    let after = assign_point(state, centroids, sibling, points[i], i);
    let own = state.assignment[i] as int;
    let limit = pruning_limit(sibling[own], state.lower[i]);
    let to_own = distance(points[i], centroids[own]);
    assert(point_bounds_hold(state, centroids, points, i));
    if !limit.lt_spec(state.upper[i]) {
        lemma_le_transitive(to_own, state.upper[i], limit);
        lemma_pruned_point_is_with_nearest(state, centroids, points, i, d);
    } else if !limit.lt_spec(to_own) {
        lemma_pruned_point_is_with_nearest(state, centroids, points, i, d);
        assert(after.assignment == state.assignment);
    } else {
        lemma_search_finds_least(points[i], centroids, -1, centroids.len());
        let best = nearest_upto(points[i], centroids, -1, centroids.len());
        assert(after.assignment[i] == best.0);
        assert forall|j: int| 0 <= j < centroids.len() implies le(
            distance(points[i], centroids[after.assignment[i] as int]),
            #[trigger] distance(points[i], centroids[j]),
        ) by {
            let other = squared_distance(points[i], centroids[j]);
            assert(le(best.1, other));
            assert(le(best.1.sqrt_spec(), other.sqrt_spec()));
        }
    }
}

proof fn lemma_assign_points_upto_finds_nearest<S: Scalar>(
    state: BoundModel<S>,
    centroids: Seq<Seq<S>>,
    points: Seq<Seq<S>>,
    m: nat,
    d: nat,
)
    requires
        ordered_like_reals::<S>(),
        halves_like_reals::<S>(),
        distance_is_metric::<S>(d),
        centroids.len() > 0,
        uniform(centroids, d),
        uniform(points, d),
        state.wf(centroids.len(), points.len(), d),
        m <= points.len(),
        all_in_reach(points, centroids),
        bounds_hold(state, centroids, points),
    ensures
        forall|i: int|
            0 <= i < m ==> #[trigger] point_is_with_nearest(
                assign_points_upto(state, centroids, sibling_distances(centroids), points, m),
                centroids,
                points,
                i,
            ),
    decreases m,
{
    if m > 0 {
        let sibling = sibling_distances(centroids);
        let before = assign_points_upto(state, centroids, sibling, points, (m - 1) as nat);
        let after = assign_points_upto(state, centroids, sibling, points, m);
        lemma_assign_points_upto_finds_nearest(state, centroids, points, (m - 1) as nat, d);
        lemma_assign_points_upto_keeps_bounds(
            state,
            centroids,
            sibling,
            points,
            (m - 1) as nat,
            d,
        );
        lemma_assign_points_upto_wf(
            state,
            centroids,
            sibling,
            points,
            (m - 1) as nat,
            points.len(),
            d,
        );
        assert(in_reach(points[m - 1], centroids));
        lemma_assign_point_finds_nearest(before, centroids, points, m - 1, d);
        assert forall|i: int| 0 <= i < m implies #[trigger] point_is_with_nearest(
            after,
            centroids,
            points,
            i,
        ) by {
            if i < m - 1 {
                assert(point_is_with_nearest(before, centroids, points, i));
                assert(after.assignment[i] == before.assignment[i]);
            }
        }
    }
}

/// No reassignment is missed: where the scalars behave like real numbers,
/// every centroid is in reach of every point and the bounds hold, the
/// assignment step leaves every point with a nearest centroid, as a search
/// of all centroids for every point would, but for which of equally near
/// centroids a point is with.
pub proof fn lemma_assignment_step_finds_nearest<S: Scalar>(
    state: BoundModel<S>,
    centroids: Seq<Seq<S>>,
    points: Seq<Seq<S>>,
    d: nat,
)
    requires
        ordered_like_reals::<S>(),
        halves_like_reals::<S>(),
        distance_is_metric::<S>(d),
        centroids.len() > 0,
        uniform(centroids, d),
        uniform(points, d),
        state.wf(centroids.len(), points.len(), d),
        all_in_reach(points, centroids),
        bounds_hold(state, centroids, points),
    ensures
        forall|i: int|
            0 <= i < points.len() ==> #[trigger] point_is_with_nearest(
                assign_points(state, centroids, points),
                centroids,
                points,
                i,
            ),
{
    lemma_assign_points_upto_finds_nearest(state, centroids, points, points.len(), d);
}

/// In every iteration of a run the assignment step leaves every point with
/// a centroid nearest to it among the centroids of that iteration, where the
/// scalars behave like real numbers and every search had every centroid in
/// reach.
pub proof fn lemma_every_iteration_assigns_to_nearest<S: Scalar>(
    centroids: Seq<Seq<S>>,
    points: Seq<Seq<S>>,
    d: nat,
    t: nat,
)
    requires
        ordered_like_reals::<S>(),
        halves_like_reals::<S>(),
        distance_is_metric::<S>(d),
        2 <= centroids.len() <= usize::MAX,
        points.len() <= usize::MAX,
        uniform(centroids, d),
        uniform(points, d),
        searches_in_reach(centroids, points, t + 1),
    ensures
        forall|i: int|
            0 <= i < points.len() ==> #[trigger] point_is_with_nearest(
                after_iterations(centroids, points, t + 1).1,
                after_iterations(centroids, points, t).0,
                points,
                i,
            ),
{
    assert(searches_in_reach(centroids, points, t)) by {
        assert forall|s: nat| s == 0 || s < t implies all_in_reach(
            points,
            (#[trigger] after_iterations(centroids, points, s)).0,
        ) by {}
    }
    lemma_bounds_are_sound(centroids, points, d, t);
    lemma_after_iterations_wf(centroids, points, t);
    let before = after_iterations(centroids, points, t);
    assert(centroids[0].len() == d);
    assert(all_in_reach(points, before.0));
    lemma_assignment_step_finds_nearest(before.1, before.0, points, d);
    let assigned = assign_points(before.1, before.0, points);
    let after = after_iterations(centroids, points, t + 1);
    assert(after.1.assignment == assigned.assignment);
    assert forall|i: int| 0 <= i < points.len() implies #[trigger] point_is_with_nearest(
        after.1,
        before.0,
        points,
        i,
    ) by {
        assert(point_is_with_nearest(assigned, before.0, points, i));
    }
}

} // verus!
