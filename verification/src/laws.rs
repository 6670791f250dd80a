use vstd::prelude::*;
use crate::assignment::{
    assign_point, assign_points, assign_points_upto, lemma_conservation, sibling_distances,
};
use crate::bounds::{
    cluster_sum_upto, initial_state, lemma_cluster_sum_upto_len, members, members_upto,
    total_count, uniform, vec_plus, zeros, BoundModel,
};
use crate::distance::{squared_distance, squared_distance_upto};
use crate::kmeans_triangle::{iterate, lemma_iterate_wf, run, run_from, ResultModel};
use crate::nearest::{lemma_nearest_upto_in_range, nearest, nearest_upto};
use crate::scalar::Scalar;
use crate::seeding::{select, valid_seeds};
use crate::update::{means, squared_movements, total_squared_movement, total_upto};

verus! {

/// The centroids and the bound state of a run from `centroids` at the end of
/// iteration `t`, the threshold set aside; at `t == 0`, after the first full
/// search.
pub open spec fn after_iterations<S: Scalar>(
    centroids: Seq<Seq<S>>,
    points: Seq<Seq<S>>,
    t: nat,
) -> (Seq<Seq<S>>, BoundModel<S>)
    decreases t,
{
    if t == 0 {
        (centroids, initial_state(centroids, points))
    } else {
        let before = after_iterations(centroids, points, (t - 1) as nat);
        let next = iterate(before.0, before.1, points);
        (next.0, next.1)
    }
}

/// The first full search gives a well-formed bound state.
pub proof fn lemma_initial_state_wf<S: Scalar>(centroids: Seq<Seq<S>>, points: Seq<Seq<S>>)
    requires
        0 < centroids.len() <= usize::MAX,
        points.len() <= usize::MAX,
    ensures
        initial_state(centroids, points).wf(centroids.len(), points.len(), centroids[0].len()),
{
    let state = initial_state(centroids, points);
    assert forall|i: int| 0 <= i < points.len() implies (#[trigger] state.assignment[i])
        < centroids.len() by {
        lemma_nearest_upto_in_range(points[i], centroids, -1, centroids.len());
    }
    assert forall|j: int| 0 <= j < centroids.len() implies (#[trigger] state.sums[j]).len()
        == centroids[0].len() by {
        lemma_cluster_sum_upto_len(
            points,
            state.assignment,
            j,
            centroids[0].len(),
            points.len(),
        );
    }
    assert forall|j: int| 0 <= j < centroids.len() implies (#[trigger] state.counts[j])
        == crate::bounds::members(state.assignment, j) by {
        crate::bounds::lemma_members_upto_bound(state.assignment, j, points.len());
    }
}

/// Every iteration of a run ends in a well-formed bound state, with as many
/// centroids as it began with.
pub proof fn lemma_after_iterations_wf<S: Scalar>(
    centroids: Seq<Seq<S>>,
    points: Seq<Seq<S>>,
    t: nat,
)
    requires
        0 < centroids.len() <= usize::MAX,
        points.len() <= usize::MAX,
    ensures
        after_iterations(centroids, points, t).0.len() == centroids.len(),
        after_iterations(centroids, points, t).0[0].len() == centroids[0].len(),
        after_iterations(centroids, points, t).1.wf(
            centroids.len(),
            points.len(),
            centroids[0].len(),
        ),
    decreases t,
{
    if t == 0 {
        lemma_initial_state_wf(centroids, points);
    } else {
        lemma_after_iterations_wf(centroids, points, (t - 1) as nat);
        let before = after_iterations(centroids, points, (t - 1) as nat);
        lemma_iterate_wf(before.0, before.1, points, centroids[0].len());
    }
}

/// Conservation: at the end of every iteration of a run, and after the first
/// full search, the counts of the centroids add up to the number of points,
/// and each count is the number of points assigned to its centroid.
pub proof fn lemma_counts_are_conserved<S: Scalar>(
    centroids: Seq<Seq<S>>,
    points: Seq<Seq<S>>,
    t: nat,
)
    requires
        0 < centroids.len() <= usize::MAX,
        points.len() <= usize::MAX,
    ensures
        total_count(after_iterations(centroids, points, t).1.counts) == points.len(),
        forall|j: int|
            0 <= j < centroids.len() ==> (#[trigger] after_iterations(
                centroids,
                points,
                t,
            ).1.counts[j]) == crate::bounds::members(
                after_iterations(centroids, points, t).1.assignment,
                j,
            ),
{
    lemma_after_iterations_wf(centroids, points, t);
    lemma_conservation(
        after_iterations(centroids, points, t).1,
        centroids.len(),
        points.len(),
        centroids[0].len(),
    );
}

/// Whether `result` is what a run gives that stops in iteration `t`: the
/// centroids and the assignment are those at the end of that iteration, and
/// the iterations counted are `t`, or one fewer where the run stopped
/// because the centroids moved less than the threshold.
pub open spec fn stops_at<S: Scalar>(
    result: ResultModel<S>,
    centroids: Seq<Seq<S>>,
    points: Seq<Seq<S>>,
    t: nat,
) -> bool {
    &&& result.centroids == after_iterations(centroids, points, t).0
    &&& result.point_centroids == after_iterations(centroids, points, t).1.assignment
    &&& (result.iterations == t || result.iterations + 1 == t)
}

proof fn lemma_run_from_stops<S: Scalar>(
    centroids: Seq<Seq<S>>,
    points: Seq<Seq<S>>,
    done: nat,
    max_iter: nat,
    threshold: S,
)
    requires
        done <= max_iter,
    ensures
        exists|t: nat|
            done <= t <= max_iter && #[trigger] stops_at(
                run_from(
                    after_iterations(centroids, points, done).0,
                    after_iterations(centroids, points, done).1,
                    points,
                    done,
                    max_iter,
                    threshold,
                ),
                centroids,
                points,
                t,
            ),
    decreases max_iter - done,
{
    let now = after_iterations(centroids, points, done);
    let result = run_from(now.0, now.1, points, done, max_iter, threshold);
    if done >= max_iter {
        assert(stops_at(result, centroids, points, done));
    } else {
        let next = iterate(now.0, now.1, points);
        let then = after_iterations(centroids, points, done + 1);
        assert(then.0 == next.0 && then.1 == next.1);
        if next.2.lt_spec(threshold) {
            assert(stops_at(result, centroids, points, done + 1));
        } else {
            lemma_run_from_stops(centroids, points, done + 1, max_iter, threshold);
        }
    }
}

/// A run ends in the state of one of its iterations: what it returns are
/// the centroids and the assignment at the end of an iteration within
/// `max_iter`, or after the first full search.
pub proof fn lemma_run_stops<S: Scalar>(
    centroids: Seq<Seq<S>>,
    points: Seq<Seq<S>>,
    max_iter: nat,
    threshold: S,
)
    ensures
        exists|t: nat|
            t <= max_iter && #[trigger] stops_at(
                run(centroids, points, max_iter, threshold),
                centroids,
                points,
                t,
            ),
{
    lemma_run_from_stops(centroids, points, 0, max_iter, threshold);
    let first = after_iterations(centroids, points, 0);
    assert(first.0 == centroids && first.1 == initial_state(centroids, points));
    let result = run_from(first.0, first.1, points, 0, max_iter, threshold);
    assert(result == run(centroids, points, max_iter, threshold));
    let t = choose|t: nat| 0 <= t <= max_iter && #[trigger] stops_at(result, centroids, points, t);
    assert(stops_at(run(centroids, points, max_iter, threshold), centroids, points, t));
}

/// Whether the arithmetic of the scalars is exact on the coordinates of
/// `points`: a coordinate less itself, squared, is zero; zero plus a
/// coordinate is that coordinate; a coordinate over the count one is that
/// coordinate; zero plus zero is zero, and zero is below the largest scalar.
pub open spec fn exact_on<S: Scalar>(points: Seq<Seq<S>>) -> bool {
    &&& S::zero_spec().lt_spec(S::max_value_spec())
    &&& S::zero_spec().plus_spec(S::zero_spec()) == S::zero_spec()
    &&& forall|i: int, t: int|
        0 <= i < points.len() && 0 <= t < points[i].len() ==> {
            let x = #[trigger] points[i][t];
            &&& x.minus_spec(x).squared_spec() == S::zero_spec()
            &&& S::zero_spec().plus_spec(x) == x
            &&& x.over_spec(S::from_count_spec(1)) == x
        }
}

/// Whether `points` are distinct as the scalars see it: the squared distance
/// between any two of them is above zero and not below it.
pub open spec fn apart<S: Scalar>(points: Seq<Seq<S>>) -> bool {
    forall|i: int, j: int|
        0 <= i < points.len() && 0 <= j < points.len() && i != j ==> {
            let d = #[trigger] squared_distance(points[i], points[j]);
            S::zero_spec().lt_spec(d) && !d.lt_spec(S::zero_spec())
        }
}

/// Whether `home` tells for each of the points which seed it is: the seeds
/// are all the points, each once.
pub open spec fn is_home(seeds: Seq<usize>, home: Seq<usize>) -> bool {
    &&& home.len() == seeds.len()
    &&& valid_seeds(seeds, seeds.len())
    &&& forall|i: int|
        0 <= i < home.len() ==> (#[trigger] home[i]) < seeds.len() && seeds[home[i] as int] == i
}

proof fn lemma_home_of_seed(seeds: Seq<usize>, home: Seq<usize>, c: int)
    requires
        is_home(seeds, home),
        0 <= c < seeds.len(),
    ensures
        home[seeds[c] as int] == c,
{
    let i = seeds[c] as int;
    let back = home[i] as int;
    assert(seeds[back] == i);
    if back < c {
        assert(seeds[back] != seeds[c]);
    } else if c < back {
        assert(seeds[c] != seeds[back]);
    }
}

proof fn lemma_no_distance_to_itself_upto<S: Scalar>(points: Seq<Seq<S>>, i: int, m: nat)
    requires
        exact_on(points),
        0 <= i < points.len(),
        m <= points[i].len(),
    ensures
        squared_distance_upto(points[i], points[i], m) == S::zero_spec(),
    decreases m,
{
    if m > 0 {
        lemma_no_distance_to_itself_upto(points, i, (m - 1) as nat);
        let x = points[i][m - 1];
        assert(x.minus_spec(x).squared_spec() == S::zero_spec());
    }
}

/// Under exact arithmetic a point is at squared distance zero from itself.
pub proof fn lemma_no_distance_to_itself<S: Scalar>(points: Seq<Seq<S>>, i: int)
    requires
        exact_on(points),
        0 <= i < points.len(),
    ensures
        squared_distance(points[i], points[i]) == S::zero_spec(),
{
    lemma_no_distance_to_itself_upto(points, i, points[i].len());
}

proof fn lemma_search_finds_home<S: Scalar>(
    points: Seq<Seq<S>>,
    seeds: Seq<usize>,
    home: Seq<usize>,
    i: int,
    m: nat,
)
    requires
        exact_on(points),
        apart(points),
        seeds.len() == points.len(),
        is_home(seeds, home),
        0 <= i < points.len(),
        m <= seeds.len(),
    ensures
        m <= home[i] ==> S::zero_spec().lt_spec(
            nearest_upto(points[i], select(points, seeds), -1, m).1,
        ),
        m > home[i] ==> nearest_upto(points[i], select(points, seeds), -1, m) == (
            home[i] as int,
            S::zero_spec(),
        ),
    decreases m,
{
    if m > 0 {
        lemma_search_finds_home(points, seeds, home, i, (m - 1) as nat);
        let c = m - 1;
        let d = squared_distance(points[i], select(points, seeds)[c]);
        assert(select(points, seeds)[c] == points[seeds[c] as int]);
        if c == home[i] {
            lemma_no_distance_to_itself(points, i);
        } else {
            assert(seeds[c] != i) by {
                lemma_home_of_seed(seeds, home, c);
            }
            assert(S::zero_spec().lt_spec(d) && !d.lt_spec(S::zero_spec())) by {
                let other = seeds[c] as int;
                assert(d == squared_distance(points[i], points[other]));
            }
        }
    }
}

/// Under exact arithmetic, with every point a centroid, a point is nearest
/// to the centroid that it is.
pub proof fn lemma_nearest_is_home<S: Scalar>(
    points: Seq<Seq<S>>,
    seeds: Seq<usize>,
    home: Seq<usize>,
    i: int,
)
    requires
        exact_on(points),
        apart(points),
        seeds.len() == points.len(),
        is_home(seeds, home),
        0 <= i < points.len(),
    ensures
        nearest(points[i], select(points, seeds)).0 == home[i],
{
    lemma_search_finds_home(points, seeds, home, i, seeds.len());
}

proof fn lemma_home_members(seeds: Seq<usize>, home: Seq<usize>, j: int, m: nat)
    requires
        is_home(seeds, home),
        0 <= j < seeds.len(),
        m <= home.len(),
    ensures
        members_upto(home, j, m) == (if seeds[j] < m {
            1nat
        } else {
            0nat
        }),
    decreases m,
{
    if m > 0 {
        lemma_home_members(seeds, home, j, (m - 1) as nat);
        lemma_home_of_seed(seeds, home, j);
        assert(home[m - 1] < seeds.len());
    }
}

proof fn lemma_home_sums<S: Scalar>(
    points: Seq<Seq<S>>,
    seeds: Seq<usize>,
    home: Seq<usize>,
    j: int,
    d: nat,
    m: nat,
)
    requires
        exact_on(points),
        uniform(points, d),
        seeds.len() == points.len(),
        is_home(seeds, home),
        0 <= j < seeds.len(),
        m <= home.len(),
    ensures
        cluster_sum_upto(points, home, j, d, m) == (if seeds[j] < m {
            points[seeds[j] as int]
        } else {
            zeros::<S>(d)
        }),
    decreases m,
{
    if m > 0 {
        lemma_home_sums(points, seeds, home, j, d, (m - 1) as nat);
        lemma_home_of_seed(seeds, home, j);
        assert(home[m - 1] < seeds.len());
        if home[m - 1] == j {
            let point = points[m - 1];
            assert(point.len() == d);
            assert forall|t: int| 0 <= t < d implies vec_plus(zeros::<S>(d), point)[t]
                == point[t] by {
                let x = points[m - 1][t];
                assert(S::zero_spec().plus_spec(x) == x);
            }
            assert(vec_plus(zeros::<S>(d), point) =~= point);
        }
    }
}

proof fn lemma_step_keeps_home<S: Scalar>(
    state: BoundModel<S>,
    points: Seq<Seq<S>>,
    seeds: Seq<usize>,
    home: Seq<usize>,
    sibling: Seq<S>,
    m: nat,
)
    requires
        exact_on(points),
        apart(points),
        seeds.len() == points.len(),
        is_home(seeds, home),
        state.assignment == home,
        m <= points.len(),
    ensures
        assign_points_upto(state, select(points, seeds), sibling, points, m).assignment == home,
        assign_points_upto(state, select(points, seeds), sibling, points, m).counts
            == state.counts,
        assign_points_upto(state, select(points, seeds), sibling, points, m).sums == state.sums,
    decreases m,
{
    if m > 0 {
        lemma_step_keeps_home(state, points, seeds, home, sibling, (m - 1) as nat);
        lemma_nearest_is_home(points, seeds, home, m - 1);
        let before = assign_points_upto(
            state,
            select(points, seeds),
            sibling,
            points,
            (m - 1) as nat,
        );
        let after = assign_point(before, select(points, seeds), sibling, points[m - 1], m - 1);
        assert(after.assignment =~= home);
    }
}

proof fn lemma_no_movement<S: Scalar>(points: Seq<Seq<S>>, seeds: Seq<usize>, m: nat)
    requires
        exact_on(points),
        valid_seeds(seeds, points.len()),
        m <= seeds.len(),
    ensures
        total_upto(
            squared_movements(select(points, seeds), select(points, seeds)),
            m,
        ) == S::zero_spec(),
    decreases m,
{
    if m > 0 {
        lemma_no_movement(points, seeds, (m - 1) as nat);
        lemma_no_distance_to_itself(points, seeds[m - 1] as int);
    }
}

/// Whether `state` rests where every point is its own centroid: each point
/// is assigned to the centroid that it is, and each centroid counts one
/// point and sums up to it.
pub open spec fn rests_at_home<S: Scalar>(
    state: BoundModel<S>,
    points: Seq<Seq<S>>,
    seeds: Seq<usize>,
    home: Seq<usize>,
) -> bool {
    &&& state.assignment == home
    &&& state.counts.len() == seeds.len()
    &&& state.sums.len() == seeds.len()
    &&& forall|j: int|
        0 <= j < seeds.len() ==> (#[trigger] state.counts[j]) == 1 && state.sums[j]
            == points[seeds[j] as int]
}

proof fn lemma_first_search_rests<S: Scalar>(
    points: Seq<Seq<S>>,
    seeds: Seq<usize>,
    home: Seq<usize>,
    d: nat,
)
    requires
        points.len() > 0,
        uniform(points, d),
        seeds.len() == points.len(),
        is_home(seeds, home),
        exact_on(points),
        apart(points),
    ensures
        rests_at_home(initial_state(select(points, seeds), points), points, seeds, home),
{
    let centroids = select(points, seeds);
    let first = initial_state(centroids, points);
    assert(first.assignment =~= home) by {
        assert forall|i: int| 0 <= i < points.len() implies first.assignment[i] == home[i] by {
            lemma_nearest_is_home(points, seeds, home, i);
        }
    }
    assert(centroids[0].len() == d) by {
        assert(points[seeds[0] as int].len() == d);
    }
    assert(centroids.len() == seeds.len());
    assert(first.assignment == home);
    assert(first.counts.len() == seeds.len());
    assert(first.sums.len() == seeds.len());
    assert forall|j: int| 0 <= j < seeds.len() implies (#[trigger] first.counts[j]) == 1
        && first.sums[j] == points[seeds[j] as int] by {
        lemma_home_members(seeds, home, j, home.len());
        lemma_home_sums(points, seeds, home, j, d, home.len());
        assert(seeds[j] < home.len());
        assert(members(first.assignment, j) == 1);
        assert(first.counts[j] == members(first.assignment, j) as usize);
        assert(first.sums[j] == cluster_sum_upto(
            points,
            first.assignment,
            j,
            centroids[0].len(),
            points.len(),
        ));
        assert(first.counts[j] == 1);
        assert(first.sums[j] == points[seeds[j] as int]);
    }
    assert(rests_at_home(first, points, seeds, home));
}

proof fn lemma_iteration_rests<S: Scalar>(
    state: BoundModel<S>,
    points: Seq<Seq<S>>,
    seeds: Seq<usize>,
    home: Seq<usize>,
)
    requires
        seeds.len() == points.len(),
        is_home(seeds, home),
        exact_on(points),
        apart(points),
        rests_at_home(state, points, seeds, home),
    ensures
        iterate(select(points, seeds), state, points).0 == select(points, seeds),
        rests_at_home(iterate(select(points, seeds), state, points).1, points, seeds, home),
        iterate(select(points, seeds), state, points).2 == S::zero_spec(),
{
    let centroids = select(points, seeds);
    lemma_step_keeps_home(
        state,
        points,
        seeds,
        home,
        sibling_distances(centroids),
        points.len(),
    );
    let assigned = assign_points(state, centroids, points);
    let after = means(assigned.sums, assigned.counts);
    assert(after =~= centroids) by {
        assert forall|j: int| 0 <= j < centroids.len() implies after[j] == centroids[j] by {
            let point = points[seeds[j] as int];
            assert(assigned.counts[j] == 1);
            assert(assigned.sums[j] == point);
            assert forall|t: int| 0 <= t < point.len() implies after[j][t] == point[t] by {
                let x = points[seeds[j] as int][t];
                assert(x.over_spec(S::from_count_spec(1)) == x);
            }
            assert(after[j] =~= point);
        }
    }
    lemma_no_movement(points, seeds, seeds.len());
    let next = iterate(centroids, state, points);
    assert forall|j: int| 0 <= j < seeds.len() implies (#[trigger] next.1.counts[j]) == 1
        && next.1.sums[j] == points[seeds[j] as int] by {
        assert(state.counts[j] == 1);
    }
}

proof fn lemma_run_from_rests<S: Scalar>(
    state: BoundModel<S>,
    points: Seq<Seq<S>>,
    seeds: Seq<usize>,
    home: Seq<usize>,
    iterations: nat,
    max_iter: nat,
    threshold: S,
)
    requires
        seeds.len() == points.len(),
        is_home(seeds, home),
        exact_on(points),
        apart(points),
        rests_at_home(state, points, seeds, home),
    ensures
        run_from(select(points, seeds), state, points, iterations, max_iter, threshold).centroids
            == select(points, seeds),
        run_from(
            select(points, seeds),
            state,
            points,
            iterations,
            max_iter,
            threshold,
        ).point_centroids == home,
        S::zero_spec().lt_spec(threshold) ==> run_from(
            select(points, seeds),
            state,
            points,
            iterations,
            max_iter,
            threshold,
        ).iterations == iterations,
    decreases max_iter - iterations,
{
    if iterations < max_iter {
        lemma_iteration_rests(state, points, seeds, home);
        let next = iterate(select(points, seeds), state, points);
        if !next.2.lt_spec(threshold) {
            lemma_run_from_rests(next.1, points, seeds, home, iterations + 1, max_iter, threshold);
        }
    }
}

/// Where every point is a centroid at the start, the points are distinct and
/// of one dimension, and the arithmetic is exact on them, a run leaves the
/// centroids where they are and each point with the centroid that it is,
/// under every threshold and however many iterations it is given.
pub proof fn lemma_trivial_run_stays_put<S: Scalar>(
    points: Seq<Seq<S>>,
    seeds: Seq<usize>,
    home: Seq<usize>,
    d: nat,
    max_iter: nat,
    threshold: S,
)
    requires
        points.len() > 0,
        uniform(points, d),
        seeds.len() == points.len(),
        is_home(seeds, home),
        exact_on(points),
        apart(points),
    ensures
        run(select(points, seeds), points, max_iter, threshold).centroids == select(
            points,
            seeds,
        ),
        run(select(points, seeds), points, max_iter, threshold).point_centroids == home,
        forall|i: int|
            0 <= i < points.len() ==> #[trigger] run(
                select(points, seeds),
                points,
                max_iter,
                threshold,
            ).centroids[home[i] as int] == points[i],
{
    lemma_first_search_rests(points, seeds, home, d);
    lemma_run_from_rests(
        initial_state(select(points, seeds), points),
        points,
        seeds,
        home,
        0,
        max_iter,
        threshold,
    );
    let result = run(select(points, seeds), points, max_iter, threshold);
    assert forall|i: int| 0 <= i < points.len() implies #[trigger] result.centroids[home[i] as int]
        == points[i] by {
        assert(home[i] < seeds.len() && seeds[home[i] as int] == i);
    }
}

/// Trivial convergence: where every point is a centroid at the start, the
/// points are distinct and of one dimension, and the arithmetic is exact on
/// them, a run under a threshold above zero ends in the iteration it begins
/// with. The centroids do not move, each point stays with the centroid that
/// it is, and no iteration is counted.
pub proof fn lemma_trivial_convergence<S: Scalar>(
    points: Seq<Seq<S>>,
    seeds: Seq<usize>,
    home: Seq<usize>,
    d: nat,
    max_iter: nat,
    threshold: S,
)
    requires
        points.len() > 0,
        uniform(points, d),
        seeds.len() == points.len(),
        is_home(seeds, home),
        exact_on(points),
        apart(points),
        S::zero_spec().lt_spec(threshold),
    ensures
        run(select(points, seeds), points, max_iter, threshold) == (ResultModel {
            centroids: select(points, seeds),
            iterations: 0,
            point_centroids: home,
        }),
        total_squared_movement(
            select(points, seeds),
            iterate(
                select(points, seeds),
                initial_state(select(points, seeds), points),
                points,
            ).0,
        ) == S::zero_spec(),
{
    let centroids = select(points, seeds);
    let first = initial_state(centroids, points);
    lemma_first_search_rests(points, seeds, home, d);
    lemma_run_from_rests(first, points, seeds, home, 0, max_iter, threshold);
    lemma_iteration_rests(first, points, seeds, home);
}

} // verus!
