use vstd::prelude::*;
use crate::assignment::{assign_points, assignment_step, lemma_assign_points_upto_wf, sibling_distances};
use crate::bounds::{initial_state, initialize, uniform, BoundModel};
use crate::errors::KmeansError;
use crate::nearest::{get_min_centroid, nearest, rows};
use crate::scalar::Scalar;
use crate::seeding::{get_centroids, select, valid_seeds};
use crate::update::{
    corrected_lower, corrected_upper, means, move_centers, movements, total_squared_movement,
    update_bounds,
};

verus! {

/// What a run of the algorithm returns.
pub struct HamerlyKmeansResult<S> {
    /// The final position of each centroid.
    pub centroids: Vec<Vec<S>>,
    /// The number of iterations that were completed without convergence.
    pub iterations: usize,
    /// For each point, the index of the centroid it is assigned to.
    pub point_centroids: Vec<usize>,
}

/// The mathematical value of a [`HamerlyKmeansResult`].
pub struct ResultModel<S> {
    pub centroids: Seq<Seq<S>>,
    pub iterations: nat,
    pub point_centroids: Seq<usize>,
}

impl<S> View for HamerlyKmeansResult<S> {
    type V = ResultModel<S>;

    open spec fn view(&self) -> ResultModel<S> {
        ResultModel {
            centroids: rows(self.centroids@),
            iterations: self.iterations as nat,
            point_centroids: self.point_centroids@,
        }
    }
}

/// One iteration: the assignment step under `centroids`, the update step,
/// and the correction of the bounds. Gives the centroids and the bound state
/// after it, and the total squared movement of the centroids.
pub open spec fn iterate<S: Scalar>(
    centroids: Seq<Seq<S>>,
    state: BoundModel<S>,
    points: Seq<Seq<S>>,
) -> (Seq<Seq<S>>, BoundModel<S>, S) {
    let assigned = assign_points(state, centroids, points);
    let after = means(assigned.sums, assigned.counts);
    let moved = movements(centroids, after);
    let corrected = BoundModel {
        upper: corrected_upper(assigned.upper, assigned.assignment, moved),
        lower: corrected_lower(assigned.lower, assigned.assignment, moved),
        ..assigned
    };
    (after, corrected, total_squared_movement(centroids, after))
}

/// The result of running on from `centroids` and `state` with `iterations`
/// iterations done. The run ends when `max_iter` iterations are done, or
/// with the first iteration whose total squared movement is strictly below
/// `threshold`; that last iteration still moves the centroids but is not
/// counted.
pub open spec fn run_from<S: Scalar>(
    centroids: Seq<Seq<S>>,
    state: BoundModel<S>,
    points: Seq<Seq<S>>,
    iterations: nat,
    max_iter: nat,
    threshold: S,
) -> ResultModel<S>
    decreases max_iter - iterations,
{
    if iterations >= max_iter {
        ResultModel { centroids, iterations, point_centroids: state.assignment }
    } else {
        let next = iterate(centroids, state, points);
        if next.2.lt_spec(threshold) {
            ResultModel { centroids: next.0, iterations, point_centroids: next.1.assignment }
        } else {
            run_from(next.0, next.1, points, iterations + 1, max_iter, threshold)
        }
    }
}

/// The result of a whole run that starts from `centroids`: a full search of
/// every point, then iterations until the centroids move less than
/// `threshold` or `max_iter` iterations are done.
pub open spec fn run<S: Scalar>(
    centroids: Seq<Seq<S>>,
    points: Seq<Seq<S>>,
    max_iter: nat,
    threshold: S,
) -> ResultModel<S> {
    run_from(centroids, initial_state(centroids, points), points, 0, max_iter, threshold)
}

/// An iteration keeps the bound state well-formed and the number and
/// dimension of the centroids.
pub proof fn lemma_iterate_wf<S: Scalar>(
    centroids: Seq<Seq<S>>,
    state: BoundModel<S>,
    points: Seq<Seq<S>>,
    d: nat,
)
    requires
        centroids.len() > 0,
        state.wf(centroids.len(), points.len(), d),
    ensures
        iterate(centroids, state, points).0.len() == centroids.len(),
        iterate(centroids, state, points).0[0].len() == d,
        iterate(centroids, state, points).1.wf(centroids.len(), points.len(), d),
{
    lemma_assign_points_upto_wf(
        state,
        centroids,
        sibling_distances(centroids),
        points,
        points.len(),
        points.len(),
        d,
    );
    let assigned = assign_points(state, centroids, points);
    assert(assigned.sums[0].len() == d);
}

/// Runs the algorithm from the given initial centroids: a full search of
/// every point, then assignment step, update step and bound correction in
/// turn, until the centroids move less than `convergence_threshold` in total
/// squared distance or `max_iter` iterations are done.
pub fn hamerly_kmeans_from<S: Scalar>(
    centroids: Vec<Vec<S>>,
    max_iter: usize,
    convergence_threshold: S,
    points: &[Vec<S>],
) -> (result: HamerlyKmeansResult<S>)
    requires
        centroids@.len() >= 2,
    ensures
        result@ == run(rows(centroids@), rows(points@), max_iter as nat, convergence_threshold),
        result@.iterations <= max_iter,
        result@.centroids.len() == centroids@.len(),
        result@.point_centroids.len() == points@.len(),
        forall|i: int|
            0 <= i < points@.len() ==> (#[trigger] result@.point_centroids[i]) < centroids@.len(),
        forall|d: nat| uniform(rows(centroids@), d) ==> uniform(result@.centroids, d),
{
    let ghost start = rows(centroids@);
    let ghost ps = rows(points@);
    let ghost target = run(start, ps, max_iter as nat, convergence_threshold);
    let ghost d = centroids@[0]@.len();
    let k = centroids.len();
    let mut current = centroids;
    let mut state = initialize(current.as_slice(), points);
    let mut centroid_distance_to_previous_position: Vec<S> = Vec::new();
    let mut j: usize = 0;
    while j < k
        invariant
            j <= k,
            centroid_distance_to_previous_position@.len() == j,
        decreases k - j,
    {
        centroid_distance_to_previous_position.push(S::max_value());
        j += 1;
    }
    let mut iterations: usize = 0;
    while iterations < max_iter
        invariant
            iterations <= max_iter,
            k >= 2,
            k == start.len(),
            k == current@.len(),
            start == rows(centroids@),
            target == run(start, ps, max_iter as nat, convergence_threshold),
            k == centroid_distance_to_previous_position@.len(),
            ps == rows(points@),
            d == current@[0]@.len(),
            state@.wf(k as nat, ps.len(), d),
            forall|e: nat| uniform(start, e) ==> uniform(rows(current@), e),
            target == run_from(
                rows(current@),
                state@,
                ps,
                iterations as nat,
                max_iter as nat,
                convergence_threshold,
            ),
        decreases max_iter - iterations,
    {
        let ghost before = rows(current@);
        let ghost old_state = state@;
        proof {
            lemma_iterate_wf(before, old_state, ps, d);
        }
        assignment_step(current.as_slice(), points, &mut state);
        let total_squared_distance_moved = move_centers(
            state.centroid_points_sum.as_slice(),
            state.centroid_points_counts.as_slice(),
            &mut current,
            &mut centroid_distance_to_previous_position,
        );
        update_bounds(
            centroid_distance_to_previous_position.as_slice(),
            state.point_centroids.as_slice(),
            &mut state.upper_bounds,
            &mut state.lower_bounds,
        );
        assert(rows(current@) == iterate(before, old_state, ps).0);
        assert(state@ == iterate(before, old_state, ps).1);
        assert(current@[0]@ == rows(current@)[0]);
        assert forall|e: nat| uniform(start, e) implies uniform(rows(current@), e) by {
            assert(uniform(before, e));
            assert(before[0].len() == e);
            assert forall|c: int| 0 <= c < k implies (#[trigger] rows(current@)[c]).len() == e by {
                assert(state@.sums[c].len() == d);
            }
        }
        if total_squared_distance_moved.lt(convergence_threshold) {
            return HamerlyKmeansResult {
                centroids: current,
                iterations,
                point_centroids: state.point_centroids,
            };
        }
        iterations += 1;
    }
    HamerlyKmeansResult { centroids: current, iterations, point_centroids: state.point_centroids }
}

/// The result of a run on no points: no centroids, no iterations.
pub open spec fn empty_result<S>() -> ResultModel<S> {
    ResultModel { centroids: Seq::empty(), iterations: 0, point_centroids: Seq::empty() }
}

/// Clusters `points` around `k` centroids. The initial centroids are `k`
/// distinct points that a seeded generator picks; from there the run is that
/// of [`hamerly_kmeans_from`]. Without points the result is empty. With
/// points, fewer than two clusters are turned down, and so are more clusters
/// than there are points.
pub fn hamerly_kmeans<S: Scalar>(
    k: usize,
    max_iter: usize,
    convergence_threshold: S,
    points: Vec<Vec<S>>,
) -> (r: Result<HamerlyKmeansResult<S>, KmeansError>)
    ensures
        points@.len() > 0 && k < 2 <==> r is Err && r->Err_0 == KmeansError::TooFewClusters,
        points@.len() > 0 && 2 <= k && points@.len() < k <==> r is Err && r->Err_0
            == KmeansError::InsufficientPoints,
        r is Err ==> r->Err_0 == KmeansError::TooFewClusters || r->Err_0
            == KmeansError::InsufficientPoints,
        r matches Ok(result) ==> {
            &&& result@.iterations <= max_iter
            &&& result@.point_centroids.len() == points@.len()
            &&& points@.len() == 0 ==> result@ == empty_result::<S>()
            &&& points@.len() > 0 ==> {
                &&& result@.centroids.len() == k
                &&& forall|i: int|
                    0 <= i < points@.len() ==> (#[trigger] result@.point_centroids[i]) < k
                &&& exists|seeds: Seq<usize>|
                    seeds.len() == k && valid_seeds(seeds, points@.len()) && result@ == run(
                        #[trigger] select(rows(points@), seeds),
                        rows(points@),
                        max_iter as nat,
                        convergence_threshold,
                    )
            }
        },
{
    if points.len() == 0 {
        let result = HamerlyKmeansResult {
            centroids: Vec::new(),
            iterations: 0,
            point_centroids: Vec::new(),
        };
        assert(result@.centroids =~= empty_result::<S>().centroids);
        assert(result@.point_centroids =~= empty_result::<S>().point_centroids);
        return Ok(result);
    }
    if k < 2 {
        return Err(KmeansError::TooFewClusters);
    }
    match get_centroids(points.as_slice(), k) {
        Err(e) => Err(e),
        Ok(centroids) => {
            assert(rows(centroids@).len() == k);
            let result = hamerly_kmeans_from(
                centroids,
                max_iter,
                convergence_threshold,
                points.as_slice(),
            );
            Ok(result)
        },
    }
}

impl<S: Scalar> HamerlyKmeansResult<S> {
    /// Tells which cluster a new point belongs to: the index of the centroid
    /// nearest to it by Euclidean distance, the first of equally near ones.
    /// Fails where there are no centroids, and where the point does not have
    /// the dimension of the centroids.
    pub fn test(&self, point: &[S]) -> (r: Result<usize, KmeansError>)
        ensures
            self@.centroids.len() == 0 ==> r is Err && r->Err_0 == KmeansError::NoCentroids,
            self@.centroids.len() > 0 && point@.len() != self@.centroids[0].len() ==> r is Err
                && r->Err_0 == KmeansError::DimensionMismatch,
            self@.centroids.len() > 0 && point@.len() == self@.centroids[0].len() ==> r is Ok
                && r->Ok_0 as int == nearest(point@, self@.centroids).0 && r->Ok_0
                < self@.centroids.len(),
    {
        if self.centroids.len() == 0 {
            return Err(KmeansError::NoCentroids);
        }
        assert(self@.centroids[0] == self.centroids@[0]@);
        if point.len() != self.centroids[0].len() {
            return Err(KmeansError::DimensionMismatch);
        }
        let found = get_min_centroid(point, self.centroids.as_slice());
        Ok(found.0)
    }
}

} // verus!
