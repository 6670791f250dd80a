use vstd::prelude::*;
use crate::nearest::{nearest, nearest_except, point_all_centers, rows};
use crate::scalar::Scalar;

verus! {

/// What Hamerly's algorithm keeps for a set of points next to the centroids:
/// the assignment, the two distance bounds of each point and the aggregate of
/// each centroid.
pub struct BoundState<S> {
    /// For each centroid, the number of points assigned to it.
    pub centroid_points_counts: Vec<usize>,
    /// For each centroid, the sum of the points assigned to it.
    pub centroid_points_sum: Vec<Vec<S>>,
    /// For each point, an upper bound on the distance to its centroid.
    pub upper_bounds: Vec<S>,
    /// For each point, a lower bound on the distance to the nearest centroid
    /// other than its own.
    pub lower_bounds: Vec<S>,
    /// For each point, the index of the centroid it is assigned to.
    pub point_centroids: Vec<usize>,
}

/// The mathematical value of a [`BoundState`].
pub struct BoundModel<S> {
    pub counts: Seq<usize>,
    pub sums: Seq<Seq<S>>,
    pub upper: Seq<S>,
    pub lower: Seq<S>,
    pub assignment: Seq<usize>,
}

impl<S> View for BoundState<S> {
    type V = BoundModel<S>;

    open spec fn view(&self) -> BoundModel<S> {
        BoundModel {
            counts: self.centroid_points_counts@,
            sums: rows(self.centroid_points_sum@),
            upper: self.upper_bounds@,
            lower: self.lower_bounds@,
            assignment: self.point_centroids@,
        }
    }
}

/// How many of the first `n` points are assigned to centroid `j`.
pub open spec fn members_upto(assignment: Seq<usize>, j: int, n: nat) -> nat
    decreases n,
{
    if n == 0 {
        0
    } else {
        members_upto(assignment, j, (n - 1) as nat) + if assignment[n - 1] == j {
            1nat
        } else {
            0nat
        }
    }
}

/// How many points are assigned to centroid `j`.
pub open spec fn members(assignment: Seq<usize>, j: int) -> nat {
    members_upto(assignment, j, assignment.len())
}

/// The sum of the first `n` counts.
pub open spec fn total_count_upto(counts: Seq<usize>, n: nat) -> nat
    decreases n,
{
    if n == 0 {
        0
    } else {
        total_count_upto(counts, (n - 1) as nat) + counts[n - 1] as nat
    }
}

/// The sum of all counts.
pub open spec fn total_count(counts: Seq<usize>) -> nat {
    total_count_upto(counts, counts.len())
}

/// `a` with `b` added coordinate by coordinate, over the coordinates that
/// both have.
pub open spec fn vec_plus<S: Scalar>(a: Seq<S>, b: Seq<S>) -> Seq<S> {
    Seq::new(
        a.len(),
        |t: int|
            if t < b.len() {
                a[t].plus_spec(b[t])
            } else {
                a[t]
            },
    )
}

/// `a` with `b` subtracted coordinate by coordinate, over the coordinates
/// that both have.
pub open spec fn vec_minus<S: Scalar>(a: Seq<S>, b: Seq<S>) -> Seq<S> {
    Seq::new(
        a.len(),
        |t: int|
            if t < b.len() {
                a[t].minus_spec(b[t])
            } else {
                a[t]
            },
    )
}

/// The vector of `d` zeros.
pub open spec fn zeros<S: Scalar>(d: nat) -> Seq<S> {
    Seq::new(d, |t: int| S::zero_spec())
}

/// The sum of those of the first `n` points that are assigned to centroid
/// `j`, added to the zero vector of dimension `d` in the order of the points.
pub open spec fn cluster_sum_upto<S: Scalar>(
    points: Seq<Seq<S>>,
    assignment: Seq<usize>,
    j: int,
    d: nat,
    n: nat,
) -> Seq<S>
    decreases n,
{
    if n == 0 {
        zeros(d)
    } else {
        let before = cluster_sum_upto(points, assignment, j, d, (n - 1) as nat);
        if assignment[n - 1] == j {
            vec_plus(before, points[n - 1])
        } else {
            before
        }
    }
}

/// Whether every vector of `vs` has dimension `d`.
pub open spec fn uniform<S>(vs: Seq<Seq<S>>, d: nat) -> bool {
    forall|i: int| 0 <= i < vs.len() ==> (#[trigger] vs[i]).len() == d
}

impl<S> BoundModel<S> {
    /// Whether this is the state of `n` points of dimension `d` under `k`
    /// centroids: the sizes agree and can be held in memory, every point is
    /// assigned to one of the centroids, and each count is the number of
    /// points assigned there.
    pub open spec fn wf(self, k: nat, n: nat, d: nat) -> bool {
        &&& k <= usize::MAX
        &&& n <= usize::MAX
        &&& self.counts.len() == k
        &&& self.sums.len() == k
        &&& uniform(self.sums, d)
        &&& self.upper.len() == n
        &&& self.lower.len() == n
        &&& self.assignment.len() == n
        &&& forall|i: int| 0 <= i < n ==> (#[trigger] self.assignment[i]) < k
        &&& forall|j: int| 0 <= j < k ==> (#[trigger] self.counts[j]) == members(self.assignment, j)
    }
}

/// The bound state that a full search of every point gives: each point goes
/// to its nearest centroid, its upper bound is the distance to that one, its
/// lower bound the distance to the nearest of the others; each centroid
/// counts and sums its points.
pub open spec fn initial_state<S: Scalar>(
    centroids: Seq<Seq<S>>,
    points: Seq<Seq<S>>,
) -> BoundModel<S> {
    let assignment = Seq::new(
        points.len(),
        |i: int| nearest(points[i], centroids).0 as usize,
    );
    BoundModel {
        counts: Seq::new(centroids.len(), |j: int| members(assignment, j) as usize),
        sums: Seq::new(
            centroids.len(),
            |j: int| cluster_sum_upto(points, assignment, j, centroids[0].len(), points.len()),
        ),
        upper: Seq::new(points.len(), |i: int| nearest(points[i], centroids).1),
        lower: Seq::new(
            points.len(),
            |i: int| nearest_except(points[i], centroids, nearest(points[i], centroids).0).1,
        ),
        assignment,
    }
}

/// A count never exceeds the number of points counted.
pub proof fn lemma_members_upto_bound(assignment: Seq<usize>, j: int, n: nat)
    ensures
        members_upto(assignment, j, n) <= n,
    decreases n,
{
    if n > 0 {
        lemma_members_upto_bound(assignment, j, (n - 1) as nat);
    }
}

/// A sum over the first `n` points looks at no others.
pub proof fn lemma_cluster_sum_upto_prefix<S: Scalar>(
    points: Seq<Seq<S>>,
    a: Seq<usize>,
    b: Seq<usize>,
    j: int,
    d: nat,
    n: nat,
)
    requires
        n <= a.len(),
        n <= b.len(),
        forall|i: int| 0 <= i < n ==> a[i] == b[i],
    ensures
        cluster_sum_upto(points, a, j, d, n) == cluster_sum_upto(points, b, j, d, n),
    decreases n,
{
    if n > 0 {
        lemma_cluster_sum_upto_prefix(points, a, b, j, d, (n - 1) as nat);
    }
}

/// A cluster sum has the dimension it started with.
pub proof fn lemma_cluster_sum_upto_len<S: Scalar>(
    points: Seq<Seq<S>>,
    assignment: Seq<usize>,
    j: int,
    d: nat,
    n: nat,
)
    ensures
        cluster_sum_upto(points, assignment, j, d, n).len() == d,
    decreases n,
{
    if n > 0 {
        lemma_cluster_sum_upto_len(points, assignment, j, d, (n - 1) as nat);
    }
}

/// Builds the vector of `d` zeros.
fn zero_vector<S: Scalar>(d: usize) -> (v: Vec<S>)
    ensures
        v@ == zeros::<S>(d as nat),
{
    let mut v: Vec<S> = Vec::new();
    let mut t: usize = 0;
    while t < d
        invariant
            t <= d,
            v@.len() == t,
            forall|u: int| 0 <= u < t ==> v@[u] == S::zero_spec(),
        decreases d - t,
    {
        v.push(S::zero());
        t += 1;
    }
    assert(v@ =~= zeros::<S>(d as nat));
    v
}

/// Adds `point` to row `j` of `sums`, coordinate by coordinate.
pub(crate) fn add_point<S: Scalar>(sums: &mut Vec<Vec<S>>, j: usize, point: &[S])
    requires
        j < old(sums)@.len(),
    ensures
        final(sums)@.len() == old(sums)@.len(),
        rows(final(sums)@) == rows(old(sums)@).update(
            j as int,
            vec_plus(rows(old(sums)@)[j as int], point@),
        ),
{
    let ghost before = sums@[j as int]@;
    let len = sums[j].len();
    let mut row: Vec<S> = Vec::new();
    let mut t: usize = 0;
    while t < len
        invariant
            t <= len,
            j < sums@.len(),
            len == before.len(),
            sums@[j as int]@ == before,
            row@.len() == t,
            forall|u: int| 0 <= u < t ==> row@[u] == vec_plus(before, point@)[u],
        decreases len - t,
    {
        let x = sums[j][t];
        if t < point.len() {
            row.push(x.plus(point[t]));
        } else {
            row.push(x);
        }
        t += 1;
    }
    assert(row@ =~= vec_plus(before, point@));
    sums[j] = row;
    assert(rows(sums@) =~= rows(old(sums)@).update(j as int, vec_plus(before, point@)));
}

/// Subtracts `point` from row `j` of `sums`, coordinate by coordinate.
pub(crate) fn subtract_point<S: Scalar>(sums: &mut Vec<Vec<S>>, j: usize, point: &[S])
    requires
        j < old(sums)@.len(),
    ensures
        final(sums)@.len() == old(sums)@.len(),
        rows(final(sums)@) == rows(old(sums)@).update(
            j as int,
            vec_minus(rows(old(sums)@)[j as int], point@),
        ),
{
    let ghost before = sums@[j as int]@;
    let len = sums[j].len();
    let mut row: Vec<S> = Vec::new();
    let mut t: usize = 0;
    while t < len
        invariant
            t <= len,
            j < sums@.len(),
            len == before.len(),
            sums@[j as int]@ == before,
            row@.len() == t,
            forall|u: int| 0 <= u < t ==> row@[u] == vec_minus(before, point@)[u],
        decreases len - t,
    {
        let x = sums[j][t];
        if t < point.len() {
            row.push(x.minus(point[t]));
        } else {
            row.push(x);
        }
        t += 1;
    }
    assert(row@ =~= vec_minus(before, point@));
    sums[j] = row;
    assert(rows(sums@) =~= rows(old(sums)@).update(j as int, vec_minus(before, point@)));
}

/// Builds the bound state for `points` under `centroids` by a full search of
/// every point: the nearest centroid, the distance to it, and the distance to
/// the nearest of the others. Each centroid counts and sums the points that
/// fall to it.
pub fn initialize<S: Scalar>(centroids: &[Vec<S>], points: &[Vec<S>]) -> (state: BoundState<S>)
    requires
        centroids@.len() > 0,
    ensures
        state@ == initial_state(rows(centroids@), rows(points@)),
        state@.wf(centroids@.len(), points@.len(), centroids@[0]@.len()),
{
    let k = centroids.len();
    let n = points.len();
    let d = centroids[0].len();
    let ghost cs = rows(centroids@);
    let ghost ps = rows(points@);
    let ghost target = initial_state(cs, ps);

    let mut centroid_points_counts: Vec<usize> = Vec::new();
    let mut centroid_points_sum: Vec<Vec<S>> = Vec::new();
    let mut j: usize = 0;
    while j < k
        invariant
            j <= k,
            centroid_points_counts@.len() == j,
            centroid_points_sum@.len() == j,
            forall|c: int| 0 <= c < j ==> centroid_points_counts@[c] == 0,
            forall|c: int| 0 <= c < j ==> (#[trigger] centroid_points_sum@[c])@ == zeros::<S>(d as nat),
        decreases k - j,
    {
        centroid_points_counts.push(0);
        centroid_points_sum.push(zero_vector(d));
        j += 1;
    }

    let mut upper_bounds: Vec<S> = Vec::new();
    let mut lower_bounds: Vec<S> = Vec::new();
    let mut point_centroids: Vec<usize> = Vec::new();
    let mut i: usize = 0;
    while i < n
        invariant
            i <= n,
            n == points@.len(),
            k == centroids@.len(),
            k > 0,
            d == cs[0].len(),
            cs == rows(centroids@),
            ps == rows(points@),
            target == initial_state(cs, ps),
            upper_bounds@.len() == i,
            lower_bounds@.len() == i,
            point_centroids@.len() == i,
            forall|t: int| 0 <= t < i ==> upper_bounds@[t] == target.upper[t],
            forall|t: int| 0 <= t < i ==> lower_bounds@[t] == target.lower[t],
            forall|t: int| 0 <= t < i ==> point_centroids@[t] == target.assignment[t],
            centroid_points_counts@.len() == k,
            centroid_points_sum@.len() == k,
            forall|c: int|
                0 <= c < k ==> centroid_points_counts@[c] == members_upto(
                    target.assignment,
                    c,
                    i as nat,
                ),
            forall|c: int|
                0 <= c < k ==> (#[trigger] centroid_points_sum@[c])@ == cluster_sum_upto(
                    ps,
                    target.assignment,
                    c,
                    d as nat,
                    i as nat,
                ),
        decreases n - i,
    {
        let point = points[i].as_slice();
        let mut upper_bound = S::zero();
        let mut lower_bound = S::zero();
        let mut point_centroid: usize = 0;
        point_all_centers(
            point,
            centroids,
            &mut upper_bound,
            &mut lower_bound,
            &mut point_centroid,
        );
        assert(ps[i as int] == point@);
        assert(point_centroid == target.assignment[i as int]);
        proof {
            lemma_members_upto_bound(target.assignment, point_centroid as int, i as nat);
        }
        let ghost sums_before = centroid_points_sum@;
        centroid_points_counts[point_centroid] = centroid_points_counts[point_centroid] + 1;
        add_point(&mut centroid_points_sum, point_centroid, point);
        upper_bounds.push(upper_bound);
        lower_bounds.push(lower_bound);
        point_centroids.push(point_centroid);
        assert forall|c: int| 0 <= c < k implies (#[trigger] centroid_points_sum@[c])@
            == cluster_sum_upto(ps, target.assignment, c, d as nat, (i + 1) as nat) by {
            assert(rows(centroid_points_sum@)[c] == centroid_points_sum@[c]@);
            assert(rows(sums_before)[c] == sums_before[c]@);
        }
        i += 1;
    }

    let state = BoundState {
        centroid_points_counts,
        centroid_points_sum,
        upper_bounds,
        lower_bounds,
        point_centroids,
    };
    proof {
        assert(state@.counts =~= target.counts);
        assert(state@.sums =~= target.sums);
        assert(state@.upper =~= target.upper);
        assert(state@.lower =~= target.lower);
        assert(state@.assignment =~= target.assignment);
        assert forall|t: int| 0 <= t < n implies (#[trigger] state@.assignment[t]) < k by {
            crate::nearest::lemma_nearest_upto_in_range(ps[t], cs, -1, cs.len());
        }
        assert forall|c: int| 0 <= c < k implies (#[trigger] state@.sums[c]).len() == d by {
            lemma_cluster_sum_upto_len(ps, target.assignment, c, d as nat, n as nat);
        }
    }
    state
}

} // verus!
