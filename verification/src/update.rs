use vstd::prelude::*;
use crate::distance::{get_distance_squared, squared_distance};
use crate::nearest::rows;
use crate::scalar::Scalar;

verus! {

/// The mean of the points whose sum is `sum` and whose number is `count`:
/// each coordinate of the sum divided by the count as a scalar.
pub open spec fn mean<S: Scalar>(sum: Seq<S>, count: usize) -> Seq<S> {
    Seq::new(sum.len(), |t: int| sum[t].over_spec(S::from_count_spec(count)))
}

/// The position of each centroid after the update step: the mean of its
/// aggregate.
pub open spec fn means<S: Scalar>(sums: Seq<Seq<S>>, counts: Seq<usize>) -> Seq<Seq<S>> {
    Seq::new(sums.len(), |j: int| mean(sums[j], counts[j]))
}

/// For each centroid, the squared distance between its positions `before` and
/// `after`.
pub open spec fn squared_movements<S: Scalar>(
    before: Seq<Seq<S>>,
    after: Seq<Seq<S>>,
) -> Seq<S> {
    Seq::new(before.len(), |j: int| squared_distance(before[j], after[j]))
}

/// For each centroid, the distance between its positions `before` and
/// `after`.
pub open spec fn movements<S: Scalar>(before: Seq<Seq<S>>, after: Seq<Seq<S>>) -> Seq<S> {
    Seq::new(before.len(), |j: int| squared_distance(before[j], after[j]).sqrt_spec())
}

/// The first `n` items of `v`, added to zero one after the other.
pub open spec fn total_upto<S: Scalar>(v: Seq<S>, n: nat) -> S
    decreases n,
{
    if n == 0 {
        S::zero_spec()
    } else {
        total_upto(v, (n - 1) as nat).plus_spec(v[n - 1])
    }
}

/// The total squared movement of the centroids from `before` to `after`,
/// which is what convergence is judged by.
pub open spec fn total_squared_movement<S: Scalar>(
    before: Seq<Seq<S>>,
    after: Seq<Seq<S>>,
) -> S {
    total_upto(squared_movements(before, after), before.len())
}

/// The state of a search for the largest of the first `n` items of `v`, the
/// one at `skip` left out: the index of the largest so far, or -1 where none
/// was looked at yet. A later item takes over only when it comes strictly
/// after the largest so far in the total order, so of equal items the first
/// stays.
pub open spec fn largest_upto<S: Scalar>(v: Seq<S>, skip: int, n: nat) -> int
    decreases n,
{
    if n == 0 {
        -1
    } else {
        let best = largest_upto(v, skip, (n - 1) as nat);
        if n - 1 == skip {
            best
        } else if best < 0 || v[best].total_lt_spec(v[n - 1]) {
            n - 1
        } else {
            best
        }
    }
}

/// The index of the largest item of `v`.
pub open spec fn largest<S: Scalar>(v: Seq<S>) -> int {
    largest_upto(v, -1, v.len())
}

/// The index of the largest item of `v` but the one at `skip`.
pub open spec fn largest_except<S: Scalar>(v: Seq<S>, skip: int) -> int {
    largest_upto(v, skip, v.len())
}

/// The upper bounds after the centroids have moved: each grows by the
/// movement of the point's own centroid.
pub open spec fn corrected_upper<S: Scalar>(
    upper: Seq<S>,
    assignment: Seq<usize>,
    moved: Seq<S>,
) -> Seq<S> {
    Seq::new(upper.len(), |i: int| upper[i].plus_spec(moved[assignment[i] as int]))
}

/// The lower bounds after the centroids have moved: each shrinks by the
/// largest movement of a centroid other than the point's own, which is the
/// largest movement of all, or the second largest where the point's own
/// centroid moved most.
pub open spec fn corrected_lower<S: Scalar>(
    lower: Seq<S>,
    assignment: Seq<usize>,
    moved: Seq<S>,
) -> Seq<S> {
    let r = largest(moved);
    let r_another = largest_except(moved, r);
    Seq::new(
        lower.len(),
        |i: int|
            lower[i].minus_spec(
                if assignment[i] == r {
                    moved[r_another]
                } else {
                    moved[r]
                },
            ),
    )
}

/// A search for the largest item returns -1 or an item it has looked at.
pub proof fn lemma_largest_upto_range<S: Scalar>(v: Seq<S>, skip: int, n: nat)
    ensures
        largest_upto(v, skip, n) == -1 || (0 <= largest_upto(v, skip, n) < n && largest_upto(
            v,
            skip,
            n,
        ) != skip),
    decreases n,
{
    if n > 0 {
        lemma_largest_upto_range(v, skip, (n - 1) as nat);
    }
}

/// A search for the largest item finds one wherever there is an item to look
/// at: among one item or more where none is left out, among two or more
/// where one is.
pub proof fn lemma_largest_upto_found<S: Scalar>(v: Seq<S>, skip: int, n: nat)
    requires
        n >= 2 || (n == 1 && skip != 0),
    ensures
        0 <= largest_upto(v, skip, n) < n,
        largest_upto(v, skip, n) != skip,
    decreases n,
{
    lemma_largest_upto_range(v, skip, n);
    lemma_largest_upto_range(v, skip, (n - 1) as nat);
    if n - 1 == skip {
        lemma_largest_upto_found(v, skip, (n - 1) as nat);
    }
}

/// Finds the largest item of `v` but the one at `skip`, if there is any.
fn index_of_largest<S: Scalar>(v: &[S], skip: usize) -> (r: Option<usize>)
    ensures
        match r {
            Some(best) => best as int == largest_upto(v@, skip as int, v@.len()),
            None => largest_upto(v@, skip as int, v@.len()) == -1,
        },
{
    let mut best: Option<usize> = None;
    let mut j: usize = 0;
    while j < v.len()
        invariant
            j <= v.len(),
            match best {
                Some(b) => b as int == largest_upto(v@, skip as int, j as nat),
                None => largest_upto(v@, skip as int, j as nat) == -1,
            },
        decreases v.len() - j,
    {
        proof {
            lemma_largest_upto_range(v@, skip as int, j as nat);
        }
        if j != skip {
            best = match best {
                None => Some(j),
                Some(b) => if v[b].total_lt(v[j]) {
                    Some(j)
                } else {
                    Some(b)
                },
            };
        }
        j += 1;
    }
    best
}

/// Builds the mean of an aggregate.
fn mean_of<S: Scalar>(sum: &[S], count: usize) -> (r: Vec<S>)
    ensures
        r@ == mean(sum@, count),
{
    let divisor = S::from_count(count);
    let mut r: Vec<S> = Vec::new();
    let mut t: usize = 0;
    while t < sum.len()
        invariant
            t <= sum.len(),
            divisor == S::from_count_spec(count),
            r@.len() == t,
            forall|u: int| 0 <= u < t ==> r@[u] == mean(sum@, count)[u],
        decreases sum.len() - t,
    {
        r.push(sum[t].over(divisor));
        t += 1;
    }
    assert(r@ =~= mean(sum@, count));
    r
}

/// Runs the update step: moves each centroid to the mean of its aggregate,
/// records in `centroid_distance_to_previous_position` how far it moved, and
/// returns the total squared movement. The mean of an empty aggregate is
/// whatever the scalar division gives for a zero count.
pub fn move_centers<S: Scalar>(
    centroid_points_sum: &[Vec<S>],
    centroid_points_counts: &[usize],
    centroids: &mut [Vec<S>],
    centroid_distance_to_previous_position: &mut [S],
) -> (total_squared_distance_moved: S)
    requires
        centroid_points_sum@.len() == old(centroids)@.len(),
        centroid_points_counts@.len() == old(centroids)@.len(),
        old(centroid_distance_to_previous_position)@.len() == old(centroids)@.len(),
    ensures
        rows(final(centroids)@) == means(rows(centroid_points_sum@), centroid_points_counts@),
        final(centroid_distance_to_previous_position)@ == movements(
            rows(old(centroids)@),
            rows(final(centroids)@),
        ),
        total_squared_distance_moved == total_squared_movement(
            rows(old(centroids)@),
            rows(final(centroids)@),
        ),
{
    let k = centroids.len();
    let ghost before = rows(centroids@);
    let ghost sums = rows(centroid_points_sum@);
    let ghost after = means(sums, centroid_points_counts@);
    let mut total_squared_distance_moved = S::zero();
    let mut j: usize = 0;
    while j < k
        invariant
            j <= k,
            k == centroids@.len(),
            k == centroid_points_sum@.len(),
            k == centroid_points_counts@.len(),
            k == centroid_distance_to_previous_position@.len(),
            k == before.len(),
            before == rows(old(centroids)@),
            sums == rows(centroid_points_sum@),
            after == means(sums, centroid_points_counts@),
            forall|c: int| 0 <= c < j ==> (#[trigger] centroids@[c])@ == after[c],
            forall|c: int| j <= c < k ==> (#[trigger] centroids@[c])@ == before[c],
            forall|c: int|
                0 <= c < j ==> centroid_distance_to_previous_position@[c] == movements(
                    before,
                    after,
                )[c],
            total_squared_distance_moved == total_upto(
                squared_movements(before, after),
                j as nat,
            ),
        decreases k - j,
    {
        let position = mean_of(centroid_points_sum[j].as_slice(), centroid_points_counts[j]);
        assert(sums[j as int] == centroid_points_sum@[j as int]@);
        let squared_distance_moved = get_distance_squared(
            centroids[j].as_slice(),
            position.as_slice(),
        );
        centroids[j] = position;
        centroid_distance_to_previous_position[j] = squared_distance_moved.sqrt();
        total_squared_distance_moved = total_squared_distance_moved.plus(squared_distance_moved);
        j += 1;
    }
    assert(rows(centroids@) =~= after);
    assert(centroid_distance_to_previous_position@ =~= movements(before, after));
    total_squared_distance_moved
}

/// Corrects the bounds of every point for the movement of the centroids: the
/// upper bound grows by the movement of the point's own centroid, the lower
/// bound shrinks by the largest movement among the other centroids.
pub fn update_bounds<S: Scalar>(
    centroid_distance_to_previous_position: &[S],
    point_centroids: &[usize],
    upper_bounds: &mut [S],
    lower_bounds: &mut [S],
)
    requires
        centroid_distance_to_previous_position@.len() >= 2,
        old(upper_bounds)@.len() == point_centroids@.len(),
        old(lower_bounds)@.len() == point_centroids@.len(),
        forall|i: int|
            0 <= i < point_centroids@.len() ==> (#[trigger] point_centroids@[i])
                < centroid_distance_to_previous_position@.len(),
    ensures
        final(upper_bounds)@ == corrected_upper(
            old(upper_bounds)@,
            point_centroids@,
            centroid_distance_to_previous_position@,
        ),
        final(lower_bounds)@ == corrected_lower(
            old(lower_bounds)@,
            point_centroids@,
            centroid_distance_to_previous_position@,
        ),
{
    let ghost moved = centroid_distance_to_previous_position@;
    let k = centroid_distance_to_previous_position.len();
    proof {
        lemma_largest_upto_found(moved, k as int, k as nat);
        lemma_largest_upto_skip_outside(moved, k as int, k as nat);
    }
    let r = match index_of_largest(centroid_distance_to_previous_position, k) {
        Some(r) => r,
        None => 0,
    };
    proof {
        lemma_largest_upto_found(moved, r as int, k as nat);
    }
    let r_another = match index_of_largest(centroid_distance_to_previous_position, r) {
        Some(r_another) => r_another,
        None => 0,
    };
    let n = point_centroids.len();
    let mut i: usize = 0;
    while i < n
        invariant
            i <= n,
            n == point_centroids@.len(),
            n == upper_bounds@.len(),
            n == lower_bounds@.len(),
            n == old(upper_bounds)@.len(),
            n == old(lower_bounds)@.len(),
            k == moved.len(),
            moved == centroid_distance_to_previous_position@,
            r as int == largest(moved),
            r_another as int == largest_except(moved, r as int),
            r < k,
            r_another < k,
            forall|t: int| 0 <= t < n ==> (#[trigger] point_centroids@[t]) < k,
            forall|t: int|
                0 <= t < i ==> upper_bounds@[t] == corrected_upper(
                    old(upper_bounds)@,
                    point_centroids@,
                    moved,
                )[t],
            forall|t: int| i <= t < n ==> upper_bounds@[t] == old(upper_bounds)@[t],
            forall|t: int|
                0 <= t < i ==> lower_bounds@[t] == corrected_lower(
                    old(lower_bounds)@,
                    point_centroids@,
                    moved,
                )[t],
            forall|t: int| i <= t < n ==> lower_bounds@[t] == old(lower_bounds)@[t],
        decreases n - i,
    {
        let point_centroid = point_centroids[i];
        upper_bounds[i] = upper_bounds[i].plus(
            centroid_distance_to_previous_position[point_centroid],
        );
        if r == point_centroid {
            lower_bounds[i] = lower_bounds[i].minus(
                centroid_distance_to_previous_position[r_another],
            );
        } else {
            lower_bounds[i] = lower_bounds[i].minus(centroid_distance_to_previous_position[r]);
        }
        i += 1;
    }
    assert(upper_bounds@ =~= corrected_upper(old(upper_bounds)@, point_centroids@, moved));
    assert(lower_bounds@ =~= corrected_lower(old(lower_bounds)@, point_centroids@, moved));
}

/// A centroid to leave out that lies outside the first `n` changes nothing.
pub proof fn lemma_largest_upto_skip_outside<S: Scalar>(v: Seq<S>, skip: int, n: nat)
    requires
        skip < 0 || skip >= n,
    ensures
        largest_upto(v, skip, n) == largest_upto(v, -1, n),
    decreases n,
{
    if n > 0 {
        lemma_largest_upto_skip_outside(v, skip, (n - 1) as nat);
    }
}

} // verus!
