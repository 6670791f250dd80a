use vstd::prelude::*;
use crate::distance::{get_distance_squared, squared_distance};
use crate::scalar::Scalar;

verus! {

/// The coordinate sequences of a list of vectors.
pub open spec fn rows<S>(v: Seq<Vec<S>>) -> Seq<Seq<S>> {
    Seq::new(v.len(), |i: int| v[i]@)
}

/// The state of a search for the centroid nearest to `point` after the first
/// `n` centroids: the index of the best one so far and its squared distance.
///
/// The search starts at index 0 with the largest finite scalar. A centroid
/// takes over only when its squared distance is strictly below the best so
/// far, so of equally near centroids the first stays, and a centroid at
/// `skip` is never looked at.
pub open spec fn nearest_upto<S: Scalar>(
    point: Seq<S>,
    centroids: Seq<Seq<S>>,
    skip: int,
    n: nat,
) -> (int, S)
    decreases n,
{
    if n == 0 {
        (0, S::max_value_spec())
    } else {
        let best = nearest_upto(point, centroids, skip, (n - 1) as nat);
        let d = squared_distance(point, centroids[n - 1]);
        if n - 1 != skip && d.lt_spec(best.1) {
            (n - 1, d)
        } else {
            best
        }
    }
}

/// The index of the centroid nearest to `point`, and the distance to it.
pub open spec fn nearest<S: Scalar>(point: Seq<S>, centroids: Seq<Seq<S>>) -> (int, S) {
    let best = nearest_upto(point, centroids, -1, centroids.len());
    (best.0, best.1.sqrt_spec())
}

/// The index of the centroid nearest to `point` among all but the one at
/// `skip`, and the distance to it.
pub open spec fn nearest_except<S: Scalar>(
    point: Seq<S>,
    centroids: Seq<Seq<S>>,
    skip: int,
) -> (int, S) {
    let best = nearest_upto(point, centroids, skip, centroids.len());
    (best.0, best.1.sqrt_spec())
}

/// A search never leaves the centroids it has looked at: its index is below
/// `n`, or is 0 where nothing was looked at.
pub proof fn lemma_nearest_upto_in_range<S: Scalar>(
    point: Seq<S>,
    centroids: Seq<Seq<S>>,
    skip: int,
    n: nat,
)
    ensures
        0 <= nearest_upto(point, centroids, skip, n).0,
        n > 0 ==> nearest_upto(point, centroids, skip, n).0 < n,
        n == 0 ==> nearest_upto(point, centroids, skip, n).0 == 0,
    decreases n,
{
    if n > 0 {
        lemma_nearest_upto_in_range(point, centroids, skip, (n - 1) as nat);
    }
}

/// A search that skips a centroid never returns it, unless it is the one at
/// index 0 and no other centroid was near enough to take over.
pub proof fn lemma_nearest_upto_avoids_skip<S: Scalar>(
    point: Seq<S>,
    centroids: Seq<Seq<S>>,
    skip: int,
    n: nat,
)
    requires
        skip != 0,
    ensures
        nearest_upto(point, centroids, skip, n).0 != skip,
    decreases n,
{
    if n > 0 {
        lemma_nearest_upto_avoids_skip(point, centroids, skip, (n - 1) as nat);
    }
}

/// A centroid to skip that lies outside the first `n` changes nothing.
pub proof fn lemma_nearest_upto_skip_outside<S: Scalar>(
    point: Seq<S>,
    centroids: Seq<Seq<S>>,
    skip: int,
    n: nat,
)
    requires
        skip < 0 || skip >= n,
    ensures
        nearest_upto(point, centroids, skip, n) == nearest_upto(point, centroids, -1, n),
    decreases n,
{
    if n > 0 {
        lemma_nearest_upto_skip_outside(point, centroids, skip, (n - 1) as nat);
    }
}

/// The search that both `get_min_centroid` functions run; `skip` is the
/// centroid to pass over, or an index past the last for none.
fn search<S: Scalar>(point: &[S], centroids: &[Vec<S>], skip: usize) -> (r: (usize, S))
    ensures
        (r.0 as int, r.1) == nearest_upto(
            point@,
            rows(centroids@),
            skip as int,
            centroids@.len(),
        ),
{
    let ghost cs = rows(centroids@);
    let mut min_distance_squared = S::max_value();
    let mut min_index: usize = 0;
    let mut j: usize = 0;
    while j < centroids.len()
        invariant
            j <= centroids.len(),
            cs == rows(centroids@),
            (min_index as int, min_distance_squared) == nearest_upto(
                point@,
                cs,
                skip as int,
                j as nat,
            ),
        decreases centroids.len() - j,
    {
        if j != skip {
            let distance_squared = get_distance_squared(point, centroids[j].as_slice());
            if distance_squared.lt(min_distance_squared) {
                min_distance_squared = distance_squared;
                min_index = j;
            }
        }
        j += 1;
    }
    (min_index, min_distance_squared)
}

/// Finds the centroid nearest to `point`: its index and the distance to it.
/// Of equally near centroids the first wins; without centroids the result is
/// index 0 at the square root of the largest finite scalar.
pub fn get_min_centroid<S: Scalar>(point: &[S], centroids: &[Vec<S>]) -> (r: (usize, S))
    ensures
        (r.0 as int, r.1) == nearest(point@, rows(centroids@)),
        centroids@.len() > 0 ==> r.0 < centroids@.len(),
{
    let found = search(point, centroids, centroids.len());
    proof {
        lemma_nearest_upto_skip_outside(
            point@,
            rows(centroids@),
            centroids@.len() as int,
            centroids@.len(),
        );
        lemma_nearest_upto_in_range(point@, rows(centroids@), -1, centroids@.len());
    }
    (found.0, found.1.sqrt())
}

/// Finds the centroid nearest to `point` among all but the one at
/// `point_centroid`: its index and the distance to it. With `point_centroid`
/// the point's own centroid, that distance is the point's lower bound. Where
/// no other centroid is near enough to be found, the result is index 0 at the
/// square root of the largest finite scalar.
pub fn get_min_centroid_skip_point_centroid<S: Scalar>(
    point: &[S],
    centroids: &[Vec<S>],
    point_centroid: usize,
) -> (r: (usize, S))
    ensures
        (r.0 as int, r.1) == nearest_except(point@, rows(centroids@), point_centroid as int),
        centroids@.len() > 0 ==> r.0 < centroids@.len(),
        point_centroid != 0 ==> r.0 != point_centroid,
{
    let found = search(point, centroids, point_centroid);
    proof {
        lemma_nearest_upto_in_range(
            point@,
            rows(centroids@),
            point_centroid as int,
            centroids@.len(),
        );
        if point_centroid != 0 {
            lemma_nearest_upto_avoids_skip(
                point@,
                rows(centroids@),
                point_centroid as int,
                centroids@.len(),
            );
        }
    }
    (found.0, found.1.sqrt())
}

/// Searches all centroids for `point`: sets `point_centroid` to the nearest
/// one, `upper_bound` to the distance to it, and `lower_bound` to the distance
/// to the nearest of the others.
pub fn point_all_centers<S: Scalar>(
    point: &[S],
    centroids: &[Vec<S>],
    upper_bound: &mut S,
    lower_bound: &mut S,
    point_centroid: &mut usize,
)
    ensures
        (*final(point_centroid) as int, *final(upper_bound)) == nearest(
            point@,
            rows(centroids@),
        ),
        *final(lower_bound) == nearest_except(
            point@,
            rows(centroids@),
            *final(point_centroid) as int,
        ).1,
        centroids@.len() > 0 ==> *final(point_centroid) < centroids@.len(),
{
    let nearest_one = get_min_centroid(point, centroids);
    *point_centroid = nearest_one.0;
    *upper_bound = nearest_one.1;
    let second = get_min_centroid_skip_point_centroid(point, centroids, nearest_one.0);
    *lower_bound = second.1;
}

} // verus!
