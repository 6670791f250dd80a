use rand::rngs::StdRng;
use rand::SeedableRng;
use vstd::prelude::*;
use crate::errors::KmeansError;
use crate::nearest::rows;
use crate::scalar::Scalar;

verus! {

/// The seed of the generator that picks initial centroids, so that a run can
/// be repeated.
pub const SEED: u64 = 0;

/// Whether `indices` name distinct points among `n`: each is below `n` and
/// none occurs twice.
pub open spec fn valid_seeds(indices: Seq<usize>, n: nat) -> bool {
    &&& forall|c: int| 0 <= c < indices.len() ==> (#[trigger] indices[c]) < n
    &&& forall|a: int, b: int|
        0 <= a < b < indices.len() ==> (#[trigger] indices[a]) != (#[trigger] indices[b])
}

/// The points at `indices`, in the order of the indices.
pub open spec fn select<S>(points: Seq<Seq<S>>, indices: Seq<usize>) -> Seq<Seq<S>> {
    Seq::new(indices.len(), |c: int| points[indices[c] as int])
}

/// Draws `amount` indices from `0..length` with `rand::seq::index::sample`,
/// driven by a `rand::rngs::StdRng` that `seed` starts, and hands them over
/// as a vector (`IndexVec::into_vec`).
///
/// Believed of `sample`, as its documentation has it: it returns exactly
/// `amount` distinct indices, each below `length`. It panics where `amount`
/// exceeds `length`, and, for a `length` above `u32::MAX`, a build with
/// debug assertions also panics where `amount` equals `length`; the
/// precondition rules both out. Which indices come, and in what order, is
/// left open.
#[verifier::external_body]
pub(crate) fn sample_indices(seed: u64, length: usize, amount: usize) -> (indices: Vec<usize>)
    requires
        amount <= length,
        amount < length || length <= u32::MAX,
    ensures
        indices@.len() == amount,
        valid_seeds(indices@, length as nat),
{
    let mut rng = StdRng::seed_from_u64(seed);
    rand::seq::index::sample(&mut rng, length, amount).into_vec()
}

/// The indices `0..length` in their order.
pub fn all_indices(length: usize) -> (indices: Vec<usize>)
    ensures
        indices@.len() == length,
        forall|c: int| 0 <= c < length ==> indices@[c] == c,
        valid_seeds(indices@, length as nat),
{
    let mut indices: Vec<usize> = Vec::new();
    let mut c: usize = 0;
    while c < length
        invariant
            c <= length,
            indices@.len() == c,
            forall|x: int| 0 <= x < c ==> indices@[x] == x,
        decreases length - c,
    {
        indices.push(c);
        c += 1;
    }
    indices
}

/// Picks `amount` distinct indices below `length` for the initial centroids.
/// The seeded generator draws them, but where all of more than `u32::MAX`
/// indices are asked for: there is nothing to draw then, and they come in
/// their order.
pub fn draw_seeds(length: usize, amount: usize) -> (indices: Vec<usize>)
    requires
        amount <= length,
    ensures
        indices@.len() == amount,
        valid_seeds(indices@, length as nat),
        amount == length && length > u32::MAX ==> forall|c: int|
            0 <= c < length ==> indices@[c] == c,
{
    if amount < length || length <= u32::MAX as usize {
        sample_indices(SEED, length, amount)
    } else {
        all_indices(length)
    }
}

/// Copies a vector.
fn copy_vector<S: Scalar>(v: &[S]) -> (r: Vec<S>)
    ensures
        r@ == v@,
{
    let mut r: Vec<S> = Vec::new();
    let mut t: usize = 0;
    while t < v.len()
        invariant
            t <= v.len(),
            r@.len() == t,
            forall|u: int| 0 <= u < t ==> r@[u] == v@[u],
        decreases v.len() - t,
    {
        r.push(v[t]);
        t += 1;
    }
    assert(r@ =~= v@);
    r
}

/// Tells whether `indices` name distinct points among `length`.
pub fn is_valid_seeding(indices: &[usize], length: usize) -> (ok: bool)
    ensures
        ok == valid_seeds(indices@, length as nat),
{
    let mut b: usize = 0;
    while b < indices.len()
        invariant
            b <= indices.len(),
            valid_seeds(indices@.take(b as int), length as nat),
        decreases indices.len() - b,
    {
        if indices[b] >= length {
            return false;
        }
        let mut a: usize = 0;
        while a < b
            invariant
                a <= b,
                b < indices.len(),
                forall|c: int| 0 <= c < a ==> indices@[c] != indices@[b as int],
            decreases b - a,
        {
            if indices[a] == indices[b] {
                return false;
            }
            a += 1;
        }
        assert forall|x: int, y: int|
            0 <= x < y < b + 1 implies (#[trigger] indices@.take(b + 1)[x]) != (
        #[trigger] indices@.take(b + 1)[y]) by {
            if y < b {
                assert(indices@.take(b as int)[x] != indices@.take(b as int)[y]);
            }
        }
        assert forall|c: int| 0 <= c < b + 1 implies (#[trigger] indices@.take(b + 1)[c])
            < length by {
            if c < b {
                assert(indices@.take(b as int)[c] < length);
            }
        }
        b += 1;
    }
    assert(indices@.take(indices@.len() as int) =~= indices@);
    true
}

/// Takes `candidate` into `chosen` if it names a point among `length` that
/// is not chosen yet, and tells whether it did. Offering random indices
/// until enough are chosen draws distinct points without replacement.
pub fn offer_index(chosen: &mut Vec<usize>, candidate: usize, length: usize) -> (taken: bool)
    ensures
        taken == (candidate < length && !old(chosen)@.contains(candidate)),
        taken ==> final(chosen)@ == old(chosen)@.push(candidate),
        !taken ==> final(chosen)@ == old(chosen)@,
        valid_seeds(old(chosen)@, length as nat) ==> valid_seeds(
            final(chosen)@,
            length as nat,
        ),
{
    if candidate >= length {
        return false;
    }
    let mut a: usize = 0;
    while a < chosen.len()
        invariant
            a <= chosen.len(),
            chosen@ == old(chosen)@,
            forall|c: int| 0 <= c < a ==> chosen@[c] != candidate,
        decreases chosen.len() - a,
    {
        if chosen[a] == candidate {
            assert(old(chosen)@.contains(candidate));
            return false;
        }
        a += 1;
    }
    chosen.push(candidate);
    true
}

/// Copies the points at `indices`: the initial centroids that a choice of
/// seeds stands for.
pub fn centroids_at<S: Scalar>(points: &[Vec<S>], indices: &[usize]) -> (centroids: Vec<Vec<S>>)
    requires
        forall|c: int| 0 <= c < indices@.len() ==> (#[trigger] indices@[c]) < points@.len(),
    ensures
        rows(centroids@) == select(rows(points@), indices@),
{
    let mut centroids: Vec<Vec<S>> = Vec::new();
    let mut c: usize = 0;
    while c < indices.len()
        invariant
            c <= indices.len(),
            forall|x: int| 0 <= x < indices@.len() ==> (#[trigger] indices@[x]) < points@.len(),
            centroids@.len() == c,
            forall|x: int|
                0 <= x < c ==> (#[trigger] centroids@[x])@ == points@[indices@[x] as int]@,
        decreases indices.len() - c,
    {
        centroids.push(copy_vector(points[indices[c]].as_slice()));
        c += 1;
    }
    assert(rows(centroids@) =~= select(rows(points@), indices@));
    centroids
}

/// Picks `k` distinct points as initial centroids, or fails where there are
/// fewer than `k` points. Which points are picked is up to the generator.
pub fn get_centroids<S: Scalar>(points: &[Vec<S>], k: usize) -> (r: Result<
    Vec<Vec<S>>,
    KmeansError,
>)
    ensures
        k > points@.len() <==> r is Err,
        r is Err ==> r == Err::<Vec<Vec<S>>, KmeansError>(KmeansError::InsufficientPoints),
        r matches Ok(centroids) ==> exists|indices: Seq<usize>|
            indices.len() == k && valid_seeds(indices, points@.len()) && rows(centroids@)
                == #[trigger] select(rows(points@), indices),
{
    if k > points.len() {
        return Err(KmeansError::InsufficientPoints);
    }
    let indices = draw_seeds(points.len(), k);
    let centroids = centroids_at(points, indices.as_slice());
    Ok(centroids)
}

} // verus!
