use vstd::prelude::*;
use crate::scalar::Scalar;

verus! {

/// The number of coordinates that `a` and `b` both have.
pub open spec fn common_len<S>(a: Seq<S>, b: Seq<S>) -> nat {
    if a.len() <= b.len() {
        a.len()
    } else {
        b.len()
    }
}

/// The squared differences of the first `n` coordinates of `a` and `b`, added
/// to zero one after the other, lowest coordinate first.
pub open spec fn squared_distance_upto<S: Scalar>(a: Seq<S>, b: Seq<S>, n: nat) -> S
    decreases n,
{
    if n == 0 {
        S::zero_spec()
    } else {
        squared_distance_upto(a, b, (n - 1) as nat).plus_spec(
            a[n - 1].minus_spec(b[n - 1]).squared_spec(),
        )
    }
}

/// The squared Euclidean distance between `a` and `b`, over the coordinates
/// that both have.
pub open spec fn squared_distance<S: Scalar>(a: Seq<S>, b: Seq<S>) -> S {
    squared_distance_upto(a, b, common_len(a, b))
}

/// The Euclidean distance between `a` and `b`.
pub open spec fn distance<S: Scalar>(a: Seq<S>, b: Seq<S>) -> S {
    squared_distance(a, b).sqrt_spec()
}

/// The squared Euclidean distance between `a` and `b`. A search for the
/// nearest centroid compares these and so takes no square root.
pub fn get_distance_squared<S: Scalar>(a: &[S], b: &[S]) -> (r: S)
    ensures
        r == squared_distance(a@, b@),
{
    let n = if a.len() <= b.len() {
        a.len()
    } else {
        b.len()
    };
    let mut acc = S::zero();
    let mut t: usize = 0;
    while t < n
        invariant
            t <= n,
            n == common_len(a@, b@),
            acc == squared_distance_upto(a@, b@, t as nat),
        decreases n - t,
    {
        acc = acc.plus(a[t].minus(b[t]).squared());
        t += 1;
    }
    acc
}

/// The Euclidean distance between `a` and `b`: what a bound or a movement is
/// stored as.
pub fn get_distance<S: Scalar>(a: &[S], b: &[S]) -> (r: S)
    ensures
        r == distance(a@, b@),
{
    get_distance_squared(a, b).sqrt()
}

} // verus!
