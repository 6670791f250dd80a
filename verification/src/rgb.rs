use vstd::prelude::*;
use crate::nearest::rows;
use crate::scalar::Scalar;

verus! {

/// The points that a sequence of colour bytes stands for: one point of
/// dimension three for each whole triple of bytes, each byte as a scalar.
pub open spec fn rgb_points<S: Scalar>(bytes: Seq<u8>) -> Seq<Seq<S>> {
    Seq::new(
        bytes.len() / 3,
        |i: int|
            seq![
                S::from_u8_spec(bytes[3 * i]),
                S::from_u8_spec(bytes[3 * i + 1]),
                S::from_u8_spec(bytes[3 * i + 2]),
            ],
    )
}

/// The colour bytes that centroids stand for: the first three coordinates
/// of each centroid, one centroid after the other, each cut down to a byte.
pub open spec fn rgb_bytes<S: Scalar>(centroids: Seq<Seq<S>>) -> Seq<u8> {
    Seq::new(3 * centroids.len(), |t: int| centroids[t / 3][t % 3].to_u8_spec())
}

/// Turns colour bytes into points.
pub fn points_from_rgb<S: Scalar>(rgb_slice: &[u8]) -> (points: Vec<Vec<S>>)
    ensures
        rows(points@) == rgb_points::<S>(rgb_slice@),
{
    let len = rgb_slice.len();
    let n = len / 3;
    let mut points: Vec<Vec<S>> = Vec::new();
    let mut i: usize = 0;
    while i < n
        invariant
            i <= n,
            len == rgb_slice@.len(),
            n == len / 3,
            points@.len() == i,
            forall|t: int|
                0 <= t < i ==> (#[trigger] points@[t])@ == rgb_points::<S>(rgb_slice@)[t],
        decreases n - i,
    {
        let mut point: Vec<S> = Vec::new();
        point.push(S::from_u8(rgb_slice[3 * i]));
        point.push(S::from_u8(rgb_slice[3 * i + 1]));
        point.push(S::from_u8(rgb_slice[3 * i + 2]));
        assert(point@ =~= rgb_points::<S>(rgb_slice@)[i as int]);
        points.push(point);
        i += 1;
    }
    assert(rows(points@) =~= rgb_points::<S>(rgb_slice@));
    points
}

/// Turns centroids into colour bytes, three for each centroid, from its
/// first three coordinates.
pub fn rgb_from_centroids<S: Scalar>(centroids: &[Vec<S>]) -> (bytes: Vec<u8>)
    requires
        forall|j: int| 0 <= j < centroids@.len() ==> (#[trigger] centroids@[j])@.len() >= 3,
    ensures
        bytes@ == rgb_bytes(rows(centroids@)),
{
    let ghost cs = rows(centroids@);
    let mut bytes: Vec<u8> = Vec::new();
    let mut j: usize = 0;
    while j < centroids.len()
        invariant
            j <= centroids.len(),
            cs == rows(centroids@),
            forall|c: int| 0 <= c < centroids@.len() ==> (#[trigger] centroids@[c])@.len() >= 3,
            bytes@.len() == 3 * j,
            forall|t: int| 0 <= t < 3 * j ==> bytes@[t] == rgb_bytes(cs)[t],
        decreases centroids.len() - j,
    {
        assert(centroids@[j as int]@.len() >= 3);
        assert(cs[j as int] == centroids@[j as int]@);
        bytes.push(centroids[j][0].to_u8());
        bytes.push(centroids[j][1].to_u8());
        bytes.push(centroids[j][2].to_u8());
        j += 1;
    }
    assert(bytes@ =~= rgb_bytes(cs));
    bytes
}

} // verus!
