use vstd::prelude::*;
use crate::bounds::uniform;
use crate::laws::after_iterations;
use crate::distance::{distance, squared_distance, squared_distance_upto};
use crate::laws::{apart, exact_on};
use crate::scalar::Scalar;
use crate::soundness::{
    bounds_hold, distance_is_metric, halves_like_reals, le, lemma_bounds_are_sound,
    lemma_every_iteration_assigns_to_nearest, ordered_like_reals, point_is_with_nearest,
    searches_in_reach,
};

verus! {

/// `x` held to the range of `i64`: what lies beyond becomes the nearest end.
pub open spec fn saturate(x: int) -> i64 {
    if x > i64::MAX {
        i64::MAX
    } else if x < i64::MIN {
        i64::MIN
    } else {
        x as i64
    }
}

/// `a` divided by `b` with the fraction dropped, whatever the signs; 0 where
/// `b` is 0.
pub open spec fn quotient(a: int, b: int) -> int {
    if b == 0 {
        0
    } else if b > 0 {
        if a >= 0 {
            a / b
        } else {
            -((-a) / b)
        }
    } else {
        if a >= 0 {
            -(a / (-b))
        } else {
            (-a) / (-b)
        }
    }
}

/// Whether `r` is the whole part of the square root of `x`.
pub open spec fn is_root(x: int, r: int) -> bool {
    0 <= r && r * r <= x < (r + 1) * (r + 1)
}

/// The whole part of the square root of `x`; 0 for a negative `x`.
pub open spec fn root(x: int) -> int {
    if x < 0 {
        0
    } else {
        choose|r: int| is_root(x, r)
    }
}

/// A number has at most one whole root.
pub proof fn lemma_root_unique(x: int, a: int, b: int)
    requires
        is_root(x, a),
        is_root(x, b),
    ensures
        a == b,
{
    if a < b {
        assert((a + 1) * (a + 1) <= b * b) by (nonlinear_arith)
            requires
                0 <= a,
                a + 1 <= b,
        ;
    } else if b < a {
        assert((b + 1) * (b + 1) <= a * a) by (nonlinear_arith)
            requires
                0 <= b,
                b + 1 <= a,
        ;
    }
}

/// Holds a wide number to the range of `i64`.
fn saturated(x: i128) -> (r: i64)
    ensures
        r == saturate(x as int),
{
    if x > i64::MAX as i128 {
        i64::MAX
    } else if x < i64::MIN as i128 {
        i64::MIN
    } else {
        x as i64
    }
}

/// Finds the whole part of the square root of a number that is not negative,
/// by halving the range in which it lies.
fn whole_root(x: i64) -> (r: i64)
    requires
        x >= 0,
    ensures
        is_root(x as int, r as int),
        r == root(x as int),
{
    let mut low: i128 = 0;
    let mut high: i128 = 3037000500;
    assert(x < 3037000500 * 3037000500);
    while high - low > 1
        invariant
            0 <= low < high <= 3037000500,
            low * low <= x < high * high,
        decreases high - low,
    {
        let middle: i128 = low + (high - low) / 2;
        assert(middle * middle <= 3037000500 * 3037000500) by (nonlinear_arith)
            requires
                0 <= middle <= 3037000500,
        ;
        if middle * middle <= x as i128 {
            low = middle;
        } else {
            high = middle;
        }
    }
    proof {
        assert(is_root(x as int, low as int));
        let chosen = choose|r: int| is_root(x as int, r);
        lemma_root_unique(x as int, low as int, chosen);
    }
    low as i64
}

/// Whole numbers as scalars, for points on an integer grid such as colours.
///
/// Sums, differences and squares stop at the ends of the range of `i64`
/// instead of wrapping. A quotient drops its fraction, and is 0 where the
/// divisor is 0. The square root is the whole part of the root, and 0 for a
/// negative number. The total order is the order of the numbers.
///
/// A mean and a distance in whole numbers can each be short of the true one
/// by less than one. Bounds kept in them are that much off, so a point may
/// stay with a centroid that is nearest only up to this rounding.
impl Scalar for i64 {
    open spec fn zero_spec() -> Self {
        0
    }

    fn zero() -> (r: Self) {
        0
    }

    open spec fn max_value_spec() -> Self {
        i64::MAX
    }

    fn max_value() -> (r: Self) {
        i64::MAX
    }

    open spec fn from_u8_spec(byte: u8) -> Self {
        byte as i64
    }

    fn from_u8(byte: u8) -> (r: Self) {
        byte as i64
    }

    open spec fn to_u8_spec(self) -> u8 {
        if self < 0 {
            0
        } else if self > 255 {
            255
        } else {
            self as u8
        }
    }

    fn to_u8(self) -> (r: u8) {
        if self < 0 {
            0
        } else if self > 255 {
            255
        } else {
            self as u8
        }
    }

    open spec fn from_count_spec(count: usize) -> Self {
        saturate(count as int)
    }

    fn from_count(count: usize) -> (r: Self) {
        saturated(count as i128)
    }

    open spec fn plus_spec(self, rhs: Self) -> Self {
        saturate(self + rhs)
    }

    fn plus(self, rhs: Self) -> (r: Self) {
        saturated(self as i128 + rhs as i128)
    }

    open spec fn minus_spec(self, rhs: Self) -> Self {
        saturate(self - rhs)
    }

    fn minus(self, rhs: Self) -> (r: Self) {
        saturated(self as i128 - rhs as i128)
    }

    open spec fn over_spec(self, rhs: Self) -> Self {
        saturate(quotient(self as int, rhs as int))
    }

    fn over(self, rhs: Self) -> (r: Self) {
        let wide: i128 = self as i128;
        let divisor: i128 = rhs as i128;
        if divisor == 0 {
            0
        } else if divisor > 0 {
            if wide >= 0 {
                saturated(wide / divisor)
            } else {
                saturated(-((-wide) / divisor))
            }
        } else {
            if wide >= 0 {
                saturated(-(wide / (-divisor)))
            } else {
                saturated((-wide) / (-divisor))
            }
        }
    }

    open spec fn squared_spec(self) -> Self {
        saturate(self * self)
    }

    fn squared(self) -> (r: Self) {
        let wide: i128 = self as i128;
        assert(-0x4000_0000_0000_0000_0000_0000_0000_0000 <= wide * wide
            <= 0x4000_0000_0000_0000_0000_0000_0000_0000) by (nonlinear_arith)
            requires
                -0x8000_0000_0000_0000 <= wide <= 0x8000_0000_0000_0000,
        ;
        saturated(wide * wide)
    }

    open spec fn sqrt_spec(self) -> Self {
        root(self as int) as i64
    }

    fn sqrt(self) -> (r: Self) {
        if self < 0 {
            0
        } else {
            whole_root(self)
        }
    }

    open spec fn lt_spec(self, rhs: Self) -> bool {
        self < rhs
    }

    fn lt(self, rhs: Self) -> (b: bool) {
        self < rhs
    }

    open spec fn larger_spec(self, rhs: Self) -> Self {
        if self < rhs {
            rhs
        } else {
            self
        }
    }

    fn larger(self, rhs: Self) -> (r: Self) {
        if self < rhs {
            rhs
        } else {
            self
        }
    }

    open spec fn total_lt_spec(self, rhs: Self) -> bool {
        self < rhs
    }

    fn total_lt(self, rhs: Self) -> (b: bool) {
        self < rhs
    }

    open spec fn is_sign_negative_spec(self) -> bool {
        self < 0
    }

    fn is_sign_negative(self) -> (b: bool) {
        self < 0
    }
}

/// The arithmetic of whole numbers is exact on the coordinates of any
/// points.
pub proof fn lemma_whole_numbers_are_exact(points: Seq<Seq<i64>>)
    ensures
        exact_on(points),
{
    assert forall|i: int, t: int| 0 <= i < points.len() && 0 <= t < points[i].len() implies {
        let x = #[trigger] points[i][t];
        &&& x.minus_spec(x).squared_spec() == <i64 as Scalar>::zero_spec()
        &&& <i64 as Scalar>::zero_spec().plus_spec(x) == x
        &&& x.over_spec(<i64 as Scalar>::from_count_spec(1)) == x
    } by {
        let x = points[i][t];
        let difference = x.minus_spec(x);
        assert(difference == 0);
        assert(difference * difference == 0) by (nonlinear_arith)
            requires
                difference == 0,
        ;
    }
}

proof fn lemma_whole_distance_grows(a: Seq<i64>, b: Seq<i64>, t: int, m: nat)
    requires
        0 <= t < m,
        a[t] != b[t],
    ensures
        squared_distance_upto(a, b, m) >= 1,
        forall|n: nat| squared_distance_upto(a, b, n) >= 0,
    decreases m,
{
    assert forall|n: nat| squared_distance_upto(a, b, n) >= 0 by {
        lemma_whole_distance_is_not_negative(a, b, n);
    }
    let step = a[m - 1].minus_spec(b[m - 1]).squared_spec();
    let difference = a[m - 1].minus_spec(b[m - 1]);
    assert(step >= 0) by (nonlinear_arith)
        requires
            step == saturate(difference * difference),
    ;
    lemma_whole_distance_is_not_negative(a, b, (m - 1) as nat);
    if t == m - 1 {
        assert(difference != 0);
        assert(step >= 1) by (nonlinear_arith)
            requires
                step == saturate(difference * difference),
                difference != 0,
        ;
    } else {
        lemma_whole_distance_grows(a, b, t, (m - 1) as nat);
    }
}

proof fn lemma_whole_distance_is_not_negative(a: Seq<i64>, b: Seq<i64>, m: nat)
    ensures
        squared_distance_upto(a, b, m) >= 0,
    decreases m,
{
    if m > 0 {
        lemma_whole_distance_is_not_negative(a, b, (m - 1) as nat);
        let difference = a[m - 1].minus_spec(b[m - 1]);
        let step = difference.squared_spec();
        assert(step >= 0) by (nonlinear_arith)
            requires
                step == saturate(difference * difference),
        ;
    }
}

/// Points of whole numbers of one dimension, no two of them equal, are apart.
pub proof fn lemma_distinct_whole_points_are_apart(points: Seq<Seq<i64>>, d: nat)
    requires
        uniform(points, d),
        forall|i: int, j: int|
            0 <= i < points.len() && 0 <= j < points.len() && i != j ==> points[i] != points[j],
    ensures
        apart(points),
{
    assert forall|i: int, j: int|
        0 <= i < points.len() && 0 <= j < points.len() && i != j implies {
        let distance = #[trigger] squared_distance(points[i], points[j]);
        <i64 as Scalar>::zero_spec().lt_spec(distance) && !distance.lt_spec(
            <i64 as Scalar>::zero_spec(),
        )
    } by {
        let a = points[i];
        let b = points[j];
        assert(a.len() == d && b.len() == d);
        assert(a != b);
        if forall|t: int| 0 <= t < d ==> a[t] == b[t] {
            assert(a =~= b);
        }
        let t = choose|t: int| 0 <= t < d && a[t] != b[t];
        lemma_whole_distance_grows(a, b, t, d);
    }
}

/// Every number that is not negative has a whole root.
pub proof fn lemma_root_exists(x: int)
    requires
        x >= 0,
    ensures
        is_root(x, root(x)),
    decreases x,
{
    if x == 0 {
        assert(is_root(0, 0));
    } else {
        lemma_root_exists(x - 1);
        let r = root(x - 1);
        if x < (r + 1) * (r + 1) {
            assert(is_root(x, r));
        } else {
            assert((r + 2) * (r + 2) > (r + 1) * (r + 1)) by (nonlinear_arith)
                requires
                    r >= 0,
            ;
            assert(is_root(x, r + 1));
        }
    }
}

/// The whole root is not negative, is at most the number where that is not
/// negative, and grows with the number.
pub proof fn lemma_root_grows(a: int, b: int)
    requires
        a <= b,
    ensures
        0 <= root(a) <= root(b),
        b >= 0 ==> root(b) <= b,
{
    if b >= 0 {
        lemma_root_exists(b);
        let rb = root(b);
        assert(rb <= b) by (nonlinear_arith)
            requires
                rb >= 0,
                rb * rb <= b,
        ;
        if a >= 0 {
            lemma_root_exists(a);
            let ra = root(a);
            assert(ra <= rb) by (nonlinear_arith)
                requires
                    ra >= 0,
                    rb >= 0,
                    ra * ra <= a,
                    a <= b,
                    b < (rb + 1) * (rb + 1),
            ;
        }
    }
}

/// Whole numbers are ordered like the real numbers, and halve like them.
pub proof fn lemma_whole_numbers_are_ordered()
    ensures
        ordered_like_reals::<i64>(),
        halves_like_reals::<i64>(),
{
    assert forall|a: i64| le(<i64 as Scalar>::zero_spec(), #[trigger] a.sqrt_spec()) by {
        lemma_root_grows(a as int, a as int);
    }
    assert forall|a: i64, b: i64|
        #![trigger a.sqrt_spec(), b.sqrt_spec()]
        le(a, b) implies le(a.sqrt_spec(), b.sqrt_spec()) by {
        lemma_root_grows(a as int, b as int);
        lemma_root_grows(a as int, a as int);
    }
}

/// The largest whole root that a scalar has: the whole root of `i64::MAX`.
pub open spec fn largest_root() -> int {
    3037000499
}

/// How far `a` is from `b`, but no farther than the largest whole root.
pub open spec fn gap(a: int, b: int) -> int {
    let apart = if a >= b {
        a - b
    } else {
        b - a
    };
    if apart <= largest_root() {
        apart
    } else {
        largest_root()
    }
}

proof fn lemma_root_of_square(n: int)
    requires
        n >= 0,
    ensures
        root(n * n) == n,
{
    assert(n * n >= 0) by (nonlinear_arith);
    assert(is_root(n * n, n)) by (nonlinear_arith)
        requires
            n >= 0,
    ;
    lemma_root_exists(n * n);
    lemma_root_unique(n * n, n, root(n * n));
}

/// On a line of whole numbers the distance between two points is their
/// difference, held to the largest whole root.
pub proof fn lemma_whole_distance_on_a_line(x: Seq<i64>, y: Seq<i64>)
    requires
        x.len() == 1,
        y.len() == 1,
    ensures
        distance(x, y) == gap(x[0] as int, y[0] as int),
{
    let difference = x[0].minus_spec(y[0]);
    let square = difference.squared_spec();
    assert(squared_distance_upto(x, y, 0) == 0i64);
    assert(squared_distance(x, y) == squared_distance_upto(x, y, 1));
    assert(squared_distance(x, y) == square);
    let size: int = if difference >= 0 {
        difference as int
    } else {
        -(difference as int)
    };
    assert(difference * difference == size * size) by (nonlinear_arith)
        requires
            size == difference || size == -difference,
    ;
    if size <= largest_root() {
        assert(size * size <= 3037000499 * 3037000499) by (nonlinear_arith)
            requires
                0 <= size <= 3037000499,
        ;
        assert(3037000499int * 3037000499int == 9223372030926249001int) by (nonlinear_arith);
        assert(size * size >= 0) by (nonlinear_arith);
        assert(square == size * size);
        lemma_root_of_square(size);
    } else {
        assert(size * size >= 3037000500 * 3037000500) by (nonlinear_arith)
            requires
                size >= 3037000500,
        ;
        assert(3037000500int * 3037000500int == 9223372037000250000int) by (nonlinear_arith);
        assert(square == i64::MAX);
        assert(is_root(i64::MAX as int, 3037000499)) by {
            assert(3037000499int * 3037000499int == 9223372030926249001int)
                by (nonlinear_arith);
            assert((3037000499int + 1) * (3037000499int + 1) == 9223372037000250000int)
                by (nonlinear_arith);
        }
        lemma_root_exists(i64::MAX as int);
        lemma_root_unique(i64::MAX as int, 3037000499, root(i64::MAX as int));
    }
}

/// On a line of whole numbers the distance is a metric.
pub proof fn lemma_whole_line_is_metric()
    ensures
        distance_is_metric::<i64>(1),
{
    assert forall|x: Seq<i64>, y: Seq<i64>| x.len() == 1 && y.len() == 1 implies #[trigger] distance(
        x,
        y,
    ) == distance(y, x) by {
        lemma_whole_distance_on_a_line(x, y);
        lemma_whole_distance_on_a_line(y, x);
    }
    assert forall|x: Seq<i64>, y: Seq<i64>, z: Seq<i64>|
        #![trigger distance(x, y), distance(y, z)]
        x.len() == 1 && y.len() == 1 && z.len() == 1 implies le(
        distance(x, z),
        distance(x, y).plus_spec(distance(y, z)),
    ) by {
        lemma_whole_distance_on_a_line(x, y);
        lemma_whole_distance_on_a_line(y, z);
        lemma_whole_distance_on_a_line(x, z);
    }
}

/// For whole numbers on a line the bounds are sound and no reassignment is
/// missed, with no more asked than that every search had every centroid in
/// reach: at the end of every iteration the bounds enclose the true
/// distances, and the assignment step of the next iteration leaves every
/// point with a nearest centroid.
pub proof fn lemma_whole_runs_on_a_line_are_sound(
    centroids: Seq<Seq<i64>>,
    points: Seq<Seq<i64>>,
    t: nat,
)
    requires
        2 <= centroids.len() <= usize::MAX,
        points.len() <= usize::MAX,
        uniform(centroids, 1),
        uniform(points, 1),
        searches_in_reach(centroids, points, t + 1),
    ensures
        bounds_hold(
            after_iterations(centroids, points, t).1,
            after_iterations(centroids, points, t).0,
            points,
        ),
        forall|i: int|
            0 <= i < points.len() ==> #[trigger] point_is_with_nearest(
                after_iterations(centroids, points, t + 1).1,
                after_iterations(centroids, points, t).0,
                points,
                i,
            ),
{
    lemma_whole_numbers_are_ordered();
    lemma_whole_line_is_metric();
    assert(searches_in_reach(centroids, points, t)) by {
        assert forall|s: nat| s == 0 || s < t implies crate::soundness::all_in_reach(
            points,
            (#[trigger] after_iterations(centroids, points, s)).0,
        ) by {}
    }
    lemma_bounds_are_sound(centroids, points, 1, t);
    lemma_every_iteration_assigns_to_nearest(centroids, points, 1, t);
}

} // verus!
