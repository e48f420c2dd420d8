//! The 2-D grid point value type: component-wise algebra, rectangle
//! containment, row-major ordering, fixed neighbor tables, rectangle
//! enumeration and digital line rasterization.

use crate::integers::iabs;
use crate::integers::imax;
use crate::integers::lemma_round_to_nearest_bound;
use crate::integers::lemma_round_to_nearest_exact;
use crate::integers::lemma_round_to_nearest_signed;
use crate::integers::lemma_round_to_nearest_step;
use crate::integers::lemma_round_to_nearest_zero;
use crate::integers::round_to_nearest;
use crate::integers::sgn;
use crate::integers::sq;
use vstd::arithmetic::div_mod::lemma_basic_div;
use vstd::arithmetic::div_mod::lemma_div_is_ordered;
use vstd::arithmetic::div_mod::lemma_div_pos_is_pos;
use vstd::arithmetic::div_mod::lemma_fundamental_div_mod;
use vstd::arithmetic::div_mod::lemma_fundamental_div_mod_converse;
use vstd::arithmetic::div_mod::lemma_mod_bound;
use vstd::arithmetic::div_mod::lemma_multiply_divide_lt;
use vstd::prelude::*;

verus! {

/// An immutable pair of integer coordinates. Equality and hashing are
/// structural (field-wise). The `y` field is declared before `x` so that
/// the derived lexicographic order is the row-major order: `y` first,
/// then `x`, both ascending.
#[derive(Debug, Copy, Clone, PartialEq, Eq, Structural, Hash, PartialOrd, Ord)]
pub struct Point {
    pub y: i32,
    pub x: i32,
}

/// Squared Euclidean norm of a point.
pub open spec fn norm_sq(p: Point) -> int {
    p.x * p.x + p.y * p.y
}

/// Containment in the half-open rectangle `[0, size.x) x [0, size.y)`.
pub open spec fn rect_contains(size: Point, p: Point) -> bool {
    0 <= p.x < size.x && 0 <= p.y < size.y
}

/// The row-major order: `y` first, then `x`, both ascending.
pub open spec fn row_major_lt(a: Point, b: Point) -> bool {
    a.y < b.y || (a.y == b.y && a.x < b.x)
}

/// Every point of the half-open rectangle `[0, size.x) x [0, size.y)`, in
/// row-major order; empty when either side is not positive.
pub open spec fn rect_seq(size: Point) -> Seq<Point> {
    if size.x > 0 && size.y > 0 {
        Seq::new(
            (size.x * size.y) as nat,
            |k: int| Point { y: (k / (size.x as int)) as i32, x: (k % (size.x as int)) as i32 },
        )
    } else {
        Seq::empty()
    }
}

/// Number of points on the rasterized segment from `from` to `to`: one per
/// unit step along the dominant axis, both endpoints included.
pub open spec fn line_len(from: Point, to: Point) -> int {
    imax(iabs(to.x - from.x), iabs(to.y - from.y)) + 1
}

/// The x coordinate of the `i`-th rasterized point: on the dominant axis it
/// advances one unit per step, on the minor axis it is the rounded linear
/// interpolation. Ties between the axes favor x.
pub open spec fn line_point_x(from: Point, to: Point, i: int) -> int {
    if iabs(to.x - from.x) >= iabs(to.y - from.y) {
        from.x + i * sgn(to.x - from.x)
    } else {
        from.x + round_to_nearest(i * (to.x - from.x), iabs(to.y - from.y))
    }
}

/// The y coordinate of the `i`-th rasterized point; see `line_point_x`.
pub open spec fn line_point_y(from: Point, to: Point, i: int) -> int {
    if iabs(to.x - from.x) >= iabs(to.y - from.y) {
        if to.x == from.x {
            from.y as int
        } else {
            from.y + round_to_nearest(i * (to.y - from.y), iabs(to.x - from.x))
        }
    } else {
        from.y + i * sgn(to.y - from.y)
    }
}

/// The 4 unit offsets at Euclidean distance 1.
pub open spec fn edge_neighbor_seq() -> Seq<Point> {
    seq![
        Point { y: -1i32, x: 0 },
        Point { y: 0, x: -1i32 },
        Point { y: 0, x: 1 },
        Point { y: 1, x: 0 },
    ]
}

/// The 8 offsets at Euclidean distance 1 or sqrt(2).
pub open spec fn corner_neighbor_seq() -> Seq<Point> {
    seq![
        Point { y: -1i32, x: -1i32 },
        Point { y: -1i32, x: 0 },
        Point { y: -1i32, x: 1 },
        Point { y: 0, x: -1i32 },
        Point { y: 0, x: 1 },
        Point { y: 1, x: -1i32 },
        Point { y: 1, x: 0 },
        Point { y: 1, x: 1 },
    ]
}

/// For coordinates in -1..=1 the square equals the absolute value, so the
/// squared norm of a neighbor offset is the sum of the absolute
/// coordinates.
proof fn lemma_norm_sq_offset(p: Point)
    requires
        -1 <= p.x <= 1,
        -1 <= p.y <= 1,
    ensures
        norm_sq(p) == iabs(p.x as int) + iabs(p.y as int),
{
    assert(p.x * p.x == (if p.x >= 0 {
        p.x as int
    } else {
        -(p.x as int)
    })) by (nonlinear_arith)
        requires
            -1 <= p.x <= 1,
    ;
    assert(p.y * p.y == (if p.y >= 0 {
        p.y as int
    } else {
        -(p.y as int)
    })) by (nonlinear_arith)
        requires
            -1 <= p.y <= 1,
    ;
}

/// The row-major order is a strict total order: any two points are related
/// one way, or the other, or equal, and the order is transitive.
pub proof fn lemma_row_major_total_order(a: Point, b: Point, c: Point)
    ensures
        row_major_lt(a, b) || row_major_lt(b, a) || a == b,
        !(row_major_lt(a, b) && row_major_lt(b, a)),
        !(row_major_lt(a, b) && a == b),
        row_major_lt(a, b) && row_major_lt(b, c) ==> row_major_lt(a, c),
{
}

/// The edge neighbor table holds exactly 4 distinct members, each of
/// squared length 1.
pub proof fn lemma_edge_neighbors_valid()
    ensures
        edge_neighbor_seq().len() == 4,
        forall|i: int, j: int|
            #![trigger edge_neighbor_seq()[i], edge_neighbor_seq()[j]]
            0 <= i < j < 4 ==> edge_neighbor_seq()[i] != edge_neighbor_seq()[j],
        forall|i: int| 0 <= i < 4 ==> norm_sq(#[trigger] edge_neighbor_seq()[i]) == 1,
{
    assert forall|i: int| 0 <= i < 4 implies norm_sq(#[trigger] edge_neighbor_seq()[i]) == 1 by {
        if i == 0 {
            assert(edge_neighbor_seq()[0] == Point { y: -1i32, x: 0 });
        } else if i == 1 {
            assert(edge_neighbor_seq()[1] == Point { y: 0, x: -1i32 });
        } else if i == 2 {
            assert(edge_neighbor_seq()[2] == Point { y: 0, x: 1 });
        } else {
            assert(edge_neighbor_seq()[3] == Point { y: 1, x: 0 });
        }
        lemma_norm_sq_offset(edge_neighbor_seq()[i]);
    }
}

/// The corner neighbor table holds exactly 8 distinct members, each of
/// squared length 1 or 2.
pub proof fn lemma_corner_neighbors_valid()
    ensures
        corner_neighbor_seq().len() == 8,
        forall|i: int, j: int|
            #![trigger corner_neighbor_seq()[i], corner_neighbor_seq()[j]]
            0 <= i < j < 8 ==> corner_neighbor_seq()[i] != corner_neighbor_seq()[j],
        forall|i: int|
            0 <= i < 8 ==> norm_sq(#[trigger] corner_neighbor_seq()[i]) == 1 || norm_sq(
                corner_neighbor_seq()[i],
            ) == 2,
{
    assert forall|i: int|
        0 <= i < 8 implies norm_sq(#[trigger] corner_neighbor_seq()[i]) == 1 || norm_sq(
        corner_neighbor_seq()[i],
    ) == 2 by {
        if i == 0 {
            assert(corner_neighbor_seq()[0] == Point { y: -1i32, x: -1i32 });
        } else if i == 1 {
            assert(corner_neighbor_seq()[1] == Point { y: -1i32, x: 0 });
        } else if i == 2 {
            assert(corner_neighbor_seq()[2] == Point { y: -1i32, x: 1 });
        } else if i == 3 {
            assert(corner_neighbor_seq()[3] == Point { y: 0, x: -1i32 });
        } else if i == 4 {
            assert(corner_neighbor_seq()[4] == Point { y: 0, x: 1 });
        } else if i == 5 {
            assert(corner_neighbor_seq()[5] == Point { y: 1, x: -1i32 });
        } else if i == 6 {
            assert(corner_neighbor_seq()[6] == Point { y: 1, x: 0 });
        } else {
            assert(corner_neighbor_seq()[7] == Point { y: 1, x: 1 });
        }
        lemma_norm_sq_offset(corner_neighbor_seq()[i]);
    }
}

/// A positive rectangle enumerates exactly `x * y` points, each inside the
/// rectangle, in strictly increasing row-major order (hence all distinct);
/// a degenerate rectangle enumerates nothing.
pub proof fn lemma_rect_enumeration(size: Point)
    ensures
        size.x > 0 && size.y > 0 ==> rect_seq(size).len() == size.x * size.y,
        size.x <= 0 || size.y <= 0 ==> rect_seq(size).len() == 0,
        forall|k: int|
            0 <= k < rect_seq(size).len() ==> rect_contains(size, #[trigger] rect_seq(size)[k]),
        forall|j: int, k: int|
            #![trigger rect_seq(size)[j], rect_seq(size)[k]]
            0 <= j < k < rect_seq(size).len() ==> row_major_lt(rect_seq(size)[j], rect_seq(size)[k]),
        forall|j: int, k: int|
            #![trigger rect_seq(size)[j], rect_seq(size)[k]]
            0 <= j < k < rect_seq(size).len() ==> rect_seq(size)[j] != rect_seq(size)[k],
{
    if size.x > 0 && size.y > 0 {
        let w: int = size.x as int;
        let h: int = size.y as int;
        let s = rect_seq(size);
        assert(w * h > 0) by (nonlinear_arith)
            requires
                w > 0,
                h > 0,
        ;
        assert forall|k: int| 0 <= k < s.len() implies rect_contains(size, #[trigger] s[k]) by {
            lemma_mod_bound(k, w);
            lemma_div_pos_is_pos(k, w);
            lemma_multiply_divide_lt(k, w, h);
        }
        assert forall|j: int, k: int|
            #![trigger s[j], s[k]]
            0 <= j < k < s.len() implies row_major_lt(s[j], s[k]) by {
            lemma_mod_bound(j, w);
            lemma_mod_bound(k, w);
            lemma_div_pos_is_pos(j, w);
            lemma_multiply_divide_lt(j, w, h);
            lemma_multiply_divide_lt(k, w, h);
            lemma_fundamental_div_mod(j, w);
            lemma_fundamental_div_mod(k, w);
            lemma_div_is_ordered(j, k, w);
        }
    }
}

impl Point {
    /// Builds a point from its two coordinates; any values are accepted.
    pub fn new(x: i32, y: i32) -> (r: Point)
        ensures
            r.x == x,
            r.y == y,
    {
        Point { y, x }
    }

    /// Product of the coordinates: the area of the rectangle this point
    /// spans when used as a size. Arithmetic is checked: inputs whose
    /// product leaves the 32-bit range are excluded by contract.
    pub fn area(self) -> (r: i32)
        requires
            i32::MIN <= self.x * self.y <= i32::MAX,
        ensures
            r == self.x * self.y,
    {
        self.x * self.y
    }

    /// Squared Euclidean norm; avoids a square root for comparison-only
    /// use. Arithmetic is checked: inputs whose squares leave the 32-bit
    /// range are excluded by contract.
    pub fn length_sq(self) -> (r: i32)
        requires
            norm_sq(self) <= i32::MAX,
        ensures
            r == norm_sq(self),
    {
        proof {
            assert(self.x * self.x >= 0) by (nonlinear_arith);
            assert(self.y * self.y >= 0) by (nonlinear_arith);
        }
        sq(self.x) + sq(self.y)
    }

    /// Treating `self` as the exclusive upper bound of a rectangle anchored
    /// at the origin, decides whether `other` lies inside it. Total: no
    /// error conditions.
    pub fn contains(self, other: Point) -> (r: bool)
        ensures
            r == rect_contains(self, other),
    {
        other.x >= 0 && other.y >= 0 && other.x < self.x && other.y < self.y
    }

    /// Component-wise sum.
    pub fn add(self, other: Point) -> (r: Point)
        requires
            i32::MIN <= self.x + other.x <= i32::MAX,
            i32::MIN <= self.y + other.y <= i32::MAX,
        ensures
            r.x == self.x + other.x,
            r.y == self.y + other.y,
    {
        Point { y: self.y + other.y, x: self.x + other.x }
    }

    /// Component-wise difference.
    pub fn sub(self, other: Point) -> (r: Point)
        requires
            i32::MIN <= self.x - other.x <= i32::MAX,
            i32::MIN <= self.y - other.y <= i32::MAX,
        ensures
            r.x == self.x - other.x,
            r.y == self.y - other.y,
    {
        Point { y: self.y - other.y, x: self.x - other.x }
    }

    /// Component-wise negation.
    pub fn neg(self) -> (r: Point)
        requires
            self.x != i32::MIN,
            self.y != i32::MIN,
        ensures
            r.x == -self.x,
            r.y == -self.y,
    {
        Point { y: -self.y, x: -self.x }
    }

    /// The explicit two-key comparator behind the row-major order.
    pub fn before(self, other: Point) -> (r: bool)
        ensures
            r == row_major_lt(self, other),
    {
        self.y < other.y || (self.y == other.y && self.x < other.x)
    }

    /// The fixed table of the 4 edge neighbor offsets.
    pub fn edge_neighbors() -> (r: [Point; 4])
        ensures
            r@ == edge_neighbor_seq(),
    {
        let r = [
            Point { y: -1i32, x: 0 },
            Point { y: 0, x: -1i32 },
            Point { y: 0, x: 1 },
            Point { y: 1, x: 0 },
        ];
        proof {
            assert(r@ =~= edge_neighbor_seq());
        }
        r
    }

    /// The fixed table of the 8 corner neighbor offsets.
    pub fn corner_neighbors() -> (r: [Point; 8])
        ensures
            r@ == corner_neighbor_seq(),
    {
        let r = [
            Point { y: -1i32, x: -1i32 },
            Point { y: -1i32, x: 0 },
            Point { y: -1i32, x: 1 },
            Point { y: 0, x: -1i32 },
            Point { y: 0, x: 1 },
            Point { y: 1, x: -1i32 },
            Point { y: 1, x: 0 },
            Point { y: 1, x: 1 },
        ];
        proof {
            assert(r@ =~= corner_neighbor_seq());
        }
        r
    }

    /// Starts a fresh row-major enumeration of the rectangle `[0, self.x) x
    /// [0, self.y)`. Each call yields an independent cursor beginning at
    /// the origin; no state is shared between enumerations.
    pub fn into_iter(self) -> (r: IntPointIterator)
        ensures
            r.wf(),
            r.range == self,
            r.at == (Point { y: 0, x: 0 }),
            r.index() == 0,
    {
        IntPointIterator { range: self, at: Point { y: 0, x: 0 } }
    }

    /// Collects the whole row-major enumeration of the rectangle `[0,
    /// self.x) x [0, self.y)` into a vector.
    pub fn points(self) -> (v: Vec<Point>)
        ensures
            v@ == rect_seq(self),
    {
        let mut it = self.into_iter();
        let mut v: Vec<Point> = Vec::new();
        loop
            invariant
                it.wf(),
                it.range == self,
                0 <= it.index() <= rect_seq(self).len(),
                v@ =~= rect_seq(self).subrange(0, it.index()),
            ensures
                v@ =~= rect_seq(self),
            decreases rect_seq(self).len() - it.index(),
        {
            match it.next() {
                Some(p) => {
                    v.push(p);
                },
                None => {
                    proof {
                        assert(v@ =~= rect_seq(self));
                    }
                    break ;
                },
            }
        }
        v
    }

    /// Rasterizes the straight segment from `self` to `to`: the ordered
    /// sequence of grid points with exactly one point per unit step along
    /// the dominant axis, both endpoints included. The minor coordinate is
    /// the nearest-integer rounding (halves away from zero) of the exact
    /// linear interpolation.
    #[verifier::loop_isolation(false)]
    pub fn line_to(self, to: Point) -> (r: Vec<Point>)
        ensures
            r@.len() == line_len(self, to),
            forall|i: int|
                #![trigger r@[i]]
                0 <= i < r@.len() ==> r@[i].x == line_point_x(self, to, i) && r@[i].y
                    == line_point_y(self, to, i),
            r@[0] == self,
            r@[line_len(self, to) - 1] == to,
            self == to ==> r@ =~= seq![self],
    {
        let fx: i64 = self.x as i64;
        let fy: i64 = self.y as i64;
        let dx: i64 = to.x as i64 - fx;
        let dy: i64 = to.y as i64 - fy;
        let ax: u64 = if dx >= 0 {
            dx as u64
        } else {
            (-dx) as u64
        };
        let ay: u64 = if dy >= 0 {
            dy as u64
        } else {
            (-dy) as u64
        };
        let mut r: Vec<Point> = Vec::new();
        if ax >= ay {
            if ax == 0 {
                r.push(self);
                proof {
                    assert(to == self);
                    assert(r@ =~= seq![self]);
                }
                return r;
            }
            let n: u64 = ax;
            let sx: i64 = if dx > 0 {
                1
            } else {
                -1
            };
            let sy: i64 = if dy > 0 {
                1
            } else {
                -1
            };
            let mut i: u64 = 0;
            while i <= n
                invariant
                    i <= n + 1,
                    r@.len() == i,
                    forall|k: int|
                        #![trigger r@[k]]
                        0 <= k < i ==> r@[k].x == line_point_x(self, to, k) && r@[k].y
                            == line_point_y(self, to, k),
                decreases n - i + 1,
            {
                proof {
                    assert((2 * (i as int)) * (ay as int) <= 0x4_0000_0000_0000_0000)
                        by (nonlinear_arith)
                        requires
                            0 <= i as int <= 0xffff_ffff,
                            0 <= ay as int <= 0xffff_ffff,
                    ;
                }
                let q128: u128 = (2 * (i as u128) * (ay as u128) + (n as u128)) / (2 * (n
                    as u128));
                proof {
                    let ii: int = i as int;
                    let nn: int = n as int;
                    let dyv: int = to.y - self.y as int;
                    assert(2 * ii * (ay as int) == 2 * (ii * (ay as int))) by (nonlinear_arith);
                    assert(2 * (ii * (ay as int)) + nn < (2 * nn) * ((ay as int) + 1))
                        by (nonlinear_arith)
                        requires
                            0 <= ii <= nn,
                            0 < nn,
                            0 <= ay as int,
                    ;
                    lemma_multiply_divide_lt(2 * (ii * (ay as int)) + nn, 2 * nn, (ay as int) + 1);
                    assert(2 * (ii * (ay as int)) >= 0) by (nonlinear_arith)
                        requires
                            ii >= 0,
                            ay as int >= 0,
                    ;
                    lemma_div_pos_is_pos(2 * (ii * (ay as int)) + nn, 2 * nn);
                    assert(q128 as int == (2 * (ii * (ay as int)) + nn) / (2 * nn));
                    assert(0 <= q128 as int <= ay as int);
                    lemma_round_to_nearest_signed(ii, dyv, nn);
                    lemma_round_to_nearest_bound(ii, dyv, nn);
                    assert(iabs(dyv) == ay as int);
                    if dyv != 0 {
                        assert(sgn(dyv) == sy as int);
                    } else {
                        lemma_round_to_nearest_zero(nn);
                        lemma_basic_div(nn, 2 * nn);
                        assert(q128 as int == 0);
                        assert(ii * dyv == 0) by (nonlinear_arith)
                            requires
                                dyv == 0,
                        ;
                        assert(sy as int * (q128 as int) == 0) by (nonlinear_arith)
                            requires
                                q128 as int == 0,
                        ;
                    }
                    assert(fy + sy * (q128 as int) == self.y + round_to_nearest(ii * dyv, nn));
                    let dxv: int = to.x - self.x as int;
                    assert(sgn(dxv) == sx as int);
                    assert(sx as int * ii == ii * sgn(dxv)) by (nonlinear_arith)
                        requires
                            sgn(dxv) == sx as int,
                    ;
                    assert((sgn(dxv) == 1 ==> ii * sgn(dxv) == ii) && (sgn(dxv) == -1 ==> ii
                        * sgn(dxv) == -ii)) by (nonlinear_arith);
                }
                let q: u64 = q128 as u64;
                let px: i64 = fx + sx * (i as i64);
                let py: i64 = fy + sy * (q as i64);
                proof {
                    let ii: int = i as int;
                    assert(px == line_point_x(self, to, ii));
                    assert(py == line_point_y(self, to, ii));
                    assert(i32::MIN <= px <= i32::MAX);
                    assert(i32::MIN <= py <= i32::MAX);
                }
                r.push(Point { y: py as i32, x: px as i32 });
                i = i + 1;
            }
            proof {
                lemma_round_to_nearest_zero(n as int);
                lemma_round_to_nearest_exact(to.y - self.y as int, n as int);
                let dxv: int = to.x - self.x as int;
                if dxv > 0 {
                    assert((n as int) * sgn(dxv) == n as int) by (nonlinear_arith)
                        requires
                            sgn(dxv) == 1,
                    ;
                } else {
                    assert((n as int) * sgn(dxv) == -(n as int)) by (nonlinear_arith)
                        requires
                            sgn(dxv) == -1,
                    ;
                }
                assert(r@[0] == self);
                assert(r@[line_len(self, to) - 1] == to);
            }
        } else {
            let n: u64 = ay;
            let sx: i64 = if dx > 0 {
                1
            } else {
                -1
            };
            let sy: i64 = if dy > 0 {
                1
            } else {
                -1
            };
            let mut i: u64 = 0;
            while i <= n
                invariant
                    i <= n + 1,
                    r@.len() == i,
                    forall|k: int|
                        #![trigger r@[k]]
                        0 <= k < i ==> r@[k].x == line_point_x(self, to, k) && r@[k].y
                            == line_point_y(self, to, k),
                decreases n - i + 1,
            {
                proof {
                    assert((2 * (i as int)) * (ax as int) <= 0x4_0000_0000_0000_0000)
                        by (nonlinear_arith)
                        requires
                            0 <= i as int <= 0xffff_ffff,
                            0 <= ax as int <= 0xffff_ffff,
                    ;
                }
                let q128: u128 = (2 * (i as u128) * (ax as u128) + (n as u128)) / (2 * (n
                    as u128));
                proof {
                    let ii: int = i as int;
                    let nn: int = n as int;
                    let dxv: int = to.x - self.x as int;
                    assert(2 * ii * (ax as int) == 2 * (ii * (ax as int))) by (nonlinear_arith);
                    assert(2 * (ii * (ax as int)) + nn < (2 * nn) * ((ax as int) + 1))
                        by (nonlinear_arith)
                        requires
                            0 <= ii <= nn,
                            0 < nn,
                            0 <= ax as int,
                    ;
                    lemma_multiply_divide_lt(2 * (ii * (ax as int)) + nn, 2 * nn, (ax as int) + 1);
                    assert(2 * (ii * (ax as int)) >= 0) by (nonlinear_arith)
                        requires
                            ii >= 0,
                            ax as int >= 0,
                    ;
                    lemma_div_pos_is_pos(2 * (ii * (ax as int)) + nn, 2 * nn);
                    assert(q128 as int == (2 * (ii * (ax as int)) + nn) / (2 * nn));
                    assert(0 <= q128 as int <= ax as int);
                    lemma_round_to_nearest_signed(ii, dxv, nn);
                    lemma_round_to_nearest_bound(ii, dxv, nn);
                    assert(iabs(dxv) == ax as int);
                    if dxv != 0 {
                        assert(sgn(dxv) == sx as int);
                    } else {
                        lemma_round_to_nearest_zero(nn);
                        lemma_basic_div(nn, 2 * nn);
                        assert(q128 as int == 0);
                        assert(ii * dxv == 0) by (nonlinear_arith)
                            requires
                                dxv == 0,
                        ;
                        assert(sx as int * (q128 as int) == 0) by (nonlinear_arith)
                            requires
                                q128 as int == 0,
                        ;
                    }
                    assert(fx + sx * (q128 as int) == self.x + round_to_nearest(ii * dxv, nn));
                    let dyv: int = to.y - self.y as int;
                    assert(sgn(dyv) == sy as int);
                    assert(sy as int * ii == ii * sgn(dyv)) by (nonlinear_arith)
                        requires
                            sgn(dyv) == sy as int,
                    ;
                    assert((sgn(dyv) == 1 ==> ii * sgn(dyv) == ii) && (sgn(dyv) == -1 ==> ii
                        * sgn(dyv) == -ii)) by (nonlinear_arith);
                }
                let q: u64 = q128 as u64;
                let px: i64 = fx + sx * (q as i64);
                let py: i64 = fy + sy * (i as i64);
                proof {
                    let ii: int = i as int;
                    assert(px == line_point_x(self, to, ii));
                    assert(py == line_point_y(self, to, ii));
                    assert(i32::MIN <= px <= i32::MAX);
                    assert(i32::MIN <= py <= i32::MAX);
                }
                r.push(Point { y: py as i32, x: px as i32 });
                i = i + 1;
            }
            proof {
                lemma_round_to_nearest_zero(n as int);
                lemma_round_to_nearest_exact(to.x - self.x as int, n as int);
                let dyv: int = to.y - self.y as int;
                if dyv > 0 {
                    assert((n as int) * sgn(dyv) == n as int) by (nonlinear_arith)
                        requires
                            sgn(dyv) == 1,
                    ;
                } else {
                    assert((n as int) * sgn(dyv) == -(n as int)) by (nonlinear_arith)
                        requires
                            sgn(dyv) == -1,
                    ;
                }
                assert(r@[0] == self);
                assert(r@[line_len(self, to) - 1] == to);
            }
        }
        r
    }
}

/// On the rasterized segment the dominant coordinate advances by exactly
/// one unit per step toward `to`, and the minor coordinate changes by at
/// most one per step: digital-line continuity.
pub proof fn lemma_line_digital_continuity(from: Point, to: Point, i: int)
    requires
        0 <= i,
        i + 1 < line_len(from, to),
    ensures
        iabs(to.x - from.x) >= iabs(to.y - from.y) ==> line_point_x(from, to, i + 1)
            == line_point_x(from, to, i) + sgn(to.x - from.x),
        iabs(to.x - from.x) >= iabs(to.y - from.y) ==> iabs(
            line_point_y(from, to, i + 1) - line_point_y(from, to, i),
        ) <= 1,
        iabs(to.x - from.x) < iabs(to.y - from.y) ==> line_point_y(from, to, i + 1)
            == line_point_y(from, to, i) + sgn(to.y - from.y),
        iabs(to.x - from.x) < iabs(to.y - from.y) ==> iabs(
            line_point_x(from, to, i + 1) - line_point_x(from, to, i),
        ) <= 1,
{
    let dxv: int = to.x - from.x as int;
    let dyv: int = to.y - from.y as int;
    if iabs(dxv) >= iabs(dyv) {
        assert((i + 1) * sgn(dxv) == i * sgn(dxv) + sgn(dxv)) by (nonlinear_arith);
        if dxv != 0 {
            lemma_round_to_nearest_step(i, dyv, iabs(dxv));
        }
    } else {
        assert((i + 1) * sgn(dyv) == i * sgn(dyv) + sgn(dyv)) by (nonlinear_arith);
        lemma_round_to_nearest_step(i, dxv, iabs(dyv));
    }
}

/// A restartable cursor over the row-major enumeration of the rectangle
/// `[0, range.x) x [0, range.y)`.
pub struct IntPointIterator {
    pub range: Point,
    pub at: Point,
}

impl IntPointIterator {
    /// The cursor states reachable from a fresh enumeration.
    pub open spec fn wf(self) -> bool {
        if self.range.x > 0 && self.range.y > 0 {
            0 <= self.at.x < self.range.x && 0 <= self.at.y <= self.range.y && (self.at.y
                == self.range.y ==> self.at.x == 0)
        } else {
            self.at.x == 0 && self.at.y == 0
        }
    }

    /// How many points the cursor has already yielded.
    pub open spec fn index(self) -> int {
        self.at.y * self.range.x + self.at.x
    }

    /// Yields the next point of the enumeration, row-major (x fastest), or
    /// `None` once the rectangle is exhausted.
    pub fn next(&mut self) -> (r: Option<Point>)
        requires
            old(self).wf(),
        ensures
            final(self).wf(),
            final(self).range == old(self).range,
            (match r {
                Some(p) => {
                    &&& p == old(self).at
                    &&& 0 <= old(self).index() < rect_seq(old(self).range).len()
                    &&& p == rect_seq(old(self).range)[old(self).index()]
                    &&& final(self).index() == old(self).index() + 1
                },
                None => {
                    &&& old(self).index() == rect_seq(old(self).range).len()
                    &&& *final(self) == *old(self)
                },
            }),
    {
        if self.at.y < self.range.y && self.at.x < self.range.x {
            let result = self.at;
            proof {
                let w: int = self.range.x as int;
                let h: int = self.range.y as int;
                let cx: int = self.at.x as int;
                let cy: int = self.at.y as int;
                assert(0 <= cy * w + cx && cy * w + cx < w * h) by (nonlinear_arith)
                    requires
                        0 <= cx < w,
                        0 <= cy < h,
                ;
                lemma_fundamental_div_mod_converse(cy * w + cx, w, cy, cx);
                assert(rect_seq(self.range)[self.index()] == result);
            }
            self.at.x = self.at.x + 1;
            if self.at.x >= self.range.x {
                proof {
                    let w: int = self.range.x as int;
                    let cy: int = old(self).at.y as int;
                    assert((cy + 1) * w == cy * w + w) by (nonlinear_arith);
                }
                self.at.y = self.at.y + 1;
                self.at.x = 0;
            }
            Some(result)
        } else {
            proof {
                if self.range.x > 0 && self.range.y > 0 {
                    let w: int = self.range.x as int;
                    let h: int = self.range.y as int;
                    assert(self.at.y == self.range.y && self.at.x == 0);
                    assert(h * w == w * h) by (nonlinear_arith);
                    assert(w * h >= 0) by (nonlinear_arith)
                        requires
                            w > 0,
                            h > 0,
                    ;
                } else {
                    assert((self.at.y as int) * (self.range.x as int) == 0) by (nonlinear_arith)
                        requires
                            self.at.y as int == 0,
                    ;
                }
            }
            None
        }
    }
}

} // verus!

