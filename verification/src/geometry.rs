//! Lattice points, displacements and the exact integer predicates of plane
//! geometry that the rest of the library is built on.
use vstd::prelude::*;
use vstd::relations::sorted_by;

verus! {

/// A point of the integer lattice.
#[derive(Copy, Clone, Debug, PartialEq, Eq, Structural, PartialOrd, Ord)]
pub struct Point {
    pub x: i32,
    pub y: i32,
}

/// A displacement by `dx` along the first axis and `dy` along the second.
#[derive(Copy, Clone, Debug, PartialEq, Eq, Structural)]
pub struct Shift {
    pub dx: i32,
    pub dy: i32,
}

/// An edge of the figure, joining the vertices with indices `fr` and `to`.
#[derive(Debug, Clone, Copy, PartialEq, Eq, Structural)]
pub struct Edge {
    pub fr: usize,
    pub to: usize,
}

impl View for Point {
    type V = (int, int);

    open spec fn view(&self) -> (int, int) {
        (self.x as int, self.y as int)
    }
}

/// Twice the signed area of the triangle `a, b, c`: the cross product of
/// `b - a` and `c - a`.
pub open spec fn cross(a: (int, int), b: (int, int), c: (int, int)) -> int {
    (b.0 - a.0) * (c.1 - a.1) - (b.1 - a.1) * (c.0 - a.0)
}

/// The scalar product of `b - a` and `c - a`.
pub open spec fn dot(a: (int, int), b: (int, int), c: (int, int)) -> int {
    (b.0 - a.0) * (c.0 - a.0) + (b.1 - a.1) * (c.1 - a.1)
}

/// The sign of an integer: -1, 0 or 1.
pub open spec fn sign(v: int) -> int {
    if v > 0 {
        1
    } else if v < 0 {
        -1
    } else {
        0
    }
}

/// `p` lies on the closed segment from `a` to `b`.
pub open spec fn on_segment(a: (int, int), b: (int, int), p: (int, int)) -> bool {
    &&& cross(a, b, p) == 0
    &&& dot(a, b, p) >= 0
    &&& dot(b, a, p) >= 0
}

/// One of the two integers is negative and the other positive.
pub open spec fn opposite_signs(u: int, v: int) -> bool {
    (u < 0 && v > 0) || (u > 0 && v < 0)
}

/// The segments `p1 p2` and `p3 p4` cross at a point interior to both: each
/// segment has the endpoints of the other strictly on opposite sides.
pub open spec fn segments_cross(p1: (int, int), p2: (int, int), p3: (int, int), p4: (int, int)) -> bool {
    &&& opposite_signs(cross(p1, p2, p3), cross(p1, p2, p4))
    &&& opposite_signs(cross(p3, p4, p1), cross(p3, p4, p2))
}

/// The squared euclidean distance between two points.
pub open spec fn dist2(a: (int, int), b: (int, int)) -> int {
    (a.0 - b.0) * (a.0 - b.0) + (a.1 - b.1) * (a.1 - b.1)
}

/// The point `p` moved by `(dx, dy)`.
pub open spec fn moved(p: (int, int), dx: int, dy: int) -> (int, int) {
    (p.0 + dx, p.1 + dy)
}

/// The point `p` moved by `s`, when the result fits in `i32`.
pub open spec fn shifted(p: Point, s: Shift) -> Point {
    Point { x: (p.x + s.dx) as i32, y: (p.y + s.dy) as i32 }
}

/// `v` fits in an `i32`.
pub open spec fn fits_i32(v: int) -> bool {
    i32::MIN <= v <= i32::MAX
}

/// Lexicographic order on points: by the first coordinate, then by the second.
pub open spec fn point_le(a: Point, b: Point) -> bool {
    a.x < b.x || (a.x == b.x && a.y <= b.y)
}

proof fn lemma_mul_abs_bound(a: int, b: int, m: int)
    requires
        -m <= a <= m,
        -m <= b <= m,
    ensures
        -(m * m) <= a * b <= m * m,
{
    assert(-(m * m) <= a * b <= m * m) by (nonlinear_arith)
        requires
            -m <= a <= m,
            -m <= b <= m,
    ;
}

/// The cross product of three lattice points, computed exactly.
pub(crate) fn cross_wide(a: &Point, b: &Point, c: &Point) -> (r: i128)
    ensures
        r == cross(a@, b@, c@),
{
    let ghost m: int = 0x1_0000_0000int;
    let d1: i128 = b.x as i128 - a.x as i128;
    let d2: i128 = c.y as i128 - a.y as i128;
    let d3: i128 = b.y as i128 - a.y as i128;
    let d4: i128 = c.x as i128 - a.x as i128;
    proof {
        lemma_mul_abs_bound(d1 as int, d2 as int, m);
        lemma_mul_abs_bound(d3 as int, d4 as int, m);
    }
    d1 * d2 - d3 * d4
}

/// The scalar product of `b - a` and `c - a`, computed exactly.
pub(crate) fn dot_wide(a: &Point, b: &Point, c: &Point) -> (r: i128)
    ensures
        r == dot(a@, b@, c@),
{
    let ghost m: int = 0x1_0000_0000int;
    let d1: i128 = b.x as i128 - a.x as i128;
    let d2: i128 = c.x as i128 - a.x as i128;
    let d3: i128 = b.y as i128 - a.y as i128;
    let d4: i128 = c.y as i128 - a.y as i128;
    proof {
        lemma_mul_abs_bound(d1 as int, d2 as int, m);
        lemma_mul_abs_bound(d3 as int, d4 as int, m);
    }
    d1 * d2 + d3 * d4
}

/// The squared distance of two lattice points, computed exactly.
pub(crate) fn d2_wide(a: &Point, b: &Point) -> (r: i128)
    ensures
        r == dist2(a@, b@),
        0 <= r <= 0x2_0000_0000_0000_0000,
{
    let ghost m: int = 0x1_0000_0000int;
    let dx: i128 = a.x as i128 - b.x as i128;
    let dy: i128 = a.y as i128 - b.y as i128;
    proof {
        lemma_mul_abs_bound(dx as int, dx as int, m);
        lemma_mul_abs_bound(dy as int, dy as int, m);
        assert(0 <= dx * dx) by (nonlinear_arith);
        assert(0 <= dy * dy) by (nonlinear_arith);
    }
    dx * dx + dy * dy
}

/// The orientation of `c` with respect to the directed line from `a` to `b`:
/// 1 to the left, -1 to the right, 0 on the line.
pub fn vec_mul(a: &Point, b: &Point, c: &Point) -> (r: i32)
    ensures
        r == sign(cross(a@, b@, c@)),
{
    let v = cross_wide(a, b, c);
    if v > 0 {
        1
    } else if v < 0 {
        -1
    } else {
        0
    }
}

/// The sign of the scalar product of `b - a` and `c - a`.
pub fn scal_mul(a: &Point, b: &Point, c: &Point) -> (r: i32)
    ensures
        r == sign(dot(a@, b@, c@)),
{
    let v = dot_wide(a, b, c);
    if v > 0 {
        1
    } else if v < 0 {
        -1
    } else {
        0
    }
}

/// Whether `p` lies on the closed segment from `a` to `b`.
pub fn on_seg(a: &Point, b: &Point, p: &Point) -> (r: bool)
    ensures
        r == on_segment(a@, b@, p@),
{
    if vec_mul(a, b, p) != 0 {
        return false;
    }
    scal_mul(a, b, p) >= 0 && scal_mul(b, a, p) >= 0
}

/// Whether the segments `[p1..p2]` and `[p3..p4]` cross at a point interior
/// to both of them.
pub fn seg_intersect_without_ends(p1: &Point, p2: &Point, p3: &Point, p4: &Point) -> (r: bool)
    ensures
        r == segments_cross(p1@, p2@, p3@, p4@),
{
    vec_mul(p1, p2, p3) * vec_mul(p1, p2, p4) < 0 && vec_mul(p3, p4, p1) * vec_mul(p3, p4, p2) < 0
}

impl Point {
    /// The squared distance to `another`.
    pub fn d2(&self, another: &Point) -> (r: i64)
        requires
            dist2(self@, another@) <= i64::MAX,
        ensures
            r == dist2(self@, another@),
    {
        let w = d2_wide(self, another);
        w as i64
    }

    /// Both coordinates are non-negative.
    pub fn ok(&self) -> (r: bool)
        ensures
            r == (self.x >= 0 && self.y >= 0),
    {
        self.x >= 0 && self.y >= 0
    }

    /// The point moved by `shift`.
    pub fn shift(self, shift: &Shift) -> (r: Self)
        requires
            fits_i32(self.x + shift.dx),
            fits_i32(self.y + shift.dy),
        ensures
            r@ == moved(self@, shift.dx as int, shift.dy as int),
            r == shifted(self, *shift),
    {
        Self { x: self.x + shift.dx, y: self.y + shift.dy }
    }
}

/// Exchanging the first two points negates the cross product.
pub proof fn lemma_cross_swap(a: (int, int), b: (int, int), c: (int, int))
    ensures
        cross(b, a, c) == -cross(a, b, c),
{
    assert(cross(b, a, c) == -cross(a, b, c)) by (nonlinear_arith);
}

/// The crossing test does not depend on the order of the two segments, nor
/// on the direction in which either of them is traversed.
pub proof fn law_segments_cross_symmetric(p1: (int, int), p2: (int, int), p3: (int, int), p4: (int, int))
    ensures
        segments_cross(p1, p2, p3, p4) == segments_cross(p3, p4, p1, p2),
        segments_cross(p1, p2, p3, p4) == segments_cross(p2, p1, p3, p4),
        segments_cross(p1, p2, p3, p4) == segments_cross(p1, p2, p4, p3),
{
    lemma_cross_swap(p1, p2, p3);
    lemma_cross_swap(p1, p2, p4);
    lemma_cross_swap(p3, p4, p1);
    lemma_cross_swap(p3, p4, p2);
}

/// Both endpoints of a segment lie on it, and the segment from `a` to `b`
/// holds the same points as the one from `b` to `a`.
pub proof fn law_on_segment_endpoints_and_symmetry(a: (int, int), b: (int, int), p: (int, int))
    ensures
        on_segment(a, b, a),
        on_segment(a, b, b),
        on_segment(a, b, p) == on_segment(b, a, p),
{
    lemma_cross_swap(a, b, p);
    assert(cross(a, b, a) == 0) by (nonlinear_arith);
    assert(cross(a, b, b) == 0) by (nonlinear_arith);
    assert(dot(a, b, a) == 0) by (nonlinear_arith);
    assert(dot(b, a, b) == 0) by (nonlinear_arith);
    assert(dot(a, b, b) >= 0) by (nonlinear_arith);
    assert(dot(b, a, a) >= 0) by (nonlinear_arith);
}

/// The squared distance is symmetric, non-negative, and zero exactly between
/// equal points.
pub proof fn law_dist2_metric(a: (int, int), b: (int, int))
    ensures
        dist2(a, b) == dist2(b, a),
        dist2(a, b) >= 0,
        dist2(a, b) == 0 <==> a == b,
{
    assert(dist2(a, b) == dist2(b, a)) by (nonlinear_arith);
    assert((a.0 - b.0) * (a.0 - b.0) >= 0) by (nonlinear_arith);
    assert((a.1 - b.1) * (a.1 - b.1) >= 0) by (nonlinear_arith);
    if dist2(a, b) == 0 {
        assert((a.0 - b.0) * (a.0 - b.0) == 0);
        assert(a.0 - b.0 == 0) by (nonlinear_arith)
            requires
                (a.0 - b.0) * (a.0 - b.0) == 0,
        ;
        assert(a.1 - b.1 == 0) by (nonlinear_arith)
            requires
                (a.1 - b.1) * (a.1 - b.1) == 0,
        ;
        assert(a == b);
    }
    if a == b {
        assert(dist2(a, b) == 0) by (nonlinear_arith)
            requires
                a == b,
        ;
    }
}

/// Moving a point by `(dx, dy)` takes it to squared distance `dx² + dy²`
/// from where it was.
pub proof fn law_moved_dist2(p: (int, int), dx: int, dy: int)
    ensures
        dist2(p, moved(p, dx, dy)) == dx * dx + dy * dy,
{
    assert(dist2(p, moved(p, dx, dy)) == dx * dx + dy * dy) by (nonlinear_arith);
}

/// The lexicographic order on points, as a relation.
pub open spec fn point_order() -> spec_fn(Point, Point) -> bool {
    |a: Point, b: Point| point_le(a, b)
}

/// Whether `a` comes before `b` or equals it in the lexicographic order.
pub fn point_le_exec(a: &Point, b: &Point) -> (r: bool)
    ensures
        r == point_le(*a, *b),
{
    a.x < b.x || (a.x == b.x && a.y <= b.y)
}

/// The lexicographic order on points is a total order.
pub proof fn lemma_point_le_total()
    ensures
        vstd::relations::total_ordering(point_order()),
{
    let leq = point_order();
    assert(vstd::relations::antisymmetric(leq)) by {
        assert forall|a: Point, b: Point| #[trigger] leq(a, b) && #[trigger] leq(b, a) implies a == b by {
            assert(a.x == b.x && a.y == b.y);
        }
    }
}

/// Two sequences that are sorted in the lexicographic order and hold the same
/// points, each as often, are equal.
pub proof fn lemma_sorted_unique(a: Seq<Point>, b: Seq<Point>)
    requires
        sorted_by(a, point_order()),
        sorted_by(b, point_order()),
        a.to_multiset() =~= b.to_multiset(),
    ensures
        a == b,
    decreases a.len(),
{
    broadcast use vstd::seq_lib::group_to_multiset_ensures;

    lemma_point_le_total();
    assert(a.to_multiset().len() == b.to_multiset().len());
    assert(a.len() == b.len());
    if a.len() == 0 {
        assert(a =~= b);
    } else {
        assert(a.contains(a[0]));
        assert(a.to_multiset().count(a[0]) > 0);
        assert(b.to_multiset().count(a[0]) > 0);
        assert(b.contains(a[0]));
        let k = choose|k: int| 0 <= k < b.len() && b[k] == a[0];
        if k > 0 {
            assert(point_order()(b[0], b[k]));
        }
        assert(point_le(b[0], a[0]));
        assert(b.contains(b[0]));
        assert(b.to_multiset().count(b[0]) > 0);
        assert(a.to_multiset().count(b[0]) > 0);
        assert(a.contains(b[0]));
        let k2 = choose|k: int| 0 <= k < a.len() && a[k] == b[0];
        if k2 > 0 {
            assert(point_order()(a[0], a[k2]));
        }
        assert(point_le(a[0], b[0]));
        assert(a[0] == b[0]);
        assert(a.remove(0) =~= a.drop_first());
        assert(b.remove(0) =~= b.drop_first());
        assert(a.drop_first().to_multiset() =~= b.drop_first().to_multiset());
        assert(sorted_by(a.drop_first(), point_order())) by {
            assert forall|i: int, j: int| 0 <= i < j < a.drop_first().len() implies #[trigger] point_order()(
                a.drop_first()[i],
                a.drop_first()[j],
            ) by {
                assert(point_order()(a[i + 1], a[j + 1]));
            }
        }
        assert(sorted_by(b.drop_first(), point_order())) by {
            assert forall|i: int, j: int| 0 <= i < j < b.drop_first().len() implies #[trigger] point_order()(
                b.drop_first()[i],
                b.drop_first()[j],
            ) by {
                assert(point_order()(b[i + 1], b[j + 1]));
            }
        }
        lemma_sorted_unique(a.drop_first(), b.drop_first());
        assert(a =~= b) by {
            assert forall|i: int| 0 <= i < a.len() implies a[i] == b[i] by {
                if i > 0 {
                    assert(a[i] == a.drop_first()[i - 1]);
                    assert(b[i] == b.drop_first()[i - 1]);
                }
            }
        }
    }
}

/// The points of `v` in lexicographic order.
pub fn sort_points(v: &Vec<Point>) -> (r: Vec<Point>)
    ensures
        r@.to_multiset() =~= v@.to_multiset(),
        sorted_by(r@, point_order()),
{
    broadcast use vstd::seq_lib::group_to_multiset_ensures;

    let mut out: Vec<Point> = Vec::new();
    for i in 0..v.len()
        invariant
            out@.to_multiset() =~= v@.take(i as int).to_multiset(),
            sorted_by(out@, point_order()),
    {
        let e = v[i];
        let mut k: usize = 0;
        while k < out.len() && point_le_exec(&out[k], &e)
            invariant
                k <= out@.len(),
                forall|j: int| 0 <= j < k ==> point_le(#[trigger] out@[j], e),
            decreases out@.len() - k,
        {
            k += 1;
        }
        let ghost before = out@;
        out.insert(k, e);
        assert(out@ == before.insert(k as int, e));
        assert(sorted_by(out@, point_order())) by {
            assert forall|a: int, b: int| 0 <= a < b < out@.len() implies #[trigger] point_order()(out@[a], out@[b]) by {
                if b < k {
                    assert(point_order()(before[a], before[b]));
                } else if b == k {
                    assert(point_le(before[a], e));
                } else if a == k {
                    assert(point_order()(before[k as int], before[b - 1]));
                } else if a < k {
                    assert(point_order()(before[a], before[b - 1]));
                } else {
                    assert(point_order()(before[a - 1], before[b - 1]));
                }
            }
        }
        assert(v@.take(i + 1) =~= v@.take(i as int).push(e));
        proof {
            vstd::seq_lib::to_multiset_insert(before, k as int, e);
            vstd::seq_lib::to_multiset_build(v@.take(i as int), e);
        }
    }
    assert(v@.take(v@.len() as int) =~= v@);
    out
}

} // verus!
