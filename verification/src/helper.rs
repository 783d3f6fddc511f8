//! Precomputed tables about the hole of a task, and the placement checks
//! built on them.
use vstd::prelude::*;
pub use crate::geometry::seg_intersect_without_ends;
use crate::geometry::{
    Point, Shift, Edge, cross, on_segment, segments_cross, dist2, d2_wide, on_seg, vec_mul,
    sort_points, point_order, lemma_sorted_unique, lemma_point_le_total,
    law_on_segment_endpoints_and_symmetry, law_segments_cross_symmetric,
};
use vstd::relations::sorted_by;
use crate::task::Task;

verus! {

/// Tables computed once per task: which points of the half-step grid are
/// inside the hole or on its border, which lattice points are on its border,
/// the displacements that keep each edge's length within the tolerance, and
/// bounds on the squared distances between vertices.
pub struct Helper {
    pub is_inside: Vec<Vec<bool>>,
    pub is_on_edge: Vec<Vec<bool>>,
    pub hole: Vec<Point>,
    pub hole_and_first: Vec<Point>,
    pub max_c: i32,
    pub shifts_per_edge: Vec<Vec<Shift>>,
    pub max_dist2: Vec<Vec<i64>>,
}

/// The coordinates of a sequence of points.
pub open spec fn views(s: Seq<Point>) -> Seq<(int, int)> {
    s.map_values(|p: Point| p@)
}

/// Every point with both coordinates doubled.
pub open spec fn scaled2(s: Seq<(int, int)>) -> Seq<(int, int)> {
    s.map_values(|q: (int, int)| (2 * q.0, 2 * q.1))
}

/// `q` lies on the `i`-th segment of the polyline `c`, the one from `c[i]` to `c[i + 1]`.
pub open spec fn on_piece(c: Seq<(int, int)>, i: int, q: (int, int)) -> bool {
    on_segment(c[i], c[i + 1], q)
}

/// `q` lies on the polyline `c`.
pub open spec fn on_polyline(c: Seq<(int, int)>, q: (int, int)) -> bool {
    exists|i: int| 0 <= i < c.len() - 1 && #[trigger] on_piece(c, i, q)
}

/// The segment from `a` to `b`, taken from left to right, spans the column of
/// `q` (closed on the left, open on the right) and passes strictly on the
/// side of `q` where the second coordinate is larger.
pub open spec fn crosses_up(a: (int, int), b: (int, int), q: (int, int)) -> bool {
    let (p1, p2) = if a.0 > b.0 {
        (b, a)
    } else {
        (a, b)
    };
    p1.0 <= q.0 && q.0 < p2.0 && cross(p1, p2, q) < 0
}

/// How many of the first `k` segments of the polyline `c` cross the ray from
/// `q` in that way.
pub open spec fn crossings(c: Seq<(int, int)>, q: (int, int), k: int) -> nat
    decreases k,
{
    if k <= 0 {
        0
    } else {
        crossings(c, q, k - 1) + if crosses_up(c[k - 1], c[k], q) {
            1nat
        } else {
            0nat
        }
    }
}

/// `q` is on the closed polyline `c` or inside it by the even-odd rule.
pub open spec fn inside_or_on(c: Seq<(int, int)>, q: (int, int)) -> bool {
    on_polyline(c, q) || crossings(c, q, c.len() - 1) % 2 == 1
}

/// The largest coordinate of the points, and 0 if none is larger.
pub open spec fn max_coord(h: Seq<(int, int)>) -> int
    decreases h.len(),
{
    if h.len() == 0 {
        0
    } else {
        let m = max_coord(h.drop_last());
        let l = h.last();
        let c = if l.0 > l.1 {
            l.0
        } else {
            l.1
        };
        if m > c {
            m
        } else {
            c
        }
    }
}

/// The absolute value of `v`.
pub open spec fn abs(v: int) -> int {
    if v < 0 {
        -v
    } else {
        v
    }
}

/// A squared length `cur` is within `eps` millionths of the squared length `init`.
pub open spec fn length_ok(init: int, cur: int, eps: int) -> bool {
    abs(init - cur) * 1000000 <= eps * init
}

/// Strict lexicographic order on displacements.
pub open spec fn shift_lt(a: Shift, b: Shift) -> bool {
    a.dx < b.dx || (a.dx == b.dx && a.dy < b.dy)
}

/// The displacements that are tried for an edge: `-mc <= dx <= mc` and `-mc <= dy < mc`.
pub open spec fn shift_in_range(mc: int, s: Shift) -> bool {
    -mc <= s.dx <= mc && -mc <= s.dy < mc
}

/// `l` lists, in increasing lexicographic order, exactly the displacements
/// in range whose squared length is within tolerance of `init`.
pub open spec fn is_shift_list(l: Seq<Shift>, mc: int, init: int, eps: int) -> bool {
    &&& forall|i: int, j: int| 0 <= i < j < l.len() ==> shift_lt(l[i], l[j])
    &&& forall|s: Shift|
        #![trigger l.contains(s)]
        l.contains(s) <==> shift_in_range(mc, s) && length_ok(init, s.dx * s.dx + s.dy * s.dy, eps)
}

/// Whether a squared length `cur` is within `eps` millionths of `init`.
pub(crate) fn length_within(init: i128, cur: i128, eps: i64) -> (r: bool)
    requires
        0 <= init <= 0x2_0000_0000_0000_0000,
        0 <= cur <= 0x2_0000_0000_0000_0000,
    ensures
        r == length_ok(init as int, cur as int, eps as int),
{
    let delta: i128 = if init > cur {
        init - cur
    } else {
        cur - init
    };
    if eps <= 0 {
        proof {
            assert(eps * init <= 0) by (nonlinear_arith)
                requires
                    eps <= 0,
                    init >= 0,
            ;
            assert(delta * 1000000 >= 0) by (nonlinear_arith)
                requires
                    delta >= 0,
            ;
            assert(delta * 1000000 == 0 <==> delta == 0) by (nonlinear_arith)
                requires
                    delta >= 0,
            ;
            assert(eps * init == 0 <==> (eps == 0 || init == 0)) by (nonlinear_arith);
        }
        delta == 0 && (eps == 0 || init == 0)
    } else {
        let d: u128 = delta as u128;
        let e: u128 = eps as u128;
        let i: u128 = init as u128;
        proof {
            assert(d * 1000000 <= 0x2_0000_0000_0000_0000 * 1000000) by (nonlinear_arith)
                requires
                    d <= 0x2_0000_0000_0000_0000,
            ;
            assert(e * i <= 0x7fff_ffff_ffff_ffff * 0x2_0000_0000_0000_0000) by (nonlinear_arith)
                requires
                    e <= 0x7fff_ffff_ffff_ffff,
                    i <= 0x2_0000_0000_0000_0000,
            ;
        }
        d * 1000000 <= e * i
    }
}

/// Whether `p` is on one of the segments of the polyline `c`.
fn on_border(c: &Vec<Point>, p: &Point) -> (r: bool)
    requires
        c@.len() >= 1,
    ensures
        r == on_polyline(views(c@), p@),
{
    let ghost cv = views(c@);
    let mut found = false;
    for i in 0..c.len() - 1
        invariant
            cv == views(c@),
            c@.len() >= 1,
            found == exists|j: int| 0 <= j < i && #[trigger] on_piece(cv, j, p@),
    {
        if on_seg(&c[i], &c[i + 1], p) {
            found = true;
            assert(on_piece(cv, i as int, p@));
        }
        assert(found == exists|j: int| 0 <= j < i + 1 && #[trigger] on_piece(cv, j, p@)) by {
            if on_piece(cv, i as int, p@) {
                assert(found);
            }
        }
    }
    found
}

/// Whether an odd number of the segments of the polyline `c` cross the ray
/// from `p`, in the sense of `crosses_up`.
fn odd_crossings(c: &Vec<Point>, p: &Point) -> (r: bool)
    requires
        c@.len() >= 1,
    ensures
        r == (crossings(views(c@), p@, c@.len() - 1) % 2 == 1),
{
    let ghost cv = views(c@);
    let mut segs_to_up: usize = 0;
    for i in 0..c.len() - 1
        invariant
            cv == views(c@),
            c@.len() >= 1,
            segs_to_up == crossings(cv, p@, i as int),
            segs_to_up <= i,
    {
        let mut p1 = c[i];
        let mut p2 = c[i + 1];
        if p1.x > p2.x {
            std::mem::swap(&mut p1, &mut p2);
        }
        if p1.x <= p.x && p.x < p2.x {
            if vec_mul(&p1, &p2, p) < 0 {
                segs_to_up += 1;
            }
        }
    }
    segs_to_up % 2 == 1
}

/// The largest coordinate among the points, and 0 if none is larger.
fn max_coordinate(hole: &Vec<Point>) -> (r: i32)
    ensures
        r == max_coord(views(hole@)),
{
    let ghost hv = views(hole@);
    let mut max_c: i32 = 0;
    for i in 0..hole.len()
        invariant
            hv == views(hole@),
            max_c == max_coord(hv.take(i as int)),
    {
        let p = hole[i];
        if p.x > max_c {
            max_c = p.x;
        }
        if p.y > max_c {
            max_c = p.y;
        }
        assert(hv.take(i + 1).drop_last() =~= hv.take(i as int));
    }
    assert(hv.take(hole@.len() as int) =~= hv);
    max_c
}

proof fn lemma_max_coord_bounds(h: Seq<(int, int)>)
    ensures
        max_coord(h) >= 0,
        forall|i: int| 0 <= i < h.len() ==> #[trigger] h[i].0 <= max_coord(h) && h[i].1 <= max_coord(h),
        (forall|i: int| 0 <= i < h.len() ==> #[trigger] h[i].0 < 0x4000_0000 && h[i].1 < 0x4000_0000) ==> max_coord(h) < 0x4000_0000,
    decreases h.len(),
{
    if h.len() > 0 {
        lemma_max_coord_bounds(h.drop_last());
        assert forall|i: int| 0 <= i < h.len() - 1 implies #[trigger] h[i] == h.drop_last()[i] by {}
    }
}

/// The table of the half-step grid: entry `[x][y]` tells whether `(x, y)` is
/// on the polyline `c` or inside it.
fn build_inside_table(c: &Vec<Point>, n: usize) -> (r: Vec<Vec<bool>>)
    requires
        c@.len() >= 1,
        n <= i32::MAX as usize + 1,
    ensures
        r@.len() == n,
        forall|x: int| 0 <= x < n ==> (#[trigger] r@[x])@.len() == n,
        forall|x: int, y: int|
            0 <= x < n && 0 <= y < n ==> #[trigger] r@[x]@[y] == inside_or_on(views(c@), (x, y)),
{
    let mut table: Vec<Vec<bool>> = Vec::new();
    for x in 0..n
        invariant
            c@.len() >= 1,
            n <= i32::MAX as usize + 1,
            table@.len() == x,
            forall|i: int| 0 <= i < x ==> (#[trigger] table@[i])@.len() == n,
            forall|i: int, y: int|
                0 <= i < x && 0 <= y < n ==> #[trigger] table@[i]@[y] == inside_or_on(views(c@), (i, y)),
    {
        let mut row: Vec<bool> = Vec::new();
        for y in 0..n
            invariant
                c@.len() >= 1,
                x < n,
                n <= i32::MAX as usize + 1,
                row@.len() == y,
                forall|j: int| 0 <= j < y ==> #[trigger] row@[j] == inside_or_on(views(c@), (x as int, j)),
        {
            let p = Point { x: x as i32, y: y as i32 };
            let on = on_border(c, &p);
            if on {
                row.push(true);
            } else {
                let odd = odd_crossings(c, &p);
                row.push(odd);
            }
        }
        table.push(row);
    }
    table
}

/// The table of the lattice: entry `[x][y]` tells whether `(x, y)` is on the
/// polyline `c`.
fn build_on_edge_table(c: &Vec<Point>, n: usize) -> (r: Vec<Vec<bool>>)
    requires
        c@.len() >= 1,
        n <= i32::MAX as usize + 1,
    ensures
        r@.len() == n,
        forall|x: int| 0 <= x < n ==> (#[trigger] r@[x])@.len() == n,
        forall|x: int, y: int|
            0 <= x < n && 0 <= y < n ==> #[trigger] r@[x]@[y] == on_polyline(views(c@), (x, y)),
{
    let mut table: Vec<Vec<bool>> = Vec::new();
    for x in 0..n
        invariant
            c@.len() >= 1,
            n <= i32::MAX as usize + 1,
            table@.len() == x,
            forall|i: int| 0 <= i < x ==> (#[trigger] table@[i])@.len() == n,
            forall|i: int, y: int|
                0 <= i < x && 0 <= y < n ==> #[trigger] table@[i]@[y] == on_polyline(views(c@), (i, y)),
    {
        let mut row: Vec<bool> = Vec::new();
        for y in 0..n
            invariant
                c@.len() >= 1,
                x < n,
                n <= i32::MAX as usize + 1,
                row@.len() == y,
                forall|j: int| 0 <= j < y ==> #[trigger] row@[j] == on_polyline(views(c@), (x as int, j)),
        {
            let on = on_border(c, &Point { x: x as i32, y: y as i32 });
            row.push(on);
        }
        table.push(row);
    }
    table
}

/// In lexicographic order, the displacements `(dx, dy)` with
/// `-max_c <= dx <= max_c` and `-max_c <= dy < max_c` whose squared length is
/// within `eps` millionths of `init_d2`.
fn edge_shifts(max_c: i32, init_d2: i128, eps: i64) -> (r: Vec<Shift>)
    requires
        0 < max_c <= 0x4000_0000,
        0 <= init_d2 <= 0x2_0000_0000_0000_0000,
    ensures
        is_shift_list(r@, max_c as int, init_d2 as int, eps as int),
{
    let ghost mc = max_c as int;
    let ghost ok = |s: Shift| shift_in_range(mc, s) && length_ok(init_d2 as int, s.dx * s.dx + s.dy * s.dy, eps as int);
    let mut cur_shifts: Vec<Shift> = Vec::new();
    let mut dx: i32 = -max_c;
    while dx <= max_c
        invariant
            0 < max_c <= 0x4000_0000,
            0 <= init_d2 <= 0x2_0000_0000_0000_0000,
            mc == max_c as int,
            ok == (|s: Shift| shift_in_range(mc, s) && length_ok(init_d2 as int, s.dx * s.dx + s.dy * s.dy, eps as int)),
            -max_c <= dx <= max_c + 1,
            forall|i: int, j: int| 0 <= i < j < cur_shifts@.len() ==> shift_lt(cur_shifts@[i], cur_shifts@[j]),
            forall|i: int| 0 <= i < cur_shifts@.len() ==> (#[trigger] cur_shifts@[i]).dx < dx && ok(cur_shifts@[i]),
            forall|s: Shift| s.dx < dx && #[trigger] ok(s) ==> cur_shifts@.contains(s),
        decreases max_c + 1 - dx,
    {
        let mut dy: i32 = -max_c;
        while dy < max_c
            invariant
                0 < max_c <= 0x4000_0000,
                0 <= init_d2 <= 0x2_0000_0000_0000_0000,
                mc == max_c as int,
                ok == (|s: Shift| shift_in_range(mc, s) && length_ok(init_d2 as int, s.dx * s.dx + s.dy * s.dy, eps as int)),
                -max_c <= dx <= max_c,
                -max_c <= dy <= max_c,
                forall|i: int, j: int| 0 <= i < j < cur_shifts@.len() ==> shift_lt(cur_shifts@[i], cur_shifts@[j]),
                forall|i: int|
                    0 <= i < cur_shifts@.len() ==> shift_lt(#[trigger] cur_shifts@[i], Shift { dx, dy }) && ok(cur_shifts@[i]),
                forall|s: Shift| shift_lt(s, Shift { dx, dy }) && #[trigger] ok(s) ==> cur_shifts@.contains(s),
            decreases max_c - dy,
        {
            let ghost s = Shift { dx, dy };
            proof {
                lemma_mul_abs_bound_local(dx as int, dx as int, 0x4000_0000);
                lemma_mul_abs_bound_local(dy as int, dy as int, 0x4000_0000);
            }
            let dx2: i128 = dx as i128 * dx as i128;
            let dy2: i128 = dy as i128 * dy as i128;
            let cur_d2: i128 = dx2 + dy2;
            proof {
                assert(0 <= dx2) by (nonlinear_arith)
                    requires
                        dx2 == dx * dx,
                ;
                assert(0 <= dy2) by (nonlinear_arith)
                    requires
                        dy2 == dy * dy,
                ;
            }
            let good = length_within(init_d2, cur_d2, eps);
            assert(good == ok(s));
            let ghost before = cur_shifts@;
            if good {
                cur_shifts.push(Shift { dx, dy });
                assert forall|t: Shift| shift_lt(t, Shift { dx, dy: (dy + 1) as i32 }) && #[trigger] ok(t) implies cur_shifts@.contains(t) by {
                    if t == s {
                        assert(cur_shifts@[before.len() as int] == s);
                    } else {
                        assert(before.contains(t));
                        let k = choose|k: int| 0 <= k < before.len() && before[k] == t;
                        assert(cur_shifts@[k] == t);
                    }
                }
            } else {
                assert forall|t: Shift| shift_lt(t, Shift { dx, dy: (dy + 1) as i32 }) && #[trigger] ok(t) implies cur_shifts@.contains(t) by {
                    if t == s {
                    } else {
                        assert(shift_lt(t, s));
                    }
                }
            }
            dy += 1;
        }
        assert forall|t: Shift| t.dx < dx + 1 && #[trigger] ok(t) implies cur_shifts@.contains(t) by {
            if t.dx == dx {
                assert(shift_lt(t, Shift { dx, dy }));
            }
        }
        dx += 1;
    }
    proof {
        assert forall|t: Shift| #[trigger] cur_shifts@.contains(t) <==> ok(t) by {
            if cur_shifts@.contains(t) {
                let k = choose|k: int| 0 <= k < cur_shifts@.len() && cur_shifts@[k] == t;
                assert(ok(cur_shifts@[k]));
            }
            if ok(t) {
                assert(t.dx < dx);
            }
        }
    }
    cur_shifts
}

proof fn lemma_mul_abs_bound_local(a: int, b: int, m: int)
    requires
        -m <= a <= m,
        -m <= b <= m,
    ensures
        -(m * m) <= a * b <= m * m,
{
    assert(-(m * m) <= a * b <= m * m) by (nonlinear_arith)
        requires
            -m <= a <= m,
            -m <= b <= m,
    ;
}

impl Helper {
    /// The hole, as a sequence of points.
    pub open spec fn spec_hole(&self) -> Seq<Point> {
        self.hole@
    }

    /// Entry `[x][y]` of the table of lattice points on the border of the hole.
    pub open spec fn spec_on_edge(&self, x: int, y: int) -> bool {
        self.is_on_edge@[x]@[y]
    }

    /// Entry `[x][y]` of the table of the half-step grid.
    pub open spec fn cell(&self, x: int, y: int) -> bool {
        self.is_inside@[x]@[y]
    }

    /// The border of the hole, with its coordinates doubled, as a closed polyline.
    pub open spec fn border2(&self) -> Seq<(int, int)> {
        scaled2(views(self.hole_and_first@))
    }

    /// The tables agree with the hole they were made from.
    pub open spec fn wf(&self) -> bool {
        let hole = self.spec_hole();
        let mc = self.max_c as int;
        &&& hole.len() > 0
        &&& self.hole_and_first@ == hole.push(hole[0])
        &&& 0 < mc <= 0x4000_0000
        &&& forall|i: int| 0 <= i < hole.len() ==> 0 <= (#[trigger] hole[i]).x < mc && 0 <= hole[i].y < mc
        &&& self.is_inside@.len() == 2 * mc
        &&& forall|x: int| 0 <= x < 2 * mc ==> (#[trigger] self.is_inside@[x])@.len() == 2 * mc
        &&& forall|x: int, y: int|
            0 <= x < 2 * mc && 0 <= y < 2 * mc ==> #[trigger] self.cell(x, y) == inside_or_on(self.border2(), (x, y))
        &&& self.is_on_edge@.len() == mc
        &&& forall|x: int| 0 <= x < mc ==> (#[trigger] self.is_on_edge@[x])@.len() == mc
        &&& forall|x: int, y: int|
            0 <= x < mc && 0 <= y < mc ==> #[trigger] self.spec_on_edge(x, y) == on_polyline(
                views(self.hole_and_first@),
                (x, y),
            )
        &&& forall|i: int| 0 <= i < self.max_dist2@.len() ==> (#[trigger] self.max_dist2@[i])@.len() == self.max_dist2@.len()
    }

    /// The tables were made for the task `t`.
    pub open spec fn for_task(&self, t: &Task) -> bool {
        &&& self.spec_hole() == t.hole@
        &&& self.max_dist2@.len() == t.fig@.len()
        &&& self.shifts_per_edge@.len() == t.edges@.len()
        &&& forall|e: int|
            0 <= e < t.edges@.len() ==> is_shift_list(
                #[trigger] self.shifts_per_edge@[e]@,
                self.max_c as int,
                dist2(t.fig@[t.edges@[e].fr as int]@, t.fig@[t.edges@[e].to as int]@),
                t.epsilon as int,
            )
    }

    /// Builds the tables for the task `t`. `max_dist2[i][j]` bounds the
    /// squared distance at which vertex `j` may be placed from vertex `i`.
    pub fn create(t: &Task, max_dist2: Vec<Vec<i64>>) -> (r: Self)
        requires
            t.wf(),
            t.hole@.len() > 0,
            forall|i: int|
                0 <= i < t.hole@.len() ==> 0 <= (#[trigger] t.hole@[i]).x < 0x4000_0000 && 0 <= t.hole@[i].y
                    < 0x4000_0000,
            max_dist2@.len() == t.fig@.len(),
            forall|i: int| 0 <= i < max_dist2@.len() ==> (#[trigger] max_dist2@[i])@.len() == t.fig@.len(),
        ensures
            r.wf(),
            r.for_task(t),
            r.max_c == max_coord(views(t.hole@)) + 1,
            r.max_dist2 == max_dist2,
    {
        let ghost hv = views(t.hole@);
        proof {
            lemma_max_coord_bounds(hv);
            assert forall|i: int| 0 <= i < hv.len() implies #[trigger] hv[i].0 < 0x4000_0000 && hv[i].1 < 0x4000_0000 by {
                assert(hv[i] == t.hole@[i]@);
            }
        }
        let max_c = max_coordinate(&t.hole) + 1;
        let n = max_c as usize;
        let mut hole_x2: Vec<Point> = Vec::new();
        for i in 0..t.hole.len()
            invariant
                forall|k: int|
                    0 <= k < t.hole@.len() ==> 0 <= (#[trigger] t.hole@[k]).x < 0x4000_0000 && 0 <= t.hole@[k].y
                        < 0x4000_0000,
                hole_x2@.len() == i,
                forall|k: int| 0 <= k < i ==> (#[trigger] hole_x2@[k])@ == (2 * t.hole@[k].x, 2 * t.hole@[k].y),
        {
            let p = t.hole[i];
            hole_x2.push(Point { x: p.x * 2, y: p.y * 2 });
        }
        let first = hole_x2[0];
        hole_x2.push(first);
        let mut hole_and_first = t.hole.clone();
        let first_p = hole_and_first[0];
        hole_and_first.push(first_p);
        assert(views(hole_x2@) =~= scaled2(views(hole_and_first@)));
        let is_inside = build_inside_table(&hole_x2, n * 2);
        let is_on_edge = build_on_edge_table(&hole_and_first, n);
        let mut shifts_per_edge: Vec<Vec<Shift>> = Vec::new();
        for e in 0..t.edges.len()
            invariant
                t.wf(),
                0 < max_c <= 0x4000_0000,
                shifts_per_edge@.len() == e,
                forall|k: int|
                    0 <= k < e ==> is_shift_list(
                        #[trigger] shifts_per_edge@[k]@,
                        max_c as int,
                        dist2(t.fig@[t.edges@[k].fr as int]@, t.fig@[t.edges@[k].to as int]@),
                        t.epsilon as int,
                    ),
        {
            let edge = t.edges[e];
            let init_d2 = d2_wide(&t.fig[edge.fr], &t.fig[edge.to]);
            let cur_shifts = edge_shifts(max_c, init_d2, t.epsilon);
            shifts_per_edge.push(cur_shifts);
        }
        let hole = t.hole.clone();
        let r = Helper { is_inside, hole, hole_and_first, max_c, shifts_per_edge, max_dist2, is_on_edge };
        assert(r.spec_hole() == t.hole@);
        assert forall|i: int| 0 <= i < t.hole@.len() implies 0 <= (#[trigger] t.hole@[i]).x < max_c && 0 <= t.hole@[i].y < max_c by {
            assert(hv[i] == t.hole@[i]@);
            assert(hv[i].0 <= max_coord(hv) && hv[i].1 <= max_coord(hv));
        }
        assert forall|x: int, y: int| 0 <= x < max_c && 0 <= y < max_c implies #[trigger] r.spec_on_edge(x, y)
            == on_polyline(views(r.hole_and_first@), (x, y)) by {
            assert(r.is_on_edge@[x]@[y] == on_polyline(views(hole_and_first@), (x, y)));
        }
        assert forall|x: int, y: int| 0 <= x < 2 * max_c && 0 <= y < 2 * max_c implies #[trigger] r.cell(x, y)
            == inside_or_on(r.border2(), (x, y)) by {
            assert(r.is_inside@[x]@[y] == inside_or_on(views(hole_x2@), (x, y)));
        }
        r
    }
}

/// The segment from `p1` to `p2` crosses the `i`-th segment of the polyline `c`
/// at a point interior to both.
pub open spec fn crosses_piece(c: Seq<(int, int)>, i: int, p1: (int, int), p2: (int, int)) -> bool {
    segments_cross(c[i], c[i + 1], p1, p2)
}

/// The points that cut the segment from `p1` to `p2` into pieces: its two
/// endpoints, then the vertices of the hole that lie on it, in the order of
/// the hole.
pub open spec fn edge_candidates(hole: Seq<Point>, p1: Point, p2: Point) -> Seq<Point> {
    seq![p1, p2] + hole.filter(|h: Point| on_segment(p1@, p2@, h@))
}

/// The same points in lexicographic order.
pub open spec fn sorted_candidates(hole: Seq<Point>, p1: Point, p2: Point) -> Seq<Point> {
    edge_candidates(hole, p1, p2).sort_by(point_order())
}

/// The other endpoint of the edge `e`, seen from `v`.
pub open spec fn other_end(e: Edge, v: usize) -> int {
    e.fr + e.to - v
}

impl Helper {
    /// `p` is a lattice point whose doubled position is a cell of the table
    /// that is marked inside.
    pub open spec fn point_inside_spec(&self, p: (int, int)) -> bool {
        &&& 0 <= p.0 && 2 * p.0 < self.is_inside@.len()
        &&& 0 <= p.1 && 2 * p.1 < self.is_inside@.len()
        &&& self.cell(2 * p.0, 2 * p.1)
    }

    /// The midpoint of `a` and `b` is marked inside.
    pub open spec fn midpoint_inside(&self, a: Point, b: Point) -> bool {
        self.cell(a.x + b.x, a.y + b.y)
    }

    /// The midpoint of the `i`-th and `i + 1`-th points of `s` is marked inside.
    pub open spec fn piece_inside(&self, s: Seq<Point>, i: int) -> bool {
        self.midpoint_inside(s[i], s[i + 1])
    }

    /// The segment from `p1` to `p2` is inside the hole: its endpoints are
    /// inside, it crosses no side of the hole, and each of the pieces into
    /// which the hole's vertices cut it has its midpoint inside.
    pub open spec fn edge_inside_spec(&self, p1: Point, p2: Point) -> bool {
        let hf = views(self.hole_and_first@);
        let s = sorted_candidates(self.hole@, p1, p2);
        &&& self.point_inside_spec(p1@)
        &&& self.point_inside_spec(p2@)
        &&& forall|i: int| 0 <= i < hf.len() - 1 ==> !#[trigger] crosses_piece(hf, i, p1@, p2@)
        &&& forall|i: int| 0 <= i < s.len() - 1 ==> #[trigger] self.piece_inside(s, i)
    }

    /// An edge between vertices `v1` and `v2` of the figure, placed at `p1`
    /// and `p2`, lies inside the hole and keeps its length within tolerance.
    pub open spec fn valid_edge_spec(&self, t: &Task, v1: int, v2: int, p1: Point, p2: Point) -> bool {
        &&& self.edge_inside_spec(p1, p2)
        &&& length_ok(dist2(t.fig@[v1]@, t.fig@[v2]@), dist2(p1@, p2@), t.epsilon as int)
    }

    /// The `k`-th edge of the task is valid where `cur` places its endpoints.
    pub open spec fn placed_edge_ok(&self, t: &Task, cur: Seq<Option<Point>>, k: int) -> bool {
        let e = t.edges@[k];
        self.valid_edge_spec(t, e.fr as int, e.to as int, cur[e.fr as int]->0, cur[e.to as int]->0)
    }

    /// The index of the first edge, from the `j`-th on, that is not valid
    /// where `cur` places its endpoints.
    pub open spec fn first_bad(&self, t: &Task, cur: Seq<Option<Point>>, j: int) -> Option<int>
        decreases t.edges@.len() - j,
    {
        if j < 0 || j >= t.edges@.len() {
            None
        } else if !self.placed_edge_ok(t, cur, j) {
            Some(j)
        } else {
            self.first_bad(t, cur, j + 1)
        }
    }

    /// The edge `e` from `v`, placed at `p`, to its other endpoint, placed
    /// where `cur` says, is valid.
    pub open spec fn edge_from_ok(&self, t: &Task, v: usize, p: Point, e: Edge, cur: Seq<Option<Point>>) -> bool {
        let a = other_end(e, v);
        self.valid_edge_spec(t, v as int, a, p, cur[a]->0)
    }

    /// Vertex `v` may be placed at `p`: the point is inside, every edge of
    /// `edges` from `v` to an already placed vertex is valid, and every placed
    /// vertex is strictly closer than the bound of `max_dist2`.
    pub open spec fn position_ok(
        &self,
        v: usize,
        p: Point,
        edges: Seq<Edge>,
        cur: Seq<Option<Point>>,
        t: &Task,
    ) -> bool {
        &&& self.point_inside_spec(p@)
        &&& forall|k: int| 0 <= k < edges.len() ==> #[trigger] self.edge_from_ok(t, v, p, edges[k], cur)
        &&& forall|j: int|
            0 <= j < cur.len() && #[trigger] cur[j] is Some ==> dist2(p@, cur[j]->0@) < self.max_dist2@[v as int]@[j]
    }

    /// Whether the lattice point `p` lies on the border of the hole.
    pub fn is_on_edge(&self, p: &Point) -> (r: bool)
        requires
            self.wf(),
            0 <= p.x < self.max_c,
            0 <= p.y < self.max_c,
        ensures
            r == on_polyline(views(self.hole_and_first@), p@),
    {
        let r = self.is_on_edge[p.x as usize][p.y as usize];
        assert(r == self.spec_on_edge(p.x as int, p.y as int));
        r
    }

    /// Whether the lattice point `p` is inside the hole or on its border.
    pub fn is_point_inside(&self, p: &Point) -> (r: bool)
        requires
            self.wf(),
        ensures
            r == self.point_inside_spec(p@),
            r == (0 <= p.x < self.max_c && 0 <= p.y < self.max_c && inside_or_on(
                self.border2(),
                (2 * p.x, 2 * p.y),
            )),
    {
        let len = self.is_inside.len() as i64;
        if p.x < 0 || (p.x as i64) * 2 >= len {
            return false;
        }
        if p.y < 0 || (p.y as i64) * 2 >= len {
            return false;
        }
        let r = self.is_inside[p.x as usize * 2][p.y as usize * 2];
        assert(r == self.cell(2 * p.x, 2 * p.y));
        r
    }

    /// Whether the segment from `p1` to `p2` lies inside the hole.
    pub fn is_edge_inside(&self, p1: &Point, p2: &Point) -> (r: bool)
        requires
            self.wf(),
        ensures
            r == self.edge_inside_spec(*p1, *p2),
    {
        broadcast use vstd::seq_lib::group_to_multiset_ensures;

        let ghost hf = views(self.hole_and_first@);
        let ghost mc = self.max_c as int;
        if !self.is_point_inside(p1) {
            return false;
        }
        if !self.is_point_inside(p2) {
            return false;
        }
        for i in 0..self.hole_and_first.len() - 1
            invariant
                self.wf(),
                hf == views(self.hole_and_first@),
                forall|j: int| 0 <= j < i ==> !#[trigger] crosses_piece(hf, j, p1@, p2@),
        {
            if seg_intersect_without_ends(&self.hole_and_first[i], &self.hole_and_first[i + 1], p1, p2) {
                assert(crosses_piece(hf, i as int, p1@, p2@));
                return false;
            }
        }
        let ghost pred = |h: Point| on_segment(p1@, p2@, h@);
        let mut intersections: Vec<Point> = Vec::new();
        intersections.push(*p1);
        intersections.push(*p2);
        for i in 0..self.hole.len()
            invariant
                self.wf(),
                pred == (|h: Point| on_segment(p1@, p2@, h@)),
                0 <= p1.x < mc && 0 <= p1.y < mc && 0 <= p2.x < mc && 0 <= p2.y < mc,
                mc == self.max_c as int,
                intersections@ == seq![*p1, *p2] + self.hole@.take(i as int).filter(pred),
                forall|k: int|
                    0 <= k < intersections@.len() ==> 0 <= (#[trigger] intersections@[k]).x < mc && 0
                        <= intersections@[k].y < mc,
        {
            let h = self.hole[i];
            proof {
                self.hole@.take(i as int).lemma_filter_push(h, pred);
                assert(self.hole@.take(i + 1) =~= self.hole@.take(i as int).push(h));
                assert(self.spec_hole()[i as int] == h);
            }
            if on_seg(p1, p2, &h) {
                intersections.push(h);
            }
        }
        assert(self.hole@.take(self.hole@.len() as int) =~= self.hole@);
        assert(intersections@ == edge_candidates(self.hole@, *p1, *p2));
        let sorted = sort_points(&intersections);
        proof {
            lemma_point_le_total();
            edge_candidates(self.hole@, *p1, *p2).lemma_sort_by_ensures(point_order());
            lemma_sorted_unique(sorted@, sorted_candidates(self.hole@, *p1, *p2));
        }
        let ghost s = sorted@;
        assert forall|k: int| 0 <= k < s.len() implies 0 <= (#[trigger] s[k]).x < mc && 0 <= s[k].y < mc by {
            assert(s.contains(s[k]));
            assert(s.to_multiset().count(s[k]) > 0);
            assert(intersections@.to_multiset().count(s[k]) > 0);
            assert(intersections@.contains(s[k]));
        }
        if sorted.len() >= 1 {
            for i in 0..sorted.len() - 1
                invariant
                    self.wf(),
                    s == sorted@,
                    s == sorted_candidates(self.hole@, *p1, *p2),
                    sorted@.len() >= 1,
                    mc == self.max_c as int,
                    forall|k: int| 0 <= k < s.len() ==> 0 <= (#[trigger] s[k]).x < mc && 0 <= s[k].y < mc,
                    forall|j: int| 0 <= j < i ==> #[trigger] self.piece_inside(s, j),
            {
                let a = sorted[i];
                let b = sorted[i + 1];
                assert(0 <= s[i + 1].x < mc);
                let inside = self.is_inside[(a.x + b.x) as usize][(a.y + b.y) as usize];
                if !inside {
                    assert(!self.piece_inside(s, i as int));
                    return false;
                }
            }
        }
        true
    }

    /// Whether the edge between vertices `v1` and `v2` of the figure, placed
    /// at `p1` and `p2`, lies inside the hole and keeps its length within
    /// the tolerance.
    pub fn is_valid_edge(&self, t: &Task, v1: usize, v2: usize, p1: &Point, p2: &Point) -> (r: bool)
        requires
            self.wf(),
            v1 < t.fig@.len(),
            v2 < t.fig@.len(),
        ensures
            r == self.valid_edge_spec(t, v1 as int, v2 as int, *p1, *p2),
    {
        if !self.is_edge_inside(p1, p2) {
            return false;
        }
        let init_d2 = d2_wide(&t.fig[v1], &t.fig[v2]);
        let cur_d2 = d2_wide(p1, p2);
        length_within(init_d2, cur_d2, t.epsilon)
    }

    /// Whether vertex `v` may be placed at `p`, given the placed vertices
    /// `cur_positions` and the edges `edges` from `v` to placed vertices.
    pub fn is_valid_position(
        &self,
        v: usize,
        p: &Point,
        edges: &[Edge],
        cur_positions: &[Option<Point>],
        t: &Task,
    ) -> (r: bool)
        requires
            self.wf(),
            v < t.fig@.len(),
            v < self.max_dist2@.len(),
            cur_positions@.len() <= self.max_dist2@.len(),
            forall|k: int|
                0 <= k < edges@.len() ==> {
                    let e = #[trigger] edges@[k];
                    &&& v <= e.fr + e.to <= usize::MAX
                    &&& other_end(e, v) < cur_positions@.len()
                    &&& other_end(e, v) < t.fig@.len()
                    &&& cur_positions@[other_end(e, v)] is Some
                },
        ensures
            r == self.position_ok(v, *p, edges@, cur_positions@, t),
    {
        if !self.is_point_inside(p) {
            return false;
        }
        for k in 0..edges.len()
            invariant
                self.wf(),
                v < t.fig@.len(),
                forall|k: int|
                    0 <= k < edges@.len() ==> {
                        let e = #[trigger] edges@[k];
                        &&& v <= e.fr + e.to <= usize::MAX
                        &&& other_end(e, v) < cur_positions@.len()
                        &&& other_end(e, v) < t.fig@.len()
                        &&& cur_positions@[other_end(e, v)] is Some
                    },
                forall|j: int| 0 <= j < k ==> #[trigger] self.edge_from_ok(t, v, *p, edges@[j], cur_positions@),
        {
            let edge = edges[k];
            let another = edge.to + edge.fr - v;
            let another_p = cur_positions[another].unwrap();
            if !self.is_valid_edge(t, v, another, p, &another_p) {
                assert(!self.edge_from_ok(t, v, *p, edges@[k as int], cur_positions@));
                return false;
            }
        }
        for an_id in 0..cur_positions.len()
            invariant
                self.wf(),
                v < self.max_dist2@.len(),
                cur_positions@.len() <= self.max_dist2@.len(),
                forall|j: int|
                    0 <= j < an_id && #[trigger] cur_positions@[j] is Some ==> dist2(p@, cur_positions@[j]->0@)
                        < self.max_dist2@[v as int]@[j],
        {
            match cur_positions[an_id] {
                None => {},
                Some(an_pos) => {
                    let d2 = d2_wide(p, &an_pos);
                    let expected_max_d2 = self.max_dist2[v][an_id];
                    if d2 >= expected_max_d2 as i128 {
                        return false;
                    }
                },
            }
        }
        true
    }

    /// The first edge of the task, in the task's order, that is not valid
    /// where `cur_positions` places its endpoints; `None` if every edge is valid.
    pub fn get_bad_edge(&self, cur_positions: &[Option<Point>], t: &Task) -> (r: Option<Edge>)
        requires
            self.wf(),
            t.wf(),
            forall|k: int|
                0 <= k < t.edges@.len() ==> {
                    let e = #[trigger] t.edges@[k];
                    &&& e.fr < cur_positions@.len()
                    &&& e.to < cur_positions@.len()
                    &&& cur_positions@[e.fr as int] is Some
                    &&& cur_positions@[e.to as int] is Some
                },
        ensures
            match r {
                None => forall|k: int| 0 <= k < t.edges@.len() ==> #[trigger] self.placed_edge_ok(t, cur_positions@, k),
                Some(e) => exists|k: int|
                    0 <= k < t.edges@.len() && t.edges@[k] == e && !#[trigger] self.placed_edge_ok(t, cur_positions@, k)
                        && forall|j: int| 0 <= j < k ==> #[trigger] self.placed_edge_ok(t, cur_positions@, j),
            },
            r == match self.first_bad(t, cur_positions@, 0) {
                None => None,
                Some(k) => Some(t.edges@[k]),
            },
    {
        for k in 0..t.edges.len()
            invariant
                self.wf(),
                t.wf(),
                forall|k: int|
                    0 <= k < t.edges@.len() ==> {
                        let e = #[trigger] t.edges@[k];
                        &&& e.fr < cur_positions@.len()
                        &&& e.to < cur_positions@.len()
                        &&& cur_positions@[e.fr as int] is Some
                        &&& cur_positions@[e.to as int] is Some
                    },
                forall|j: int| 0 <= j < k ==> #[trigger] self.placed_edge_ok(t, cur_positions@, j),
                self.first_bad(t, cur_positions@, 0) == self.first_bad(t, cur_positions@, k as int),
        {
            let edge = t.edges[k];
            let p = cur_positions[edge.fr].unwrap();
            let another_p = cur_positions[edge.to].unwrap();
            if !self.is_valid_edge(t, edge.fr, edge.to, &p, &another_p) {
                assert(!self.placed_edge_ok(t, cur_positions@, k as int));
                return Some(edge);
            }
        }
        None
    }
}

/// Every vertex of the hole is inside: on the border of the hole.
pub proof fn law_hole_vertices_inside(h: &Helper, i: int)
    requires
        h.wf(),
        0 <= i < h.spec_hole().len(),
    ensures
        h.point_inside_spec(h.spec_hole()[i]@),
{
    let c = h.border2();
    let q = h.spec_hole()[i];
    assert(c[i] == (2 * q.x, 2 * q.y));
    assert(c.len() == h.spec_hole().len() + 1);
    law_on_segment_endpoints_and_symmetry(c[i], c[i + 1], c[i]);
    assert(on_piece(c, i, c[i]));
    assert(on_polyline(c, (2 * q.x, 2 * q.y)));
    assert(h.cell(2 * q.x, 2 * q.y));
}

/// Whether a segment lies inside the hole does not depend on the direction
/// in which it is taken.
pub proof fn law_edge_inside_symmetric(h: &Helper, p1: Point, p2: Point)
    ensures
        h.edge_inside_spec(p1, p2) == h.edge_inside_spec(p2, p1),
{
    broadcast use vstd::seq_lib::group_to_multiset_ensures;

    let hf = views(h.hole_and_first@);
    assert forall|i: int|
        #![trigger crosses_piece(hf, i, p1@, p2@)]
        #![trigger crosses_piece(hf, i, p2@, p1@)]
        0 <= i < hf.len() - 1 implies crosses_piece(hf, i, p1@, p2@) == crosses_piece(hf, i, p2@, p1@) by {
        law_segments_cross_symmetric(hf[i], hf[i + 1], p1@, p2@);
    }
    let f12 = |q: Point| on_segment(p1@, p2@, q@);
    let f21 = |q: Point| on_segment(p2@, p1@, q@);
    assert(f12 =~= f21) by {
        assert forall|q: Point| #[trigger] f12(q) == f21(q) by {
            law_on_segment_endpoints_and_symmetry(p1@, p2@, q@);
        }
    }
    let fl = h.hole@.filter(f12);
    assert(h.hole@.filter(f21) == fl);
    let a = edge_candidates(h.hole@, p1, p2);
    let b = edge_candidates(h.hole@, p2, p1);
    assert(a == seq![p1, p2] + fl);
    assert(b == seq![p2, p1] + fl);
    assert(seq![p1, p2] =~= seq![p1].push(p2));
    assert(seq![p2, p1] =~= seq![p2].push(p1));
    assert(seq![p1] =~= Seq::<Point>::empty().push(p1));
    assert(seq![p2] =~= Seq::<Point>::empty().push(p2));
    assert(seq![p1, p2].to_multiset() =~= seq![p2, p1].to_multiset());
    vstd::seq_lib::lemma_multiset_commutative(seq![p1, p2], fl);
    vstd::seq_lib::lemma_multiset_commutative(seq![p2, p1], fl);
    assert(a.to_multiset() =~= b.to_multiset());
    lemma_point_le_total();
    a.lemma_sort_by_ensures(point_order());
    b.lemma_sort_by_ensures(point_order());
    lemma_sorted_unique(a.sort_by(point_order()), b.sort_by(point_order()));
    let sa = sorted_candidates(h.hole@, p1, p2);
    assert(sa == sorted_candidates(h.hole@, p2, p1));
    assert((forall|i: int| 0 <= i < hf.len() - 1 ==> !#[trigger] crosses_piece(hf, i, p1@, p2@)) == (forall|i: int|
        0 <= i < hf.len() - 1 ==> !#[trigger] crosses_piece(hf, i, p2@, p1@)));
}

/// Moving one endpoint of an edge by a displacement that the tables list for
/// that edge, away from the other endpoint, gives the edge a squared length
/// within tolerance.
pub proof fn law_listed_shift_keeps_length(h: &Helper, t: &Task, e: int, base: (int, int), s: Shift)
    requires
        h.for_task(t),
        0 <= e < t.edges@.len(),
        h.shifts_per_edge@[e]@.contains(s),
    ensures
        length_ok(
            dist2(t.fig@[t.edges@[e].fr as int]@, t.fig@[t.edges@[e].to as int]@),
            dist2(base, crate::geometry::moved(base, s.dx as int, s.dy as int)),
            t.epsilon as int,
        ),
{
    crate::geometry::law_moved_dist2(base, s.dx as int, s.dy as int);
}

/// Whether an edge is valid does not depend on the direction in which it is taken.
pub proof fn law_valid_edge_symmetric(h: &Helper, t: &Task, v1: int, v2: int, p1: Point, p2: Point)
    ensures
        h.valid_edge_spec(t, v1, v2, p1, p2) == h.valid_edge_spec(t, v2, v1, p2, p1),
{
    law_edge_inside_symmetric(h, p1, p2);
    crate::geometry::law_dist2_metric(t.fig@[v1]@, t.fig@[v2]@);
    crate::geometry::law_dist2_metric(p1@, p2@);
}

} // verus!
