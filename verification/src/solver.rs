//! A randomized depth-first placement of the figure, vertex by vertex.
use vstd::prelude::*;
use crate::geometry::{Point, Edge, Shift, dist2, fits_i32, shifted};
use crate::helper::{Helper, other_end, law_valid_edge_symmetric, is_shift_list};
use crate::rand::{Random, xorshift};
use crate::task::Task;

verus! {

/// The number of vertices that are not placed yet.
pub open spec fn unplaced(s: Seq<Option<Point>>) -> nat
    decreases s.len(),
{
    if s.len() == 0 {
        0
    } else {
        unplaced(s.drop_last()) + if s.last() is None {
            1nat
        } else {
            0nat
        }
    }
}

/// Coordinates far enough from the limits of `i32` that any displacement
/// listed for an edge can be applied.
pub open spec fn placed_ok(p: Point, mc: int) -> bool {
    0 <= p.x <= i32::MAX - mc && i32::MIN + mc <= p.y <= i32::MAX - mc
}

/// `vs` places every vertex, and keeps those that `cur` had placed where they were.
pub open spec fn extends(cur: Seq<Option<Point>>, vs: Seq<Point>) -> bool {
    &&& vs.len() == cur.len()
    &&& forall|i: int| 0 <= i < cur.len() && #[trigger] cur[i] is Some ==> vs[i] == cur[i]->0
}

/// The `k`-th edge has an endpoint that `cur` leaves unplaced.
pub open spec fn touches_unplaced(t: &Task, cur: Seq<Option<Point>>, k: int) -> bool {
    let e = t.edges@[k];
    cur[e.fr as int] is None || cur[e.to as int] is None
}

/// The placement `vs` completes `cur` as the solver does: the vertices it
/// adds are inside the hole, every edge with an added endpoint (other than
/// an edge from a vertex to itself) is valid, and every added vertex keeps
/// within the distance bounds of `max_dist2` to the vertices that were placed
/// before it.
pub open spec fn completes(h: &Helper, t: &Task, cur: Seq<Option<Point>>, vs: Seq<Point>) -> bool {
    &&& extends(cur, vs)
    &&& forall|i: int| 0 <= i < cur.len() && #[trigger] cur[i] is None ==> h.point_inside_spec(vs[i]@)
    &&& forall|k: int|
        0 <= k < t.edges@.len() && t.edges@[k].fr != t.edges@[k].to && #[trigger] touches_unplaced(t, cur, k)
            ==> h.valid_edge_spec(
            t,
            t.edges@[k].fr as int,
            t.edges@[k].to as int,
            vs[t.edges@[k].fr as int],
            vs[t.edges@[k].to as int],
        )
    &&& forall|i: int, j: int|
        0 <= i < cur.len() && 0 <= j < cur.len() && #[trigger] cur[i] is None && #[trigger] cur[j] is Some
            ==> dist2(vs[i]@, vs[j]@) < h.max_dist2@[i]@[j]
    &&& forall|i: int, j: int|
        0 <= i < cur.len() && 0 <= j < cur.len() && i != j && #[trigger] cur[i] is None && #[trigger] cur[j] is None
            ==> dist2(vs[i]@, vs[j]@) < h.max_dist2@[i]@[j] || dist2(vs[j]@, vs[i]@) < h.max_dist2@[j]@[i]
}

/// The edge `e` joins `v` to a vertex that `cur` has placed.
pub open spec fn to_placed(e: Edge, v: usize, cur: Seq<Option<Point>>) -> bool {
    (e.fr == v && cur[e.to as int] is Some) || (e.to == v && cur[e.fr as int] is Some)
}

/// The requirements that the solver places on its inputs.
pub open spec fn solver_input(h: &Helper, t: &Task, cur: Seq<Option<Point>>) -> bool {
    &&& h.wf()
    &&& h.for_task(t)
    &&& t.wf()
    &&& cur.len() == t.fig@.len()
    &&& t.fig@.len() < usize::MAX / 2
    &&& forall|i: int| 0 <= i < cur.len() && #[trigger] cur[i] is Some ==> placed_ok(cur[i]->0, h.max_c as int)
}

/// Placing an unplaced vertex leaves one fewer to place.
pub proof fn lemma_unplaced_update(s: Seq<Option<Point>>, i: int, p: Point)
    requires
        0 <= i < s.len(),
        s[i] is None,
    ensures
        unplaced(s.update(i, Some(p))) + 1 == unplaced(s),
    decreases s.len(),
{
    let u = s.update(i, Some(p));
    if i == s.len() - 1 {
        assert(u.drop_last() =~= s.drop_last());
    } else {
        assert(u.drop_last() =~= s.drop_last().update(i, Some(p)));
        lemma_unplaced_update(s.drop_last(), i, p);
    }
}

/// With no vertex left unplaced, every entry is placed.
proof fn lemma_all_placed(s: Seq<Option<Point>>)
    requires
        forall|i: int| 0 <= i < s.len() ==> #[trigger] s[i] is Some,
    ensures
        unplaced(s) == 0,
    decreases s.len(),
{
    if s.len() > 0 {
        assert forall|i: int| 0 <= i < s.len() - 1 implies #[trigger] s.drop_last()[i] is Some by {
            assert(s.drop_last()[i] == s[i]);
        }
        lemma_all_placed(s.drop_last());
    }
}

pub(crate) proof fn lemma_unplaced_zero(s: Seq<Option<Point>>)
    requires
        unplaced(s) == 0,
    ensures
        forall|i: int| 0 <= i < s.len() ==> #[trigger] s[i] is Some,
    decreases s.len(),
{
    if s.len() > 0 {
        lemma_unplaced_zero(s.drop_last());
        assert forall|i: int| 0 <= i < s.len() implies #[trigger] s[i] is Some by {
            if i < s.len() - 1 {
                assert(s.drop_last()[i] == s[i]);
            }
        }
    }
}

/// How many of the first `k` edges join vertex `i` to a vertex that `cur`
/// has placed.
pub open spec fn placed_neighbours(t: &Task, cur: Seq<Option<Point>>, i: usize, k: int) -> nat
    decreases k,
{
    if k <= 0 {
        0
    } else {
        placed_neighbours(t, cur, i, k - 1) + if to_placed(t.edges@[k - 1], i, cur) {
            1nat
        } else {
            0nat
        }
    }
}

/// The number of edges from vertex `i` to vertices that `cur` has placed.
pub(crate) fn count_edges_to_placed(t: &Task, cur: &Vec<Option<Point>>, i: usize) -> (r: usize)
    requires
        t.wf(),
        cur@.len() == t.fig@.len(),
    ensures
        r == placed_neighbours(t, cur@, i, t.edges@.len() as int),
{
    let mut edges: usize = 0;
    for k in 0..t.edges.len()
        invariant
            t.wf(),
            cur@.len() == t.fig@.len(),
            edges <= k,
            edges == placed_neighbours(t, cur@, i, k as int),
    {
        let e = t.edges[k];
        if e.fr == i && cur[e.to].is_some() || e.to == i && cur[e.fr].is_some() {
            edges += 1;
        }
    }
    edges
}

/// The unplaced vertex among the first `i` that the solver places next: the
/// one with the most edges to placed vertices, the last among equals.
pub open spec fn pick_vertex(t: &Task, cur: Seq<Option<Point>>, i: int) -> Option<usize>
    decreases i,
{
    if i <= 0 {
        None
    } else {
        let prev = pick_vertex(t, cur, i - 1);
        let n_edges = t.edges@.len() as int;
        if cur[i - 1] is None && (prev is None || placed_neighbours(t, cur, (i - 1) as usize, n_edges)
            >= placed_neighbours(t, cur, prev->0, n_edges)) {
            Some((i - 1) as usize)
        } else {
            prev
        }
    }
}

proof fn lemma_pick_vertex(t: &Task, cur: Seq<Option<Point>>, i: int)
    requires
        0 <= i <= cur.len(),
        cur.len() <= usize::MAX,
    ensures
        pick_vertex(t, cur, i) is None <==> forall|u: int| 0 <= u < i ==> #[trigger] cur[u] is Some,
        pick_vertex(t, cur, i) matches Some(v) ==> {
            let n_e = t.edges@.len() as int;
            &&& v < i
            &&& cur[v as int] is None
            &&& forall|u: int|
                0 <= u < i && #[trigger] cur[u] is None ==> placed_neighbours(t, cur, u as usize, n_e)
                    <= placed_neighbours(t, cur, v, n_e)
            &&& forall|u: int|
                v < u < i && #[trigger] cur[u] is None ==> placed_neighbours(t, cur, u as usize, n_e)
                    < placed_neighbours(t, cur, v, n_e)
        },
    decreases i,
{
    if i > 0 {
        lemma_pick_vertex(t, cur, i - 1);
        let n_e = t.edges@.len() as int;
        let prev = pick_vertex(t, cur, i - 1);
        let w = (i - 1) as usize;
        assert(w as int == i - 1);
        if cur[i - 1] is None && (prev is None || placed_neighbours(t, cur, w, n_e) >= placed_neighbours(
            t,
            cur,
            prev->0,
            n_e,
        )) {
            assert(pick_vertex(t, cur, i) == Some(w));
            assert forall|u: int|
                0 <= u < i && #[trigger] cur[u] is None implies placed_neighbours(t, cur, u as usize, n_e)
                <= placed_neighbours(t, cur, w, n_e) by {
                if u < i - 1 {
                    assert(prev is Some);
                }
            }
        } else {
            assert(pick_vertex(t, cur, i) == prev);
            if prev is None {
                assert(cur[i - 1] is Some);
            }
            assert forall|u: int|
                0 <= u < i && #[trigger] cur[u] is None implies placed_neighbours(t, cur, u as usize, n_e)
                <= placed_neighbours(t, cur, prev->0, n_e) by {
                if u == i - 1 {
                    assert(u as usize == w);
                }
            }
            assert forall|u: int|
                prev->0 < u < i && #[trigger] cur[u] is None implies placed_neighbours(t, cur, u as usize, n_e)
                < placed_neighbours(t, cur, prev->0, n_e) by {
                if u == i - 1 {
                    assert(u as usize == w);
                }
            }
        }
    }
}

/// The solver places next the unplaced vertex with the most edges to placed
/// vertices, the last among equals, and finds none to place exactly when
/// every vertex is placed.
pub proof fn law_next_vertex_has_most_placed_neighbours(t: &Task, cur: Seq<Option<Point>>)
    requires
        cur.len() <= usize::MAX,
    ensures
        pick_vertex(t, cur, cur.len() as int) is None <==> forall|u: int| 0 <= u < cur.len() ==> #[trigger] cur[u] is Some,
        pick_vertex(t, cur, cur.len() as int) matches Some(v) ==> {
            let n_e = t.edges@.len() as int;
            &&& v < cur.len()
            &&& cur[v as int] is None
            &&& forall|u: int|
                0 <= u < cur.len() && #[trigger] cur[u] is None ==> placed_neighbours(t, cur, u as usize, n_e)
                    <= placed_neighbours(t, cur, v, n_e)
            &&& forall|u: int|
                v < u < cur.len() && #[trigger] cur[u] is None ==> placed_neighbours(t, cur, u as usize, n_e)
                    < placed_neighbours(t, cur, v, n_e)
        },
{
    lemma_pick_vertex(t, cur, cur.len() as int);
}

/// The indices, in order, of the first `k` edges that join `v` to a placed
/// vertex.
pub open spec fn placed_edge_ids(t: &Task, v: usize, cur: Seq<Option<Point>>, k: int) -> Seq<usize>
    decreases k,
{
    if k <= 0 {
        seq![]
    } else {
        let prev = placed_edge_ids(t, v, cur, k - 1);
        if to_placed(t.edges@[k - 1], v, cur) {
            prev.push((k - 1) as usize)
        } else {
            prev
        }
    }
}

/// The edges with the indices `ids`.
pub open spec fn edges_of(t: &Task, ids: Seq<usize>) -> Seq<Edge> {
    ids.map_values(|id: usize| t.edges@[id as int])
}

/// The points of `pts`, in order, at which `v` may stand.
pub open spec fn fitting(
    h: &Helper,
    t: &Task,
    v: usize,
    edges: Seq<Edge>,
    cur: Seq<Option<Point>>,
    pts: Seq<Point>,
) -> Seq<Point>
    decreases pts.len(),
{
    if pts.len() == 0 {
        pts
    } else {
        let rest = fitting(h, t, v, edges, cur, pts.drop_last());
        if h.position_ok(v, pts.last(), edges, cur, t) {
            rest.push(pts.last())
        } else {
            rest
        }
    }
}

/// The lattice points of column `x` with second coordinate below `yk`.
pub open spec fn grid_row(x: int, yk: int) -> Seq<Point> {
    Seq::new(yk as nat, |y: int| Point { x: x as i32, y: y as i32 })
}

/// The lattice points of the first `xk` columns of the square of side `mc`,
/// column after column.
pub open spec fn grid_points(mc: int, xk: int) -> Seq<Point>
    decreases xk,
{
    if xk <= 0 {
        seq![]
    } else {
        grid_points(mc, xk - 1) + grid_row(xk - 1, mc)
    }
}

/// Among the first `m` edges listed in `ids`, the position in `ids` of the
/// first one with the fewest listed displacements.
pub open spec fn fewest_shifts(h: &Helper, ids: Seq<usize>, m: int) -> int
    decreases m,
{
    if m <= 1 {
        0
    } else {
        let b = fewest_shifts(h, ids, m - 1);
        if h.shifts_per_edge@[ids[m - 1] as int]@.len() < h.shifts_per_edge@[ids[b] as int]@.len() {
            m - 1
        } else {
            b
        }
    }
}

/// The points `base` moved by each of `shifts`, in order.
pub open spec fn shifted_points(base: Point, shifts: Seq<Shift>) -> Seq<Point> {
    Seq::new(shifts.len(), |i: int| shifted(base, shifts[i]))
}

/// The positions among which the solver draws the one of vertex `v`: when
/// `coin` came up, the vertices of the hole at which `v` may stand; if that
/// gives none, every such lattice point of the table when `v` has no edge to
/// a placed vertex, and otherwise every such displacement from the placed
/// end of its edge with the fewest listed displacements.
pub open spec fn candidates(h: &Helper, t: &Task, cur: Seq<Option<Point>>, v: usize, coin: bool) -> Seq<Point> {
    let ids = placed_edge_ids(t, v, cur, t.edges@.len() as int);
    let edges = edges_of(t, ids);
    let from_hole = if coin {
        fitting(h, t, v, edges, cur, t.hole@)
    } else {
        seq![]
    };
    if from_hole.len() > 0 {
        from_hole
    } else if ids.len() == 0 {
        fitting(h, t, v, edges, cur, grid_points(h.max_c as int, h.max_c as int))
    } else {
        let best = ids[fewest_shifts(h, ids, ids.len() as int)];
        let base = cur[other_end(t.edges@[best as int], v)]->0;
        fitting(h, t, v, edges, cur, shifted_points(base, h.shifts_per_edge@[best as int]@))
    }
}

proof fn lemma_fitting_keeps(
    h: &Helper,
    t: &Task,
    v: usize,
    edges: Seq<Edge>,
    cur: Seq<Option<Point>>,
    pts: Seq<Point>,
    i: int,
)
    requires
        0 <= i < pts.len(),
        h.position_ok(v, pts[i], edges, cur, t),
    ensures
        fitting(h, t, v, edges, cur, pts).contains(pts[i]),
    decreases pts.len(),
{
    let rest = fitting(h, t, v, edges, cur, pts.drop_last());
    if i == pts.len() - 1 {
        assert(fitting(h, t, v, edges, cur, pts)[rest.len() as int] == pts[i]);
    } else {
        assert(pts.drop_last()[i] == pts[i]);
        lemma_fitting_keeps(h, t, v, edges, cur, pts.drop_last(), i);
        let j = choose|j: int| 0 <= j < rest.len() && rest[j] == pts[i];
        assert(fitting(h, t, v, edges, cur, pts)[j] == pts[i]);
    }
}

pub(crate) proof fn lemma_grid_has(mc: int, xk: int, p: Point)
    requires
        0 <= p.x < xk,
        0 <= p.y < mc,
    ensures
        grid_points(mc, xk).contains(p),
    decreases xk,
{
    let prev = grid_points(mc, xk - 1);
    let row = grid_row(xk - 1, mc);
    assert(grid_points(mc, xk) == prev + row);
    if p.x == xk - 1 {
        assert(row[p.y as int] == p);
        assert((prev + row)[prev.len() + p.y] == p);
    } else {
        lemma_grid_has(mc, xk - 1, p);
        let j = choose|j: int| 0 <= j < prev.len() && prev[j] == p;
        assert((prev + row)[j] == p);
    }
}

proof fn lemma_no_placed_edge_ids(t: &Task, v: usize, cur: Seq<Option<Point>>, k: int)
    requires
        forall|j: int| 0 <= j < t.edges@.len() ==> !to_placed(#[trigger] t.edges@[j], v, cur),
        k <= t.edges@.len(),
    ensures
        placed_edge_ids(t, v, cur, k).len() == 0,
    decreases k,
{
    if k > 0 {
        lemma_no_placed_edge_ids(t, v, cur, k - 1);
    }
}

/// A vertex with no edge to a placed vertex is never left without a position
/// when it may stand somewhere: for every lattice point `p` inside the hole
/// that is strictly within the distance bound of every placed vertex, the
/// positions the solver draws among are not empty, and, unless the draw sent
/// the solver to the vertices of the hole first, `p` is one of them.
pub proof fn law_free_vertex_may_go_anywhere(
    h: &Helper,
    t: &Task,
    cur: Seq<Option<Point>>,
    v: usize,
    coin: bool,
    p: Point,
)
    requires
        h.wf(),
        forall|k: int| 0 <= k < t.edges@.len() ==> !to_placed(#[trigger] t.edges@[k], v, cur),
        h.point_inside_spec(p@),
        forall|j: int|
            0 <= j < cur.len() && #[trigger] cur[j] is Some ==> dist2(p@, cur[j]->0@) < h.max_dist2@[v as int]@[j],
    ensures
        candidates(h, t, cur, v, coin).len() > 0,
        !coin ==> candidates(h, t, cur, v, coin).contains(p),
{
    let ids = placed_edge_ids(t, v, cur, t.edges@.len() as int);
    lemma_no_placed_edge_ids(t, v, cur, t.edges@.len() as int);
    let edges = edges_of(t, ids);
    assert(edges.len() == 0);
    assert(h.position_ok(v, p, edges, cur, t));
    let mc = h.max_c as int;
    lemma_grid_has(mc, mc, p);
    let pts = grid_points(mc, mc);
    let i = choose|i: int| 0 <= i < pts.len() && pts[i] == p;
    lemma_fitting_keeps(h, t, v, edges, cur, pts, i);
}

pub(crate) proof fn lemma_placed_edge_ids_valid(t: &Task, v: usize, cur: Seq<Option<Point>>, k: int)
    requires
        k <= t.edges@.len(),
        t.edges@.len() <= usize::MAX,
    ensures
        forall|m: int|
            0 <= m < placed_edge_ids(t, v, cur, k).len() ==> #[trigger] placed_edge_ids(t, v, cur, k)[m] < k
                && to_placed(t.edges@[placed_edge_ids(t, v, cur, k)[m] as int], v, cur),
    decreases k,
{
    if k > 0 {
        lemma_placed_edge_ids_valid(t, v, cur, k - 1);
        let prev = placed_edge_ids(t, v, cur, k - 1);
        let ids = placed_edge_ids(t, v, cur, k);
        assert forall|m: int| 0 <= m < ids.len() implies #[trigger] ids[m] < k && to_placed(
            t.edges@[ids[m] as int],
            v,
            cur,
        ) by {
            if m < prev.len() {
                assert(ids[m] == prev[m]);
            } else {
                assert(ids[m] == (k - 1) as usize);
                assert((k - 1) as usize as int == k - 1);
            }
        }
    }
}

proof fn lemma_fewest_in_range(h: &Helper, ids: Seq<usize>, m: int)
    requires
        m >= 1,
    ensures
        0 <= fewest_shifts(h, ids, m) < m,
    decreases m,
{
    if m > 1 {
        lemma_fewest_in_range(h, ids, m - 1);
    }
}

/// The solver never passes over a position at which the vertex may stand:
/// for every lattice point `p` inside the hole at which every edge from `v`
/// to a placed vertex is valid and which is strictly within the distance
/// bound of every placed vertex, the positions the solver draws among are
/// not empty, and, unless the draw sent the solver to the vertices of the
/// hole first, `p` is one of them, whether or not `v` has placed neighbours.
pub proof fn law_candidates_hold_every_fitting_point(
    h: &Helper,
    t: &Task,
    cur: Seq<Option<Point>>,
    v: usize,
    coin: bool,
    p: Point,
)
    requires
        solver_input(h, t, cur),
        v < cur.len(),
        h.point_inside_spec(p@),
        forall|k: int|
            0 <= k < t.edges@.len() && to_placed(#[trigger] t.edges@[k], v, cur) ==> h.edge_from_ok(t, v, p, t.edges@[k], cur),
        forall|j: int|
            0 <= j < cur.len() && #[trigger] cur[j] is Some ==> dist2(p@, cur[j]->0@) < h.max_dist2@[v as int]@[j],
    ensures
        candidates(h, t, cur, v, coin).len() > 0,
        !coin ==> candidates(h, t, cur, v, coin).contains(p),
{
    let n_e = t.edges@.len() as int;
    let ids = placed_edge_ids(t, v, cur, n_e);
    assert(t.edges@.len() == t.edges.len());
    lemma_placed_edge_ids_valid(t, v, cur, n_e);
    let edges = edges_of(t, ids);
    assert forall|m: int| 0 <= m < edges.len() implies #[trigger] h.edge_from_ok(t, v, p, edges[m], cur) by {
        assert(ids[m] < n_e);
        assert(to_placed(t.edges@[ids[m] as int], v, cur));
    }
    assert(h.position_ok(v, p, edges, cur, t));
    let mc = h.max_c as int;
    if ids.len() == 0 {
        lemma_grid_has(mc, mc, p);
        let pts = grid_points(mc, mc);
        let i = choose|i: int| 0 <= i < pts.len() && pts[i] == p;
        lemma_fitting_keeps(h, t, v, edges, cur, pts, i);
    } else {
        let bi = fewest_shifts(h, ids, ids.len() as int);
        lemma_fewest_in_range(h, ids, ids.len() as int);
        let best = ids[bi];
        assert(best < n_e);
        let e = t.edges@[best as int];
        assert(to_placed(e, v, cur));
        assert(edges[bi] == e);
        assert(h.edge_from_ok(t, v, p, e, cur));
        let other = other_end(e, v);
        let base = cur[other]->0;
        assert(h.valid_edge_spec(t, v as int, other, p, base));
        let sh = Shift { dx: (p.x - base.x) as i32, dy: (p.y - base.y) as i32 };
        assert(sh.dx == p.x - base.x && sh.dy == p.y - base.y);
        assert(sh.dx * sh.dx + sh.dy * sh.dy == dist2(p@, base@));
        crate::geometry::law_dist2_metric(t.fig@[e.fr as int]@, t.fig@[e.to as int]@);
        let list = h.shifts_per_edge@[best as int]@;
        assert(is_shift_list(
            list,
            mc,
            dist2(t.fig@[e.fr as int]@, t.fig@[e.to as int]@),
            t.epsilon as int,
        ));
        assert(list.contains(sh));
        let i = choose|i: int| 0 <= i < list.len() && list[i] == sh;
        let pts = shifted_points(base, list);
        assert(pts[i] == p);
        lemma_fitting_keeps(h, t, v, edges, cur, pts, i);
    }
}

/// What `solve_rec` gives from the placement `cur` and the generator state
/// `st`: the completed placement (`None` when a vertex is left with no
/// position), and the state reached.
pub open spec fn solve_from(h: &Helper, t: &Task, cur: Seq<Option<Point>>, st: usize) -> (Option<Seq<Point>>, usize)
    decreases unplaced(cur),
{
    match pick_vertex(t, cur, cur.len() as int) {
        None => (Some(Seq::new(cur.len(), |i: int| cur[i]->0)), st),
        Some(v) => {
            let st1 = xorshift(st);
            let cands = candidates(h, t, cur, v, st1 % 10 == 0);
            if cands.len() == 0 {
                (None, st1)
            } else {
                let st2 = xorshift(st1);
                let p = cands[(st2 % (cands.len() as usize)) as int];
                if v < cur.len() && cur[v as int] is None {
                    proof {
                        lemma_unplaced_update(cur, v as int, p);
                    }
                    solve_from(h, t, cur.update(v as int, Some(p)), st2)
                } else {
                    (None, st2)
                }
            }
        },
    }
}

/// Completes the placement `cur_positions`: picks the unplaced vertex with
/// the most edges to placed vertices (the highest index among ties), draws
/// its position at random among the valid ones, and goes on with the
/// others. When a vertex has no valid position the placements made on the
/// way are taken back and `None` is returned.
#[verifier::spinoff_prover]
#[verifier::rlimit(40)]
pub fn solve_rec(
    t: &Task,
    helper: &Helper,
    cur_positions: &mut Vec<Option<Point>>,
    rnd: &mut Random,
) -> (r: Option<Vec<Point>>)
    requires
        solver_input(helper, t, old(cur_positions)@),
    ensures
        match r {
            Some(vs) => {
                &&& completes(helper, t, old(cur_positions)@, vs@)
                &&& final(cur_positions)@ == vs@.map_values(|p: Point| Some(p))
            },
            None => final(cur_positions)@ == old(cur_positions)@,
        },
        unplaced(old(cur_positions)@) == 0 ==> r is Some,
        ({
            let o = solve_from(helper, t, old(cur_positions)@, old(rnd).state());
            &&& final(rnd).state() == o.1
            &&& match r {
                Some(vs) => o.0 == Some(vs@),
                None => o.0 is None,
            }
        }),
    decreases unplaced(old(cur_positions)@),
{
    let ghost cur0 = cur_positions@;
    let ghost st0 = rnd.state();
    proof {
        if unplaced(cur0) == 0 {
            lemma_unplaced_zero(cur0);
        }
    }
    let n = cur_positions.len();
    let mut found_unplaced = false;
    let mut best_edges: usize = 0;
    let mut v_to_put: usize = 0;
    for i in 0..n
        invariant
            t.wf(),
            n == cur_positions@.len(),
            cur_positions@.len() == t.fig@.len(),
            found_unplaced ==> v_to_put < n && cur_positions@[v_to_put as int] is None,
            found_unplaced == exists|j: int| 0 <= j < i && #[trigger] cur_positions@[j] is None,
            found_unplaced ==> best_edges == placed_neighbours(t, cur_positions@, v_to_put, t.edges@.len() as int),
            pick_vertex(t, cur_positions@, i as int) == if found_unplaced {
                Some(v_to_put)
            } else {
                None
            },
    {
        if cur_positions[i].is_none() {
            let edges = count_edges_to_placed(t, cur_positions, i);
            if !found_unplaced || edges >= best_edges {
                best_edges = edges;
                v_to_put = i;
            }
            found_unplaced = true;
        }
    }
    if !found_unplaced {
        let mut vertices: Vec<Point> = Vec::new();
        for i in 0..n
            invariant
                n == cur_positions@.len(),
                forall|j: int| 0 <= j < n ==> #[trigger] cur_positions@[j] is Some,
                vertices@.len() == i,
                forall|j: int| 0 <= j < i ==> Some(#[trigger] vertices@[j]) == cur_positions@[j],
        {
            vertices.push(cur_positions[i].unwrap());
        }
        assert(cur_positions@ =~= vertices@.map_values(|p: Point| Some(p)));
        assert(extends(cur0, vertices@));
        assert(vertices@ =~= Seq::new(cur0.len(), |i: int| cur0[i]->0));
        return Some(vertices);
    }
    let v = v_to_put;
    let mut edges: Vec<Edge> = Vec::new();
    let mut edge_ids: Vec<usize> = Vec::new();
    for k in 0..t.edges.len()
        invariant
            solver_input(helper, t, cur_positions@),
            v < n,
            n == cur_positions@.len(),
            cur_positions@[v as int] is None,
            edges@.len() == edge_ids@.len(),
            forall|m: int|
                0 <= m < edges@.len() ==> #[trigger] edge_ids@[m] < t.edges@.len() && t.edges@[edge_ids@[m] as int]
                    == edges@[m],
            forall|m: int| 0 <= m < edges@.len() ==> to_placed(#[trigger] edges@[m], v, cur_positions@),
            forall|j: int|
                0 <= j < k && to_placed(#[trigger] t.edges@[j], v, cur_positions@) ==> edges@.contains(t.edges@[j]),
            edge_ids@ == placed_edge_ids(t, v, cur_positions@, k as int),
    {
        let e = t.edges[k];
        let ghost before = edges@;
        if e.fr == v && cur_positions[e.to].is_some() || e.to == v && cur_positions[e.fr].is_some() {
            edges.push(e);
            edge_ids.push(k);
        }
        assert forall|j: int| 0 <= j < k + 1 && to_placed(#[trigger] t.edges@[j], v, cur_positions@) implies edges@.contains(
            t.edges@[j],
        ) by {
            if j == k {
                assert(edges@[edges@.len() - 1] == e);
            } else {
                assert(before.contains(t.edges@[j]));
                let m = choose|m: int| 0 <= m < before.len() && before[m] == t.edges@[j];
                assert(edges@[m] == t.edges@[j]);
            }
        }
    }
    assert(edges@ =~= edges_of(t, edge_ids@));
    let ghost pos_ok = |p: Point| helper.position_ok(v, p, edges@, cur_positions@, t);
    proof {
        assert forall|k: int|
            0 <= k < edges@.len() implies {
                let e = #[trigger] edges@[k];
                &&& v <= e.fr + e.to <= usize::MAX
                &&& other_end(e, v) < cur_positions@.len()
                &&& other_end(e, v) < t.fig@.len()
                &&& cur_positions@[other_end(e, v)] is Some
            } by {
            assert(to_placed(edges@[k], v, cur_positions@));
            assert(t.edges@[edge_ids@[k] as int] == edges@[k]);
        }
    }
    let mut possible_positions: Vec<Point> = Vec::new();
    let coin = rnd.next_in_range(0, 10) == 0;
    let ghost st1 = rnd.state();
    if coin {
        for i in 0..t.hole.len()
            invariant
                solver_input(helper, t, cur_positions@),
                v < n,
                n == cur_positions@.len(),
                pos_ok == (|p: Point| helper.position_ok(v, p, edges@, cur_positions@, t)),
                forall|k: int|
                    0 <= k < edges@.len() ==> {
                        let e = #[trigger] edges@[k];
                        &&& v <= e.fr + e.to <= usize::MAX
                        &&& other_end(e, v) < cur_positions@.len()
                        &&& other_end(e, v) < t.fig@.len()
                        &&& cur_positions@[other_end(e, v)] is Some
                    },
                forall|m: int| 0 <= m < possible_positions@.len() ==> pos_ok(#[trigger] possible_positions@[m]),
                possible_positions@ == fitting(helper, t, v, edges@, cur_positions@, t.hole@.take(i as int)),
        {
            let p = t.hole[i];
            assert(t.hole@.take(i + 1).drop_last() =~= t.hole@.take(i as int));
            if helper.is_valid_position(v, &p, edges.as_slice(), cur_positions.as_slice(), t) {
                possible_positions.push(p);
            }
        }
        assert(t.hole@.take(t.hole@.len() as int) =~= t.hole@);
    }
    let ghost from_hole = possible_positions@;
    if possible_positions.len() == 0 {
        if edges.len() == 0 {
            let mc = helper.max_c;
            for x in 0..helper.max_c
                invariant
                    solver_input(helper, t, cur_positions@),
                    v < n,
                    n == cur_positions@.len(),
                    edges@.len() == 0,
                    mc == helper.max_c,
                    pos_ok == (|p: Point| helper.position_ok(v, p, edges@, cur_positions@, t)),
                    forall|m: int| 0 <= m < possible_positions@.len() ==> pos_ok(#[trigger] possible_positions@[m]),
                    possible_positions@ == fitting(helper, t, v, edges@, cur_positions@, grid_points(mc as int, x as int)),
            {
                assert(grid_row(x as int, 0) =~= seq![]);
                assert(grid_points(mc as int, x as int) + grid_row(x as int, 0) =~= grid_points(mc as int, x as int));
                for y in 0..helper.max_c
                    invariant
                        solver_input(helper, t, cur_positions@),
                        v < n,
                        n == cur_positions@.len(),
                        edges@.len() == 0,
                        mc == helper.max_c,
                        0 <= x < mc,
                        pos_ok == (|p: Point| helper.position_ok(v, p, edges@, cur_positions@, t)),
                        forall|m: int| 0 <= m < possible_positions@.len() ==> pos_ok(#[trigger] possible_positions@[m]),
                        possible_positions@ == fitting(
                            helper,
                            t,
                            v,
                            edges@,
                            cur_positions@,
                            grid_points(mc as int, x as int) + grid_row(x as int, y as int),
                        ),
                {
                    let p = Point { x, y };
                    let ghost a = grid_points(mc as int, x as int) + grid_row(x as int, y as int);
                    let ghost b = grid_points(mc as int, x as int) + grid_row(x as int, y + 1);
                    assert(b =~= a.push(p));
                    assert(b.drop_last() =~= a);
                    if helper.is_valid_position(v, &p, edges.as_slice(), cur_positions.as_slice(), t) {
                        possible_positions.push(p);
                    }
                }
            }
        } else {
            let first = edges[0];
            let mut base_p = cur_positions[first.fr + first.to - v].unwrap();
            let mut best_id = edge_ids[0];
            let mut cur_best_cnt = helper.shifts_per_edge[best_id].len();
            let ghost mut bi: int = 0;
            for m in 1..edges.len()
                invariant
                    solver_input(helper, t, cur_positions@),
                    v < n,
                    n == cur_positions@.len(),
                    edges@.len() == edge_ids@.len(),
                    forall|m: int|
                        0 <= m < edges@.len() ==> #[trigger] edge_ids@[m] < t.edges@.len() && t.edges@[edge_ids@[m] as int]
                            == edges@[m],
                    forall|k: int|
                        0 <= k < edges@.len() ==> {
                            let e = #[trigger] edges@[k];
                            &&& v <= e.fr + e.to <= usize::MAX
                            &&& other_end(e, v) < cur_positions@.len()
                            &&& other_end(e, v) < t.fig@.len()
                            &&& cur_positions@[other_end(e, v)] is Some
                        },
                    best_id < t.edges@.len(),
                    cur_best_cnt == helper.shifts_per_edge@[best_id as int]@.len(),
                    placed_ok(base_p, helper.max_c as int),
                    0 <= bi < m,
                    bi == fewest_shifts(helper, edge_ids@, m as int),
                    best_id == edge_ids@[bi],
                    Some(base_p) == cur_positions@[other_end(edges@[bi], v)],
            {
                let e = edges[m];
                let e_id = edge_ids[m];
                let cnt = helper.shifts_per_edge[e_id].len();
                if cnt < cur_best_cnt {
                    cur_best_cnt = cnt;
                    base_p = cur_positions[e.fr + e.to - v].unwrap();
                    best_id = e_id;
                    proof {
                        bi = m as int;
                    }
                }
            }
            assert(t.edges@[best_id as int] == edges@[bi]);
            let shifts = &helper.shifts_per_edge[best_id];
            for k in 0..shifts.len()
                invariant
                    solver_input(helper, t, cur_positions@),
                    v < n,
                    n == cur_positions@.len(),
                    best_id < t.edges@.len(),
                    *shifts == helper.shifts_per_edge@[best_id as int],
                    placed_ok(base_p, helper.max_c as int),
                    pos_ok == (|p: Point| helper.position_ok(v, p, edges@, cur_positions@, t)),
                    forall|k: int|
                        0 <= k < edges@.len() ==> {
                            let e = #[trigger] edges@[k];
                            &&& v <= e.fr + e.to <= usize::MAX
                            &&& other_end(e, v) < cur_positions@.len()
                            &&& other_end(e, v) < t.fig@.len()
                            &&& cur_positions@[other_end(e, v)] is Some
                        },
                    forall|m: int| 0 <= m < possible_positions@.len() ==> pos_ok(#[trigger] possible_positions@[m]),
                    possible_positions@ == fitting(
                        helper,
                        t,
                        v,
                        edges@,
                        cur_positions@,
                        shifted_points(base_p, shifts@.take(k as int)),
                    ),
            {
                let shift: Shift = shifts[k];
                assert(shifts@.contains(shift));
                let p = Point { x: base_p.x + shift.dx, y: base_p.y + shift.dy };
                assert(shifted_points(base_p, shifts@.take(k + 1)) =~= shifted_points(base_p, shifts@.take(k as int)).push(p));
                assert(shifted_points(base_p, shifts@.take(k + 1)).drop_last() =~= shifted_points(base_p, shifts@.take(k as int)));
                if helper.is_valid_position(v, &p, edges.as_slice(), cur_positions.as_slice(), t) {
                    possible_positions.push(p);
                }
            }
            assert(shifts@.take(shifts@.len() as int) =~= shifts@);
        }
    }
    assert(possible_positions@ == candidates(helper, t, cur_positions@, v, coin));
    if possible_positions.len() == 0 {
        return None;
    }
    let idx = rnd.next_in_range(0, possible_positions.len());
    let p = possible_positions[idx];
    assert(pos_ok(p));
    let ghost cur1 = cur_positions@;
    cur_positions.set(v, Some(p));
    proof {
        lemma_unplaced_update(cur1, v as int, p);
    }
    assert(solver_input(helper, t, cur_positions@));
    match solve_rec(t, helper, cur_positions, rnd) {
        None => {
            cur_positions.set(v, None);
            assert(cur_positions@ =~= cur0);
            None
        },
        Some(x) => {
            proof {
                lemma_completes_step(helper, t, cur0, v, p, edges@, x@);
            }
            Some(x)
        },
    }
}

proof fn lemma_completes_step(
    h: &Helper,
    t: &Task,
    cur: Seq<Option<Point>>,
    v: usize,
    p: Point,
    edges: Seq<Edge>,
    vs: Seq<Point>,
)
    requires
        solver_input(h, t, cur),
        v < cur.len(),
        cur[v as int] is None,
        h.position_ok(v, p, edges, cur, t),
        forall|j: int| 0 <= j < t.edges@.len() && to_placed(#[trigger] t.edges@[j], v, cur) ==> edges.contains(t.edges@[j]),
        completes(h, t, cur.update(v as int, Some(p)), vs),
    ensures
        completes(h, t, cur, vs),
{
    let cur1 = cur.update(v as int, Some(p));
    assert(cur1[v as int] is Some);
    assert(vs[v as int] == p);
    assert forall|k: int|
        0 <= k < t.edges@.len() && t.edges@[k].fr != t.edges@[k].to && #[trigger] touches_unplaced(t, cur, k) implies h.valid_edge_spec(
        t,
        t.edges@[k].fr as int,
        t.edges@[k].to as int,
        vs[t.edges@[k].fr as int],
        vs[t.edges@[k].to as int],
    ) by {
        let e = t.edges@[k];
        if touches_unplaced(t, cur1, k) {
        } else {
            assert(to_placed(e, v, cur));
            assert(edges.contains(e));
            let m = choose|m: int| 0 <= m < edges.len() && edges[m] == e;
            assert(h.edge_from_ok(t, v, p, edges[m], cur));
            if e.fr == v {
                assert(vs[e.to as int] == cur[e.to as int]->0);
            } else {
                assert(vs[e.fr as int] == cur[e.fr as int]->0);
                law_valid_edge_symmetric(h, t, e.to as int, e.fr as int, p, vs[e.fr as int]);
            }
        }
    }
    assert forall|i: int, j: int|
        0 <= i < cur.len() && 0 <= j < cur.len() && #[trigger] cur[i] is None && #[trigger] cur[j] is Some implies dist2(
        vs[i]@,
        vs[j]@,
    ) < h.max_dist2@[i]@[j] by {
        if i == v {
            assert(cur1[j] is Some);
        } else {
            assert(cur1[i] is None);
            assert(cur1[j] is Some);
        }
    }
    assert forall|i: int, j: int|
        0 <= i < cur.len() && 0 <= j < cur.len() && i != j && #[trigger] cur[i] is None && #[trigger] cur[j]
            is None implies dist2(vs[i]@, vs[j]@) < h.max_dist2@[i]@[j] || dist2(vs[j]@, vs[i]@)
        < h.max_dist2@[j]@[i] by {
        if i == v {
            assert(cur1[j] is None);
            assert(cur1[i] is Some);
        } else if j == v {
            assert(cur1[i] is None);
            assert(cur1[j] is Some);
        } else {
            assert(cur1[i] is None);
            assert(cur1[j] is None);
        }
    }
    assert forall|i: int| 0 <= i < cur.len() && #[trigger] cur[i] is None implies h.point_inside_spec(vs[i]@) by {
        if i != v {
            assert(cur1[i] is None);
        }
    }
    assert forall|i: int| 0 <= i < cur.len() && #[trigger] cur[i] is Some implies vs[i] == cur[i]->0 by {
        assert(cur1[i] is Some);
    }
}

/// How many times `solve_with_helper` starts the solver afresh.
pub const MAX_ITERS: usize = 10_000;

/// No vertex is placed yet.
pub open spec fn none_placed(n: nat) -> Seq<Option<Point>> {
    Seq::new(n, |i: int| None)
}

/// What `k` fresh runs of the solver, one after the other from state `st`,
/// give: the first placement found (`None` when every run failed), and the
/// state reached.
pub open spec fn attempts_from(h: &Helper, t: &Task, st: usize, k: nat) -> (Option<Seq<Point>>, usize)
    decreases k,
{
    if k == 0 {
        (None, st)
    } else {
        let o = solve_from(h, t, none_placed(t.fig@.len()), st);
        if o.0 is Some {
            o
        } else {
            attempts_from(h, t, o.1, (k - 1) as nat)
        }
    }
}

/// Tries up to ten thousand times to place the whole figure from scratch,
/// and returns the first placement found.
pub fn solve_with_helper(t: &Task, helper: &Helper, rnd: &mut Random) -> (r: Option<Vec<Point>>)
    requires
        helper.wf(),
        helper.for_task(t),
        t.wf(),
        t.fig@.len() < usize::MAX / 2,
    ensures
        r matches Some(vs) ==> completes(helper, t, none_placed(t.fig@.len()), vs@),
        t.fig@.len() == 0 ==> r is Some,
        ({
            let o = attempts_from(helper, t, old(rnd).state(), MAX_ITERS as nat);
            &&& final(rnd).state() == o.1
            &&& match r {
                Some(vs) => o.0 == Some(vs@),
                None => o.0 is None,
            }
        }),
{
    let ghost st0 = rnd.state();
    let n = t.fig.len();
    for it in 0..MAX_ITERS
        invariant
            helper.wf(),
            helper.for_task(t),
            t.wf(),
            n == t.fig@.len(),
            n < usize::MAX / 2,
            it > 0 ==> n > 0,
            st0 == old(rnd).state(),
            attempts_from(helper, t, st0, MAX_ITERS as nat) == attempts_from(
                helper,
                t,
                rnd.state(),
                (MAX_ITERS - it) as nat,
            ),
    {
        let mut cur: Vec<Option<Point>> = Vec::new();
        for i in 0..n
            invariant
                cur@ == none_placed(i as nat),
        {
            cur.push(None);
            assert(cur@ =~= none_placed((i + 1) as nat));
        }
        assert(solver_input(helper, t, cur@));
        let solution = solve_rec(t, helper, &mut cur, rnd);
        if solution.is_some() {
            return solution;
        }
    }
    None
}

/// A placement that the solver completes from one with no vertex placed is
/// valid: every vertex is inside the hole, and every edge, other than one
/// from a vertex to itself, is valid.
pub proof fn law_complete_placement_is_valid(h: &Helper, t: &Task, vs: Seq<Point>)
    requires
        t.wf(),
        completes(h, t, none_placed(t.fig@.len()), vs),
    ensures
        vs.len() == t.fig@.len(),
        forall|i: int| 0 <= i < vs.len() ==> h.point_inside_spec(#[trigger] vs[i]@),
        forall|k: int|
            0 <= k < t.edges@.len() && (#[trigger] t.edges@[k]).fr != t.edges@[k].to ==> h.valid_edge_spec(
                t,
                t.edges@[k].fr as int,
                t.edges@[k].to as int,
                vs[t.edges@[k].fr as int],
                vs[t.edges@[k].to as int],
            ),
{
    let cur = none_placed(t.fig@.len());
    assert forall|i: int| 0 <= i < vs.len() implies h.point_inside_spec(#[trigger] vs[i]@) by {
        assert(cur[i] is None);
    }
    assert forall|k: int|
        0 <= k < t.edges@.len() && (#[trigger] t.edges@[k]).fr != t.edges@[k].to implies h.valid_edge_spec(
        t,
        t.edges@[k].fr as int,
        t.edges@[k].to as int,
        vs[t.edges@[k].fr as int],
        vs[t.edges@[k].to as int],
    ) by {
        assert(touches_unplaced(t, cur, k));
    }
}

/// The set `s` of vertices is closed under the edges other than `split`:
/// each such edge has both endpoints in `s` or neither.
pub open spec fn edge_closed(t: &Task, split: Edge, s: Set<int>) -> bool {
    forall|k: int|
        0 <= k < t.edges@.len() && #[trigger] t.edges@[k] != split ==> (s.contains(t.edges@[k].fr as int)
            <==> s.contains(t.edges@[k].to as int))
}

/// Vertex `b` is in the same component as `a` of the graph without the edge
/// `split`: every closed set that holds `a` holds `b`.
pub open spec fn linked(t: &Task, split: Edge, a: int, b: int) -> bool {
    forall|s: Set<int>| #[trigger] edge_closed(t, split, s) && s.contains(a) ==> s.contains(b)
}

/// Every vertex is in the component of one of the endpoints of `split` once
/// `split` is taken out.
pub open spec fn spans(t: &Task, split: Edge) -> bool {
    forall|s: Set<int>|
        #[trigger] edge_closed(t, split, s) && s.contains(split.fr as int) && s.contains(split.to as int) ==> forall|
            i: int,
        |
            0 <= i < t.fig@.len() ==> s.contains(i)
}

/// `l` lists vertices in strictly increasing order.
pub open spec fn increasing(l: Seq<usize>) -> bool {
    forall|i: int, j: int| 0 <= i < j < l.len() ==> l[i] < l[j]
}

/// The two sides into which `split_by_edge` divides the vertices: both in
/// increasing order, together every vertex once, the first holding `fr` and
/// only vertices of its component, the second holding `to` and only vertices
/// of its component (the edge `split` taken out).
pub open spec fn sides(t: &Task, split: Edge, c1: Seq<usize>, c2: Seq<usize>) -> bool {
    &&& increasing(c1)
    &&& increasing(c2)
    &&& forall|i: usize|
        #![trigger c1.contains(i)]
        #![trigger c2.contains(i)]
        i < t.fig@.len() ==> (c1.contains(i) != c2.contains(i))
    &&& forall|i: int| 0 <= i < c1.len() ==> #[trigger] c1[i] < t.fig@.len() && linked(t, split, split.fr as int, c1[i] as int)
    &&& forall|i: int| 0 <= i < c2.len() ==> #[trigger] c2[i] < t.fig@.len() && linked(t, split, split.to as int, c2[i] as int)
    &&& c1.contains(split.fr)
    &&& c2.contains(split.to)
}

/// The number of non-zero entries.
pub open spec fn nonzero_count(s: Seq<usize>) -> nat
    decreases s.len(),
{
    if s.len() == 0 {
        0
    } else {
        nonzero_count(s.drop_last()) + if s.last() != 0 {
            1nat
        } else {
            0nat
        }
    }
}

proof fn lemma_nonzero_count_update(s: Seq<usize>, i: int, v: usize)
    requires
        0 <= i < s.len(),
        s[i] == 0,
        v != 0,
    ensures
        nonzero_count(s.update(i, v)) == nonzero_count(s) + 1,
    decreases s.len(),
{
    let u = s.update(i, v);
    if i == s.len() - 1 {
        assert(u.drop_last() =~= s.drop_last());
    } else {
        assert(u.drop_last() =~= s.drop_last().update(i, v));
        lemma_nonzero_count_update(s.drop_last(), i, v);
    }
}

proof fn lemma_nonzero_count_bounds(s: Seq<usize>)
    ensures
        nonzero_count(s) <= s.len(),
        (forall|i: int| 0 <= i < s.len() ==> s[i] != 0) ==> nonzero_count(s) == s.len(),
    decreases s.len(),
{
    if s.len() > 0 {
        lemma_nonzero_count_bounds(s.drop_last());
        assert forall|i: int| 0 <= i < s.len() - 1 implies s.drop_last()[i] == s[i] by {}
    }
}

proof fn lemma_linked_step(t: &Task, split: Edge, root: int, k: int, x: int, y: int)
    requires
        0 <= k < t.edges@.len(),
        t.edges@[k] != split,
        (x == t.edges@[k].fr && y == t.edges@[k].to) || (x == t.edges@[k].to && y == t.edges@[k].fr),
        linked(t, split, root, y),
    ensures
        linked(t, split, root, x),
{
    assert forall|s: Set<int>| #[trigger] edge_closed(t, split, s) && s.contains(root) implies s.contains(x) by {
        assert(s.contains(y));
        assert(t.edges@[k] != split);
    }
}

proof fn lemma_linked_symmetric(t: &Task, split: Edge, a: int, b: int)
    requires
        linked(t, split, a, b),
    ensures
        linked(t, split, b, a),
{
    assert forall|s: Set<int>| #[trigger] edge_closed(t, split, s) && s.contains(b) implies s.contains(a) by {
        if !s.contains(a) {
            let c = Set::new(|i: int| !s.contains(i));
            assert(edge_closed(t, split, c)) by {
                assert forall|k: int| 0 <= k < t.edges@.len() && #[trigger] t.edges@[k] != split implies (c.contains(
                    t.edges@[k].fr as int,
                ) <==> c.contains(t.edges@[k].to as int)) by {}
            }
            assert(c.contains(a));
            assert(c.contains(b));
        }
    }
}

proof fn lemma_linked_refl(t: &Task, split: Edge, a: int)
    ensures
        linked(t, split, a, a),
{
}

/// One sweep of `split_by_edge` over the edges from the `k`-th on, starting
/// from the colouring `comp`: `None` when it meets an edge (other than
/// `split`) that joins the two colours, and otherwise the colouring after it,
/// in which each such edge with one uncoloured end has passed its colour on.
pub open spec fn sweep(t: &Task, split: Edge, comp: Seq<usize>, k: int) -> Option<Seq<usize>>
    decreases t.edges@.len() - k,
{
    if k < 0 || k >= t.edges@.len() {
        Some(comp)
    } else {
        let e = t.edges@[k];
        let a = comp[e.fr as int];
        let b = comp[e.to as int];
        if e != split && a != b {
            if a + b == 3 {
                None
            } else if a == 0 {
                sweep(t, split, comp.update(e.fr as int, b), k + 1)
            } else {
                sweep(t, split, comp.update(e.to as int, a), k + 1)
            }
        } else {
            sweep(t, split, comp, k + 1)
        }
    }
}

/// The sweeps of `split_by_edge` from the colouring `comp` until every one of
/// the `n` vertices is coloured: the final colouring, or `None` when a sweep
/// meets an edge joining the two colours (or, which `spans` rules out, a
/// sweep colours nothing).
pub open spec fn colour_rounds(t: &Task, split: Edge, comp: Seq<usize>, n: nat) -> Option<Seq<usize>>
    decreases n - nonzero_count(comp),
{
    if nonzero_count(comp) >= n {
        Some(comp)
    } else {
        match sweep(t, split, comp, 0) {
            None => None,
            Some(c) => if nonzero_count(comp) < nonzero_count(c) <= n {
                colour_rounds(t, split, c, n)
            } else {
                None
            },
        }
    }
}

/// The vertices among the first `k` that `comp` gives colour `c`, in
/// increasing order.
pub open spec fn coloured(comp: Seq<usize>, c: usize, k: int) -> Seq<usize>
    decreases k,
{
    if k <= 0 {
        seq![]
    } else if comp[k - 1] == c {
        coloured(comp, c, k - 1).push((k - 1) as usize)
    } else {
        coloured(comp, c, k - 1)
    }
}

/// The first colouring of `split_by_edge`: the endpoints of `split` in the
/// two colours, every other vertex uncoloured.
pub open spec fn first_colours(n: nat, split: Edge) -> Seq<usize> {
    Seq::new(
        n,
        |i: int|
            if i == split.to {
                2
            } else if i == split.fr {
                1
            } else {
                0
            },
    )
}

/// What `split_by_edge` returns for the edge `split`.
pub open spec fn split_outcome(t: &Task, split: Edge) -> Option<(Seq<usize>, Seq<usize>)> {
    let n = t.fig@.len();
    match colour_rounds(t, split, first_colours(n, split), n) {
        None => None,
        Some(c) => Some((coloured(c, 1, n as int), coloured(c, 2, n as int))),
    }
}

/// Takes the edge `split_edge` out of the figure and colours the vertices
/// outwards from its two endpoints, sweeping over the edges until every
/// vertex is coloured. Returns `None` as soon as an edge is found that joins
/// the two colours, and otherwise the two colour classes.
pub fn split_by_edge(t: &Task, split_edge: &Edge) -> (r: Option<(Vec<usize>, Vec<usize>)>)
    requires
        t.wf(),
        split_edge.fr < t.fig@.len(),
        split_edge.to < t.fig@.len(),
        split_edge.fr != split_edge.to,
        spans(t, *split_edge),
    ensures
        match r {
            None => linked(t, *split_edge, split_edge.fr as int, split_edge.to as int),
            Some((c1, c2)) => sides(t, *split_edge, c1@, c2@),
        },
        match split_outcome(t, *split_edge) {
            None => r is None,
            Some(o) => r matches Some((c1, c2)) && c1@ == o.0 && c2@ == o.1,
        },
{
    let n = t.fig.len();
    let split = *split_edge;
    let fr = split.fr;
    let to = split.to;
    let mut comp_id: Vec<usize> = Vec::new();
    for i in 0..n
        invariant
            comp_id@.len() == i,
            forall|j: int| 0 <= j < i ==> comp_id@[j] == 0,
            nonzero_count(comp_id@) == 0,
    {
        let ghost prev = comp_id@;
        comp_id.push(0);
        assert(comp_id@.drop_last() =~= prev);
    }
    let ghost z = comp_id@;
    comp_id.set(fr, 1);
    proof {
        lemma_nonzero_count_update(z, fr as int, 1);
    }
    let ghost z1 = comp_id@;
    comp_id.set(to, 2);
    proof {
        lemma_nonzero_count_update(z1, to as int, 2);
        lemma_linked_refl(t, split, fr as int);
        lemma_linked_refl(t, split, to as int);
    }
    assert(comp_id@ =~= first_colours(n as nat, split));
    let ghost rounds = colour_rounds(t, split, comp_id@, n as nat);
    let mut colored: usize = 2;
    while colored != n
        invariant
            t.wf(),
            n == t.fig@.len(),
            split == *split_edge,
            fr == split.fr,
            to == split.to,
            fr < n,
            to < n,
            spans(t, split),
            comp_id@.len() == n,
            comp_id@[fr as int] == 1,
            comp_id@[to as int] == 2,
            forall|i: int| 0 <= i < n ==> #[trigger] comp_id@[i] <= 2,
            forall|i: int| 0 <= i < n && #[trigger] comp_id@[i] == 1 ==> linked(t, split, fr as int, i),
            forall|i: int| 0 <= i < n && #[trigger] comp_id@[i] == 2 ==> linked(t, split, to as int, i),
            colored == nonzero_count(comp_id@),
            rounds == colour_rounds(t, split, comp_id@, n as nat),
            rounds == colour_rounds(t, split, first_colours(n as nat, split), n as nat),
        decreases n - colored,
    {
        proof {
            lemma_nonzero_count_bounds(comp_id@);
        }
        let ghost start = comp_id@;
        let ghost start_colored = colored;
        assert(colored < n);
        for k in 0..t.edges.len()
            invariant
                t.wf(),
                n == t.fig@.len(),
                split == *split_edge,
                fr == split.fr,
                to == split.to,
                fr < n,
                to < n,
                comp_id@.len() == n,
                comp_id@[fr as int] == 1,
                comp_id@[to as int] == 2,
                forall|i: int| 0 <= i < n ==> #[trigger] comp_id@[i] <= 2,
                forall|i: int| 0 <= i < n && #[trigger] comp_id@[i] == 1 ==> linked(t, split, fr as int, i),
                forall|i: int| 0 <= i < n && #[trigger] comp_id@[i] == 2 ==> linked(t, split, to as int, i),
                colored == nonzero_count(comp_id@),
                colored >= start_colored,
                colored == start_colored ==> comp_id@ == start,
                colored == start_colored ==> forall|j: int|
                    0 <= j < k && #[trigger] t.edges@[j] != split ==> start[t.edges@[j].fr as int]
                        == start[t.edges@[j].to as int],
                sweep(t, split, start, 0) == sweep(t, split, comp_id@, k as int),
                rounds == colour_rounds(t, split, start, n as nat),
                rounds == colour_rounds(t, split, first_colours(n as nat, split), n as nat),
                start_colored == nonzero_count(start),
                start_colored < n,
        {
            let edge = t.edges[k];
            let a = comp_id[edge.fr];
            let b = comp_id[edge.to];
            assert(t.edges@[k as int] == edge);
            if edge != split && a != b {
                if a + b == 3 {
                    proof {
                        if a == 1 {
                            lemma_linked_symmetric(t, split, to as int, edge.to as int);
                            lemma_linked_step(t, split, fr as int, k as int, edge.to as int, edge.fr as int);
                            lemma_linked_step_chain(t, split, fr as int, edge.to as int, to as int);
                        } else {
                            lemma_linked_symmetric(t, split, to as int, edge.fr as int);
                            lemma_linked_step(t, split, fr as int, k as int, edge.fr as int, edge.to as int);
                            lemma_linked_step_chain(t, split, fr as int, edge.fr as int, to as int);
                        }
                        assert(sweep(t, split, comp_id@, k as int) is None);
                        assert(sweep(t, split, start, 0) is None);
                        assert(colour_rounds(t, split, start, n as nat) is None);
                        assert(split_outcome(t, *split_edge) is None);
                    }
                    return None;
                }
                let ghost before = comp_id@;
                if a == 0 {
                    comp_id.set(edge.fr, b);
                    proof {
                        lemma_nonzero_count_update(before, edge.fr as int, b);
                        if b == 1 {
                            lemma_linked_step(t, split, fr as int, k as int, edge.fr as int, edge.to as int);
                        } else {
                            lemma_linked_step(t, split, to as int, k as int, edge.fr as int, edge.to as int);
                        }
                    }
                } else {
                    comp_id.set(edge.to, a);
                    proof {
                        lemma_nonzero_count_update(before, edge.to as int, a);
                        if a == 1 {
                            lemma_linked_step(t, split, fr as int, k as int, edge.to as int, edge.fr as int);
                        } else {
                            lemma_linked_step(t, split, to as int, k as int, edge.to as int, edge.fr as int);
                        }
                    }
                }
                proof {
                    lemma_nonzero_count_bounds(comp_id@);
                }
                colored += 1;
            }
        }
        proof {
            lemma_nonzero_count_bounds(start);
            assert(sweep(t, split, comp_id@, t.edges@.len() as int) == Some(comp_id@));
            if colored == start_colored {
                let s = Set::new(|i: int| 0 <= i < n && start[i] != 0);
                assert(edge_closed(t, split, s)) by {
                    assert forall|k: int| 0 <= k < t.edges@.len() && #[trigger] t.edges@[k] != split implies (s.contains(
                        t.edges@[k].fr as int,
                    ) <==> s.contains(t.edges@[k].to as int)) by {
                        assert(start[t.edges@[k].fr as int] == start[t.edges@[k].to as int]);
                    }
                }
                assert(s.contains(fr as int));
                assert(s.contains(to as int));
                assert forall|i: int| 0 <= i < n implies start[i] != 0 by {
                    assert(s.contains(i));
                }
                lemma_nonzero_count_bounds(start);
                assert(false);
            }
            lemma_nonzero_count_bounds(comp_id@);
        }
    }
    proof {
        lemma_nonzero_count_bounds(comp_id@);
        lemma_all_colored(comp_id@);
    }
    assert(rounds == Some(comp_id@));
    let mut comp1: Vec<usize> = Vec::new();
    let mut comp2: Vec<usize> = Vec::new();
    for id in 0..n
        invariant
            n == t.fig@.len(),
            comp_id@.len() == n,
            forall|i: int| 0 <= i < n ==> #[trigger] comp_id@[i] == 1 || comp_id@[i] == 2,
            increasing(comp1@),
            increasing(comp2@),
            forall|i: int| 0 <= i < comp1@.len() ==> #[trigger] comp1@[i] < id && comp_id@[comp1@[i] as int] == 1,
            forall|i: int| 0 <= i < comp2@.len() ==> #[trigger] comp2@[i] < id && comp_id@[comp2@[i] as int] == 2,
            forall|i: int| 0 <= i < id && comp_id@[i] == 1 ==> comp1@.contains(i as usize),
            forall|i: int| 0 <= i < id && comp_id@[i] == 2 ==> comp2@.contains(i as usize),
            comp1@ == coloured(comp_id@, 1, id as int),
            comp2@ == coloured(comp_id@, 2, id as int),
    {
        let ghost b1 = comp1@;
        let ghost b2 = comp2@;
        if comp_id[id] == 1 {
            comp1.push(id);
        } else {
            comp2.push(id);
        }
        assert forall|i: int| 0 <= i < id + 1 && comp_id@[i] == 1 implies comp1@.contains(i as usize) by {
            if i == id {
                assert(comp1@[comp1@.len() - 1] == id);
            } else {
                let m = choose|m: int| 0 <= m < b1.len() && b1[m] == i as usize;
                assert(comp1@[m] == i as usize);
            }
        }
        assert forall|i: int| 0 <= i < id + 1 && comp_id@[i] == 2 implies comp2@.contains(i as usize) by {
            if i == id {
                assert(comp2@[comp2@.len() - 1] == id);
            } else {
                let m = choose|m: int| 0 <= m < b2.len() && b2[m] == i as usize;
                assert(comp2@[m] == i as usize);
            }
        }
    }
    proof {
        assert forall|i: usize| i < n implies (comp1@.contains(i) != comp2@.contains(i)) by {
            if comp_id@[i as int] == 1 {
                if comp2@.contains(i) {
                    let m = choose|m: int| 0 <= m < comp2@.len() && comp2@[m] == i;
                    assert(comp_id@[comp2@[m] as int] == 2);
                }
            } else {
                if comp1@.contains(i) {
                    let m = choose|m: int| 0 <= m < comp1@.len() && comp1@[m] == i;
                    assert(comp_id@[comp1@[m] as int] == 1);
                }
            }
        }
    }
    Some((comp1, comp2))
}

proof fn lemma_linked_step_chain(t: &Task, split: Edge, a: int, b: int, c: int)
    requires
        linked(t, split, a, b),
        linked(t, split, b, c),
    ensures
        linked(t, split, a, c),
{
}

proof fn lemma_all_colored(s: Seq<usize>)
    requires
        nonzero_count(s) == s.len(),
    ensures
        forall|i: int| 0 <= i < s.len() ==> s[i] != 0,
    decreases s.len(),
{
    if s.len() > 0 {
        lemma_nonzero_count_bounds(s.drop_last());
        lemma_all_colored(s.drop_last());
        assert forall|i: int| 0 <= i < s.len() implies s[i] != 0 by {
            if i < s.len() - 1 {
                assert(s.drop_last()[i] == s[i]);
            }
        }
    }
}

/// Vertex `i` is in every set that holds both endpoints of `split` and is
/// closed under the other edges.
pub open spec fn reached(t: &Task, split: Edge, i: int) -> bool {
    forall|s: Set<int>|
        #[trigger] edge_closed(t, split, s) && s.contains(split.fr as int) && s.contains(split.to as int)
            ==> s.contains(i)
}

proof fn lemma_reached_step(t: &Task, split: Edge, k: int, x: int, y: int)
    requires
        0 <= k < t.edges@.len(),
        t.edges@[k] != split,
        (x == t.edges@[k].fr && y == t.edges@[k].to) || (x == t.edges@[k].to && y == t.edges@[k].fr),
        reached(t, split, y),
    ensures
        reached(t, split, x),
{
    assert forall|s: Set<int>|
        #[trigger] edge_closed(t, split, s) && s.contains(split.fr as int) && s.contains(split.to as int) implies s.contains(x) by {
        assert(s.contains(y));
        assert(t.edges@[k] != split);
    }
}

/// Whether taking the edge `split_edge` out of the figure leaves every vertex
/// joined to one of its endpoints, the condition under which `split_by_edge`
/// comes to an end.
pub fn edge_spans(t: &Task, split_edge: &Edge) -> (r: bool)
    requires
        t.wf(),
        split_edge.fr < t.fig@.len(),
        split_edge.to < t.fig@.len(),
    ensures
        r == spans(t, *split_edge),
{
    let n = t.fig.len();
    let split = *split_edge;
    let mut mark: Vec<usize> = Vec::new();
    for i in 0..n
        invariant
            mark@.len() == i,
            forall|j: int| 0 <= j < i ==> mark@[j] == 0,
            nonzero_count(mark@) == 0,
    {
        let ghost prev = mark@;
        mark.push(0);
        assert(mark@.drop_last() =~= prev);
    }
    let ghost z = mark@;
    mark.set(split.fr, 1);
    proof {
        lemma_nonzero_count_update(z, split.fr as int, 1);
    }
    let mut colored: usize = 1;
    if split.to != split.fr {
        let ghost z1 = mark@;
        mark.set(split.to, 1);
        proof {
            lemma_nonzero_count_update(z1, split.to as int, 1);
        }
        colored = 2;
    }
    while colored < n
        invariant
            t.wf(),
            n == t.fig@.len(),
            split == *split_edge,
            mark@.len() == n,
            split.fr < n,
            split.to < n,
            mark@[split.fr as int] == 1,
            mark@[split.to as int] == 1,
            forall|i: int| 0 <= i < n ==> #[trigger] mark@[i] <= 1,
            forall|i: int| 0 <= i < n && #[trigger] mark@[i] == 1 ==> reached(t, split, i),
            colored == nonzero_count(mark@),
        decreases n - colored,
    {
        let ghost start = mark@;
        let start_colored = colored;
        for k in 0..t.edges.len()
            invariant
                t.wf(),
                n == t.fig@.len(),
                split == *split_edge,
                mark@.len() == n,
                split.fr < n,
                split.to < n,
                mark@[split.fr as int] == 1,
                mark@[split.to as int] == 1,
                forall|i: int| 0 <= i < n ==> #[trigger] mark@[i] <= 1,
                forall|i: int| 0 <= i < n && #[trigger] mark@[i] == 1 ==> reached(t, split, i),
                colored == nonzero_count(mark@),
                colored >= start_colored,
                colored == start_colored ==> mark@ == start,
                colored == start_colored ==> forall|j: int|
                    0 <= j < k && #[trigger] t.edges@[j] != split ==> start[t.edges@[j].fr as int]
                        == start[t.edges@[j].to as int],
        {
            let edge = t.edges[k];
            let a = mark[edge.fr];
            let b = mark[edge.to];
            if edge != split && a != b {
                let ghost before = mark@;
                if a == 0 {
                    mark.set(edge.fr, 1);
                    proof {
                        lemma_nonzero_count_update(before, edge.fr as int, 1);
                        lemma_reached_step(t, split, k as int, edge.fr as int, edge.to as int);
                    }
                } else {
                    mark.set(edge.to, 1);
                    proof {
                        lemma_nonzero_count_update(before, edge.to as int, 1);
                        lemma_reached_step(t, split, k as int, edge.to as int, edge.fr as int);
                    }
                }
                proof {
                    lemma_nonzero_count_bounds(mark@);
                }
                colored += 1;
            }
        }
        proof {
            lemma_nonzero_count_bounds(mark@);
        }
        if colored == start_colored {
            proof {
                let s = Set::new(|i: int| 0 <= i < n && start[i] != 0);
                assert(edge_closed(t, split, s)) by {
                    assert forall|k: int| 0 <= k < t.edges@.len() && #[trigger] t.edges@[k] != split implies (s.contains(
                        t.edges@[k].fr as int,
                    ) <==> s.contains(t.edges@[k].to as int)) by {
                        assert(start[t.edges@[k].fr as int] == start[t.edges@[k].to as int]);
                    }
                }
                assert(s.contains(split.fr as int));
                assert(s.contains(split.to as int));
                lemma_nonzero_count_bounds(start);
                let i = choose|i: int| 0 <= i < n && start[i] == 0;
                assert(!s.contains(i));
            }
            return false;
        }
    }
    proof {
        lemma_nonzero_count_bounds(mark@);
        lemma_all_colored(mark@);
        assert forall|s: Set<int>|
            #[trigger] edge_closed(t, split, s) && s.contains(split.fr as int) && s.contains(split.to as int) implies forall|i: int|
            0 <= i < t.fig@.len() ==> s.contains(i) by {
            assert forall|i: int| 0 <= i < t.fig@.len() implies s.contains(i) by {
                assert(mark@[i] != 0);
                assert(reached(t, split, i));
            }
        }
    }
    true
}

/// Components no larger than this may be taken out and placed again.
pub const MAX_DELETE_SIZE: usize = 5;

/// `l` is one side of the split of the figure at its `k`-th edge: it lists in
/// increasing order vertices of the component of one endpoint of that edge,
/// that endpoint among them.
pub open spec fn is_side(t: &Task, k: int, l: Seq<usize>) -> bool {
    let e = t.edges@[k];
    &&& increasing(l)
    &&& forall|i: int| 0 <= i < l.len() ==> #[trigger] l[i] < t.fig@.len()
    &&& ({
        ||| l.contains(e.fr) && forall|i: int| 0 <= i < l.len() ==> linked(t, e, e.fr as int, #[trigger] l[i] as int)
        ||| l.contains(e.to) && forall|i: int| 0 <= i < l.len() ==> linked(t, e, e.to as int, #[trigger] l[i] as int)
    })
}

/// `l` lists in increasing order exactly the vertices joined to `root` once
/// the edge `split` is taken out.
pub open spec fn is_component(t: &Task, split: Edge, root: int, l: Seq<usize>) -> bool {
    &&& increasing(l)
    &&& forall|i: int| 0 <= i < l.len() ==> #[trigger] l[i] < t.fig@.len()
    &&& forall|i: int| 0 <= i < t.fig@.len() ==> (l.contains(i as usize) <==> #[trigger] linked(t, split, root, i))
}

/// The edge `split` is a bridge: taking it out leaves its endpoints apart.
pub open spec fn is_bridge(t: &Task, split: Edge) -> bool {
    !linked(t, split, split.fr as int, split.to as int)
}

proof fn lemma_increasing_unique(a: Seq<usize>, b: Seq<usize>)
    requires
        increasing(a),
        increasing(b),
        forall|x: usize| a.contains(x) <==> b.contains(x),
    ensures
        a == b,
    decreases a.len(),
{
    if a.len() == 0 {
        if b.len() > 0 {
            assert(b.contains(b[0]));
        }
        assert(a =~= b);
    } else {
        assert(a.contains(a[0]));
        assert(b.len() > 0);
        assert(b.contains(b[0]));
        let k = choose|k: int| 0 <= k < b.len() && b[k] == a[0];
        let k2 = choose|k: int| 0 <= k < a.len() && a[k] == b[0];
        if k > 0 {
            assert(b[0] < b[k]);
        }
        if k2 > 0 {
            assert(a[0] < a[k2]);
        }
        assert(a[0] == b[0]);
        let a1 = a.drop_first();
        let b1 = b.drop_first();
        assert forall|x: usize| a1.contains(x) <==> b1.contains(x) by {
            if a1.contains(x) {
                let i = choose|i: int| 0 <= i < a1.len() && a1[i] == x;
                assert(a[i + 1] == x);
                assert(a[0] < a[i + 1]);
                assert(a.contains(x));
                let j = choose|j: int| 0 <= j < b.len() && b[j] == x;
                assert(j != 0);
                assert(b1[j - 1] == x);
            }
            if b1.contains(x) {
                let i = choose|i: int| 0 <= i < b1.len() && b1[i] == x;
                assert(b[i + 1] == x);
                assert(b[0] < b[i + 1]);
                assert(b.contains(x));
                let j = choose|j: int| 0 <= j < a.len() && a[j] == x;
                assert(j != 0);
                assert(a1[j - 1] == x);
            }
        }
        lemma_increasing_unique(a1, b1);
        assert(a =~= seq![a[0]] + a1);
        assert(b =~= seq![b[0]] + b1);
    }
}

/// Of a bridge, the sides that `split_by_edge` returns are the components of
/// its two endpoints.
proof fn lemma_bridge_sides(t: &Task, split: Edge, c1: Seq<usize>, c2: Seq<usize>)
    requires
        sides(t, split, c1, c2),
        is_bridge(t, split),
        t.fig@.len() <= usize::MAX,
    ensures
        is_component(t, split, split.fr as int, c1),
        is_component(t, split, split.to as int, c2),
{
    let fr = split.fr as int;
    let to = split.to as int;
    assert forall|i: int| 0 <= i < t.fig@.len() implies (c1.contains(i as usize) <==> #[trigger] linked(
        t,
        split,
        fr,
        i,
    )) by {
        let u = i as usize;
        assert(u as int == i);
        if c1.contains(u) {
            let j = choose|j: int| 0 <= j < c1.len() && c1[j] == u;
            assert(linked(t, split, fr, c1[j] as int));
        } else {
            assert(c2.contains(u));
            let j = choose|j: int| 0 <= j < c2.len() && c2[j] == u;
            assert(linked(t, split, to, c2[j] as int));
            assert(linked(t, split, to, i));
            if linked(t, split, fr, i) {
                lemma_linked_symmetric(t, split, to, i);
                lemma_linked_step_chain(t, split, fr, i, to);
                assert(false);
            }
        }
    }
    assert forall|i: int| 0 <= i < t.fig@.len() implies (c2.contains(i as usize) <==> #[trigger] linked(
        t,
        split,
        to,
        i,
    )) by {
        let u = i as usize;
        assert(u as int == i);
        if c2.contains(u) {
            let j = choose|j: int| 0 <= j < c2.len() && c2[j] == u;
            assert(linked(t, split, to, c2[j] as int));
        } else {
            assert(c1.contains(u));
            let j = choose|j: int| 0 <= j < c1.len() && c1[j] == u;
            assert(linked(t, split, fr, c1[j] as int));
            assert(linked(t, split, fr, i));
            if linked(t, split, to, i) {
                lemma_linked_symmetric(t, split, fr, i);
                lemma_linked_step_chain(t, split, to, i, fr);
                lemma_linked_symmetric(t, split, to, fr);
                assert(false);
            }
        }
    }
}

/// A component list is the only one of its root.
proof fn lemma_component_unique(t: &Task, split: Edge, root: int, a: Seq<usize>, b: Seq<usize>)
    requires
        is_component(t, split, root, a),
        is_component(t, split, root, b),
    ensures
        a == b,
{
    assert forall|x: usize| a.contains(x) <==> b.contains(x) by {
        if a.contains(x) {
            let j = choose|j: int| 0 <= j < a.len() && a[j] == x;
            assert(a[j] < t.fig@.len());
            assert(linked(t, split, root, x as int));
        }
        if b.contains(x) {
            let j = choose|j: int| 0 <= j < b.len() && b[j] == x;
            assert(b[j] < t.fig@.len());
            assert(linked(t, split, root, x as int));
        }
    }
    lemma_increasing_unique(a, b);
}

/// `l` is a small side of a bridge: the `k`-th edge splits the figure in
/// two, and `l` lists in increasing order the component of one of its
/// endpoints, with fewer than `MAX_DELETE_SIZE` vertices.
pub open spec fn small_side(t: &Task, k: int, l: Seq<usize>) -> bool {
    let e = t.edges@[k];
    &&& 0 <= k < t.edges@.len()
    &&& is_bridge(t, e)
    &&& (is_component(t, e, e.fr as int, l) || is_component(t, e, e.to as int, l))
    &&& l.len() < MAX_DELETE_SIZE
}

/// The lists that `deletable_components` gathers from the first `k` edges:
/// for each edge that `split_by_edge` splits at, each side with fewer than
/// `MAX_DELETE_SIZE` vertices, the first side first.
pub open spec fn deletable_from(t: &Task, k: int) -> Seq<Seq<usize>>
    decreases k,
{
    if k <= 0 {
        seq![]
    } else {
        let prev = deletable_from(t, k - 1);
        match split_outcome(t, t.edges@[k - 1]) {
            None => prev,
            Some(o) => {
                let with_first = if o.0.len() < MAX_DELETE_SIZE {
                    prev.push(o.0)
                } else {
                    prev
                };
                if o.1.len() < MAX_DELETE_SIZE {
                    with_first.push(o.1)
                } else {
                    with_first
                }
            },
        }
    }
}

/// The small groups of vertices that can be taken out of a placement and put
/// back elsewhere: for each edge that splits the figure in two, each side
/// with fewer than `MAX_DELETE_SIZE` vertices.
pub fn deletable_components(t: &Task) -> (r: Vec<Vec<usize>>)
    requires
        t.wf(),
        forall|k: int|
            0 <= k < t.edges@.len() ==> (#[trigger] t.edges@[k]).fr != t.edges@[k].to && spans(t, t.edges@[k]),
    ensures
        forall|m: int|
            0 <= m < r@.len() ==> (#[trigger] r@[m])@.len() < MAX_DELETE_SIZE && exists|k: int|
                0 <= k < t.edges@.len() && is_side(t, k, r@[m]@),
        forall|k: int, l: Seq<usize>|
            #[trigger] small_side(t, k, l) ==> exists|m: int| 0 <= m < r@.len() && (#[trigger] r@[m])@ == l,
        r@.len() == deletable_from(t, t.edges@.len() as int).len(),
        forall|m: int| 0 <= m < r@.len() ==> (#[trigger] r@[m])@ == deletable_from(t, t.edges@.len() as int)[m],
{
    let mut can_delete: Vec<Vec<usize>> = Vec::new();
    for k in 0..t.edges.len()
        invariant
            t.wf(),
            forall|k: int|
                0 <= k < t.edges@.len() ==> (#[trigger] t.edges@[k]).fr != t.edges@[k].to && spans(t, t.edges@[k]),
            forall|m: int|
                0 <= m < can_delete@.len() ==> (#[trigger] can_delete@[m])@.len() < MAX_DELETE_SIZE && exists|j: int|
                    0 <= j < t.edges@.len() && is_side(t, j, can_delete@[m]@),
            forall|j: int, l: Seq<usize>|
                j < k && #[trigger] small_side(t, j, l) ==> exists|m: int|
                    0 <= m < can_delete@.len() && (#[trigger] can_delete@[m])@ == l,
            can_delete@.len() == deletable_from(t, k as int).len(),
            forall|m: int| 0 <= m < can_delete@.len() ==> (#[trigger] can_delete@[m])@ == deletable_from(t, k as int)[m],
    {
        let edge = t.edges[k];
        let ghost base = can_delete@;
        assert(t.edges@[k as int] == edge);
        match split_by_edge(t, &edge) {
            None => {
                assert forall|j: int, l: Seq<usize>| j < k + 1 && #[trigger] small_side(t, j, l) implies exists|m: int|
                    0 <= m < can_delete@.len() && (#[trigger] can_delete@[m])@ == l by {
                    assert(j != k);
                }
            },
            Some((c1, c2)) => {
                assert(is_side(t, k as int, c1@));
                assert(is_side(t, k as int, c2@));
                if c1.len() < MAX_DELETE_SIZE {
                    let ghost before = can_delete@;
                    can_delete.push(c1);
                    assert forall|m: int| 0 <= m < can_delete@.len() implies (#[trigger] can_delete@[m])@.len()
                        < MAX_DELETE_SIZE && exists|j: int| 0 <= j < t.edges@.len() && is_side(t, j, can_delete@[m]@) by {
                        if m < before.len() {
                            assert(can_delete@[m] == before[m]);
                        } else {
                            assert(is_side(t, k as int, can_delete@[m]@));
                        }
                    }
                }
                let ghost mid = can_delete@;
                if c2.len() < MAX_DELETE_SIZE {
                    let ghost before = can_delete@;
                    can_delete.push(c2);
                    assert forall|m: int| 0 <= m < can_delete@.len() implies (#[trigger] can_delete@[m])@.len()
                        < MAX_DELETE_SIZE && exists|j: int| 0 <= j < t.edges@.len() && is_side(t, j, can_delete@[m]@) by {
                        if m < before.len() {
                            assert(can_delete@[m] == before[m]);
                        } else {
                            assert(is_side(t, k as int, can_delete@[m]@));
                        }
                    }
                }
                proof {
                    assert(t.fig@.len() == t.fig.len());
                    assert(mid.len() >= base.len());
                    assert(forall|m: int| 0 <= m < base.len() ==> mid[m] == base[m]);
                    assert(forall|m: int| 0 <= m < mid.len() ==> can_delete@[m] == mid[m]);
                    assert forall|j: int, l: Seq<usize>| j < k + 1 && #[trigger] small_side(t, j, l) implies exists|
                        m: int,
                    | 0 <= m < can_delete@.len() && (#[trigger] can_delete@[m])@ == l by {
                        if j < k {
                            let m = choose|m: int| 0 <= m < base.len() && (#[trigger] base[m])@ == l;
                            assert(can_delete@[m] == base[m]);
                        } else {
                            assert(t.edges@[j] == edge);
                            lemma_bridge_sides(t, edge, c1@, c2@);
                            if is_component(t, edge, edge.fr as int, l) {
                                lemma_component_unique(t, edge, edge.fr as int, l, c1@);
                                assert(can_delete@[base.len() as int] == c1);
                            } else {
                                lemma_component_unique(t, edge, edge.to as int, l, c2@);
                                assert(can_delete@[mid.len() as int] == c2);
                            }
                        }
                    }
                }
            },
        }
    }
    can_delete
}

/// The placement `vertices` with the vertices listed in `comp` taken out.
pub open spec fn without(vertices: Seq<Point>, comp: Seq<usize>) -> Seq<Option<Point>> {
    Seq::new(vertices.len(), |i: int| if comp.contains(i as usize) { None } else { Some(vertices[i]) })
}

/// One attempt at moving a small part of a placement elsewhere: a group of
/// `can_delete` is drawn at random, its vertices are taken out, and the
/// solver places them again around the others. Returns the new placement,
/// or `None` when the solver found none.
pub fn replace_component(
    t: &Task,
    helper: &Helper,
    rnd: &mut Random,
    vertices: &Vec<Point>,
    can_delete: &Vec<Vec<usize>>,
) -> (r: Option<Vec<Point>>)
    requires
        helper.wf(),
        helper.for_task(t),
        t.wf(),
        vertices@.len() == t.fig@.len(),
        t.fig@.len() < usize::MAX / 2,
        can_delete@.len() > 0,
        forall|m: int, j: int|
            0 <= m < can_delete@.len() && 0 <= j < can_delete@[m]@.len() ==> #[trigger] can_delete@[m]@[j]
                < t.fig@.len(),
        forall|i: int| 0 <= i < vertices@.len() ==> placed_ok(#[trigger] vertices@[i], helper.max_c as int),
    ensures
        ({
            let m = (xorshift(old(rnd).state()) % (can_delete@.len() as usize)) as int;
            &&& r matches Some(vs) ==> completes(helper, t, without(vertices@, can_delete@[m]@), vs@)
            &&& can_delete@[m]@.len() == 0 ==> (r matches Some(vs) && vs@ == vertices@)
            &&& ({
                let o = solve_from(helper, t, without(vertices@, can_delete@[m]@), xorshift(old(rnd).state()));
                &&& final(rnd).state() == o.1
                &&& match r {
                    Some(vs) => o.0 == Some(vs@),
                    None => o.0 is None,
                }
            })
        }),
{
    let idx = rnd.next_in_range(0, can_delete.len());
    let comp = &can_delete[idx];
    let mut cur: Vec<Option<Point>> = Vec::new();
    for i in 0..vertices.len()
        invariant
            cur@.len() == i,
            forall|j: int| 0 <= j < i ==> #[trigger] cur@[j] == Some(vertices@[j]),
    {
        cur.push(Some(vertices[i]));
    }
    for j in 0..comp.len()
        invariant
            comp == can_delete@[idx as int],
            idx < can_delete@.len(),
            cur@.len() == vertices@.len(),
            vertices@.len() == t.fig@.len(),
            t.fig@.len() < usize::MAX / 2,
            forall|m: int, k: int|
                0 <= m < can_delete@.len() && 0 <= k < can_delete@[m]@.len() ==> #[trigger] can_delete@[m]@[k]
                    < t.fig@.len(),
            forall|i: int|
                0 <= i < cur@.len() ==> #[trigger] cur@[i] == if comp@.take(j as int).contains(i as usize) {
                    None
                } else {
                    Some(vertices@[i])
                },
    {
        let v = comp[j];
        assert(comp@[j as int] < t.fig@.len());
        cur.set(v, None);
        assert forall|i: int| 0 <= i < cur@.len() implies #[trigger] cur@[i] == if comp@.take(j + 1).contains(
            i as usize,
        ) {
            None
        } else {
            Some(vertices@[i])
        } by {
            let a = comp@.take(j as int);
            let b = comp@.take(j + 1);
            assert(b =~= a.push(v));
            assert(b[j as int] == v);
            assert((i as usize) as int == i);
            if i != v {
                if b.contains(i as usize) {
                    let w = choose|w: int| 0 <= w < b.len() && #[trigger] b[w] == i as usize;
                    assert(w != j);
                    assert(a[w] == i as usize);
                }
                if a.contains(i as usize) {
                    let w = choose|w: int| 0 <= w < a.len() && #[trigger] a[w] == i as usize;
                    assert(b[w] == i as usize);
                }
            }
        }
    }
    assert(comp@.take(comp@.len() as int) =~= comp@);
    assert(cur@ =~= without(vertices@, comp@));
    proof {
        if comp@.len() == 0 {
            assert forall|i: int| 0 <= i < cur@.len() implies #[trigger] cur@[i] is Some by {
                assert(!comp@.contains(i as usize));
            }
            lemma_all_placed(cur@);
        }
    }
    let ghost cur0 = cur@;
    let r = solve_rec(t, helper, &mut cur, rnd);
    proof {
        if comp@.len() == 0 {
            let vs = r->0;
            assert(vs@ =~= vertices@) by {
                assert forall|i: int| 0 <= i < vs@.len() implies vs@[i] == vertices@[i] by {
                    assert(cur0[i] is Some);
                }
            }
        }
    }
    r
}

} // verus!
