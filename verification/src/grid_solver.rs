//! The first, standalone solver: each vertex in turn goes to a lattice point
//! drawn at random among all those of the table's square where it fits.
use vstd::prelude::*;
use crate::geometry::{Point, Edge};
use crate::helper::{Helper, other_end, law_valid_edge_symmetric};
use crate::rand::{Random, xorshift};
use crate::solver::{
    unplaced, extends, touches_unplaced, to_placed, none_placed, count_edges_to_placed, lemma_unplaced_zero,
    lemma_unplaced_update, pick_vertex, placed_edge_ids, edges_of, grid_points, grid_row, placed_neighbours,
    lemma_grid_has, lemma_placed_edge_ids_valid,
};
use crate::task::Task;

verus! {

/// The placement `vs` completes `cur` as the grid solver does: the vertices
/// it adds are inside the hole, and every edge with an added endpoint (other
/// than an edge from a vertex to itself) is valid.
pub open spec fn grid_completes(h: &Helper, t: &Task, cur: Seq<Option<Point>>, vs: Seq<Point>) -> bool {
    &&& extends(cur, vs)
    &&& forall|i: int| 0 <= i < cur.len() && #[trigger] cur[i] is None ==> h.point_inside_spec(vs[i]@)
    &&& forall|k: int|
        0 <= k < t.edges@.len() && t.edges@[k].fr != t.edges@[k].to && #[trigger] touches_unplaced(t, cur, k)
            ==> h.valid_edge_spec(
            t,
            t.edges@[k].fr as int,
            t.edges@[k].to as int,
            vs[t.edges@[k].fr as int],
            vs[t.edges@[k].to as int],
        )
}

/// The requirements of the grid solver.
pub open spec fn grid_input(h: &Helper, t: &Task, cur: Seq<Option<Point>>) -> bool {
    &&& h.wf()
    &&& t.wf()
    &&& cur.len() == t.fig@.len()
}

/// Vertex `v` fits at `p`: the point is inside and every edge of `edges`
/// from `v` to a placed vertex is valid.
pub open spec fn fits_at(h: &Helper, t: &Task, v: usize, p: Point, edges: Seq<Edge>, cur: Seq<Option<Point>>) -> bool {
    &&& h.point_inside_spec(p@)
    &&& forall|k: int| 0 <= k < edges.len() ==> #[trigger] h.edge_from_ok(t, v, p, edges[k], cur)
}

proof fn lemma_grid_step(
    h: &Helper,
    t: &Task,
    cur: Seq<Option<Point>>,
    v: usize,
    p: Point,
    edges: Seq<Edge>,
    vs: Seq<Point>,
)
    requires
        grid_input(h, t, cur),
        v < cur.len(),
        cur[v as int] is None,
        fits_at(h, t, v, p, edges, cur),
        forall|j: int| 0 <= j < t.edges@.len() && to_placed(#[trigger] t.edges@[j], v, cur) ==> edges.contains(t.edges@[j]),
        grid_completes(h, t, cur.update(v as int, Some(p)), vs),
    ensures
        grid_completes(h, t, cur, vs),
{
    let cur1 = cur.update(v as int, Some(p));
    assert(cur1[v as int] is Some);
    assert(vs[v as int] == p);
    assert forall|k: int|
        0 <= k < t.edges@.len() && t.edges@[k].fr != t.edges@[k].to && #[trigger] touches_unplaced(t, cur, k) implies h.valid_edge_spec(
        t,
        t.edges@[k].fr as int,
        t.edges@[k].to as int,
        vs[t.edges@[k].fr as int],
        vs[t.edges@[k].to as int],
    ) by {
        let e = t.edges@[k];
        if !touches_unplaced(t, cur1, k) {
            assert(to_placed(e, v, cur));
            assert(edges.contains(e));
            let m = choose|m: int| 0 <= m < edges.len() && edges[m] == e;
            assert(h.edge_from_ok(t, v, p, edges[m], cur));
            if e.fr == v {
                assert(vs[e.to as int] == cur[e.to as int]->0);
            } else {
                assert(vs[e.fr as int] == cur[e.fr as int]->0);
                law_valid_edge_symmetric(h, t, e.to as int, e.fr as int, p, vs[e.fr as int]);
            }
        }
    }
    assert forall|i: int| 0 <= i < cur.len() && #[trigger] cur[i] is None implies h.point_inside_spec(vs[i]@) by {
        if i != v {
            assert(cur1[i] is None);
        }
    }
    assert forall|i: int| 0 <= i < cur.len() && #[trigger] cur[i] is Some implies vs[i] == cur[i]->0 by {
        assert(cur1[i] is Some);
    }
}

/// The points of `pts`, in order, at which `v` fits.
pub open spec fn grid_fitting(
    h: &Helper,
    t: &Task,
    v: usize,
    edges: Seq<Edge>,
    cur: Seq<Option<Point>>,
    pts: Seq<Point>,
) -> Seq<Point>
    decreases pts.len(),
{
    if pts.len() == 0 {
        pts
    } else {
        let rest = grid_fitting(h, t, v, edges, cur, pts.drop_last());
        if fits_at(h, t, v, pts.last(), edges, cur) {
            rest.push(pts.last())
        } else {
            rest
        }
    }
}

/// The lattice points of the table's square, column after column, at which
/// the grid solver may put vertex `v`.
pub open spec fn grid_candidates(h: &Helper, t: &Task, cur: Seq<Option<Point>>, v: usize) -> Seq<Point> {
    let edges = edges_of(t, placed_edge_ids(t, v, cur, t.edges@.len() as int));
    grid_fitting(h, t, v, edges, cur, grid_points(h.max_c as int, h.max_c as int))
}

proof fn lemma_grid_fitting_keeps(
    h: &Helper,
    t: &Task,
    v: usize,
    edges: Seq<Edge>,
    cur: Seq<Option<Point>>,
    pts: Seq<Point>,
    i: int,
)
    requires
        0 <= i < pts.len(),
        fits_at(h, t, v, pts[i], edges, cur),
    ensures
        grid_fitting(h, t, v, edges, cur, pts).contains(pts[i]),
    decreases pts.len(),
{
    let rest = grid_fitting(h, t, v, edges, cur, pts.drop_last());
    if i == pts.len() - 1 {
        assert(grid_fitting(h, t, v, edges, cur, pts)[rest.len() as int] == pts[i]);
    } else {
        assert(pts.drop_last()[i] == pts[i]);
        lemma_grid_fitting_keeps(h, t, v, edges, cur, pts.drop_last(), i);
        let j = choose|j: int| 0 <= j < rest.len() && rest[j] == pts[i];
        assert(grid_fitting(h, t, v, edges, cur, pts)[j] == pts[i]);
    }
}

/// The grid solver never passes over a place where the vertex fits: every
/// lattice point `p` inside the hole at which every edge from `v` to a
/// placed vertex is valid is among the positions it draws from.
pub proof fn law_grid_candidates_hold_every_fitting_point(
    h: &Helper,
    t: &Task,
    cur: Seq<Option<Point>>,
    v: usize,
    p: Point,
)
    requires
        h.wf(),
        t.wf(),
        h.point_inside_spec(p@),
        forall|k: int|
            0 <= k < t.edges@.len() && to_placed(#[trigger] t.edges@[k], v, cur) ==> h.edge_from_ok(t, v, p, t.edges@[k], cur),
    ensures
        grid_candidates(h, t, cur, v).contains(p),
{
    let n_e = t.edges@.len() as int;
    let ids = placed_edge_ids(t, v, cur, n_e);
    assert(t.edges@.len() == t.edges.len());
    lemma_placed_edge_ids_valid(t, v, cur, n_e);
    let edges = edges_of(t, ids);
    assert forall|m: int| 0 <= m < edges.len() implies #[trigger] h.edge_from_ok(t, v, p, edges[m], cur) by {
        assert(to_placed(t.edges@[ids[m] as int], v, cur));
    }
    let mc = h.max_c as int;
    lemma_grid_has(mc, mc, p);
    let pts = grid_points(mc, mc);
    let i = choose|i: int| 0 <= i < pts.len() && pts[i] == p;
    lemma_grid_fitting_keeps(h, t, v, edges, cur, pts, i);
}

/// What the grid solver's `solve_rec` gives from the placement `cur` and the
/// generator state `st`: the completed placement (`None` when a vertex fits
/// nowhere), and the state reached.
pub open spec fn grid_solve_from(h: &Helper, t: &Task, cur: Seq<Option<Point>>, st: usize) -> (
    Option<Seq<Point>>,
    usize,
)
    decreases unplaced(cur),
{
    match pick_vertex(t, cur, cur.len() as int) {
        None => (Some(Seq::new(cur.len(), |i: int| cur[i]->0)), st),
        Some(v) => {
            let cands = grid_candidates(h, t, cur, v);
            if cands.len() == 0 {
                (None, st)
            } else {
                let st1 = xorshift(st);
                let p = cands[(st1 % (cands.len() as usize)) as int];
                if v < cur.len() && cur[v as int] is None {
                    proof {
                        lemma_unplaced_update(cur, v as int, p);
                    }
                    grid_solve_from(h, t, cur.update(v as int, Some(p)), st1)
                } else {
                    (None, st1)
                }
            }
        },
    }
}

/// What `k` fresh runs of the grid solver, one after the other from state
/// `st`, give: the first placement found (`None` when every run failed), and
/// the state reached.
pub open spec fn grid_attempts_from(h: &Helper, t: &Task, st: usize, k: nat) -> (Option<Seq<Point>>, usize)
    decreases k,
{
    if k == 0 {
        (None, st)
    } else {
        let o = grid_solve_from(h, t, none_placed(t.fig@.len()), st);
        if o.0 is Some {
            o
        } else {
            grid_attempts_from(h, t, o.1, (k - 1) as nat)
        }
    }
}

/// Completes the placement `cur_positions`: picks the unplaced vertex with
/// the most edges to placed vertices (the highest index among ties), draws
/// its position at random among all the lattice points of the table's square
/// where it fits, and goes on with the others. Returns `None` when a vertex
/// fits nowhere; the placements made on the way are then left in place.
pub fn solve_rec(
    t: &Task,
    helper: &Helper,
    cur_positions: &mut Vec<Option<Point>>,
    rnd: &mut Random,
) -> (r: Option<Vec<Point>>)
    requires
        grid_input(helper, t, old(cur_positions)@),
    ensures
        final(cur_positions)@.len() == old(cur_positions)@.len(),
        r matches Some(vs) ==> grid_completes(helper, t, old(cur_positions)@, vs@),
        unplaced(old(cur_positions)@) == 0 ==> r is Some,
        ({
            let o = grid_solve_from(helper, t, old(cur_positions)@, old(rnd).state());
            &&& final(rnd).state() == o.1
            &&& match r {
                Some(vs) => o.0 == Some(vs@),
                None => o.0 is None,
            }
        }),
    decreases unplaced(old(cur_positions)@),
{
    let ghost cur0 = cur_positions@;
    proof {
        if unplaced(cur0) == 0 {
            lemma_unplaced_zero(cur0);
        }
    }
    let n = cur_positions.len();
    let mut found_unplaced = false;
    let mut best_edges: usize = 0;
    let mut v_to_put: usize = 0;
    for i in 0..n
        invariant
            t.wf(),
            n == cur_positions@.len(),
            cur_positions@.len() == t.fig@.len(),
            found_unplaced ==> v_to_put < n && cur_positions@[v_to_put as int] is None,
            found_unplaced == exists|j: int| 0 <= j < i && #[trigger] cur_positions@[j] is None,
            found_unplaced ==> best_edges == placed_neighbours(t, cur_positions@, v_to_put, t.edges@.len() as int),
            pick_vertex(t, cur_positions@, i as int) == if found_unplaced {
                Some(v_to_put)
            } else {
                None
            },
    {
        if cur_positions[i].is_none() {
            let edges = count_edges_to_placed(t, cur_positions, i);
            if !found_unplaced || edges >= best_edges {
                best_edges = edges;
                v_to_put = i;
            }
            found_unplaced = true;
        }
    }
    if !found_unplaced {
        let mut vertices: Vec<Point> = Vec::new();
        for i in 0..n
            invariant
                n == cur_positions@.len(),
                forall|j: int| 0 <= j < n ==> #[trigger] cur_positions@[j] is Some,
                vertices@.len() == i,
                forall|j: int| 0 <= j < i ==> Some(#[trigger] vertices@[j]) == cur_positions@[j],
        {
            vertices.push(cur_positions[i].unwrap());
        }
        assert(extends(cur0, vertices@));
        assert(vertices@ =~= Seq::new(cur0.len(), |i: int| cur0[i]->0));
        return Some(vertices);
    }
    let v = v_to_put;
    let mut edges: Vec<Edge> = Vec::new();
    for k in 0..t.edges.len()
        invariant
            grid_input(helper, t, cur_positions@),
            v < n,
            n == cur_positions@.len(),
            cur_positions@[v as int] is None,
            forall|m: int| 0 <= m < edges@.len() ==> to_placed(#[trigger] edges@[m], v, cur_positions@) && edges@[m].fr < n && edges@[m].to < n,
            forall|j: int|
                0 <= j < k && to_placed(#[trigger] t.edges@[j], v, cur_positions@) ==> edges@.contains(t.edges@[j]),
            edges@ == edges_of(t, placed_edge_ids(t, v, cur_positions@, k as int)),
    {
        let e = t.edges[k];
        let ghost before = edges@;
        if e.fr == v && cur_positions[e.to].is_some() || e.to == v && cur_positions[e.fr].is_some() {
            edges.push(e);
        }
        assert(edges@ =~= edges_of(t, placed_edge_ids(t, v, cur_positions@, k + 1)));
        assert forall|j: int| 0 <= j < k + 1 && to_placed(#[trigger] t.edges@[j], v, cur_positions@) implies edges@.contains(
            t.edges@[j],
        ) by {
            if j == k {
                assert(edges@[edges@.len() - 1] == e);
            } else {
                assert(before.contains(t.edges@[j]));
                let m = choose|m: int| 0 <= m < before.len() && before[m] == t.edges@[j];
                assert(edges@[m] == t.edges@[j]);
            }
        }
    }
    let mut possible_positions: Vec<Point> = Vec::new();
    let mc = helper.max_c;
    for x in 0..helper.max_c
        invariant
            grid_input(helper, t, cur_positions@),
            v < n,
            n == cur_positions@.len(),
            cur_positions@[v as int] is None,
            mc == helper.max_c,
            forall|m: int| 0 <= m < edges@.len() ==> to_placed(#[trigger] edges@[m], v, cur_positions@) && edges@[m].fr < n && edges@[m].to < n,
            forall|m: int|
                0 <= m < possible_positions@.len() ==> fits_at(
                    helper,
                    t,
                    v,
                    #[trigger] possible_positions@[m],
                    edges@,
                    cur_positions@,
                ),
            possible_positions@ == grid_fitting(helper, t, v, edges@, cur_positions@, grid_points(mc as int, x as int)),
    {
        assert(grid_points(mc as int, x as int) + grid_row(x as int, 0) =~= grid_points(mc as int, x as int));
        for y in 0..helper.max_c
            invariant
                grid_input(helper, t, cur_positions@),
                v < n,
                n == cur_positions@.len(),
                cur_positions@[v as int] is None,
                mc == helper.max_c,
                0 <= x < mc,
                forall|m: int| 0 <= m < edges@.len() ==> to_placed(#[trigger] edges@[m], v, cur_positions@) && edges@[m].fr < n && edges@[m].to < n,
                forall|m: int|
                    0 <= m < possible_positions@.len() ==> fits_at(
                        helper,
                        t,
                        v,
                        #[trigger] possible_positions@[m],
                        edges@,
                        cur_positions@,
                    ),
                possible_positions@ == grid_fitting(
                    helper,
                    t,
                    v,
                    edges@,
                    cur_positions@,
                    grid_points(mc as int, x as int) + grid_row(x as int, y as int),
                ),
        {
            let p = Point { x, y };
            let ghost a = grid_points(mc as int, x as int) + grid_row(x as int, y as int);
            let ghost b = grid_points(mc as int, x as int) + grid_row(x as int, y + 1);
            assert(b =~= a.push(p));
            assert(b.drop_last() =~= a);
            if helper.is_point_inside(&p) {
                let mut ok = true;
                let mut k: usize = 0;
                while k < edges.len() && ok
                    invariant
                        grid_input(helper, t, cur_positions@),
                        v < n,
                        n == cur_positions@.len(),
                        cur_positions@[v as int] is None,
                        forall|m: int| 0 <= m < edges@.len() ==> to_placed(#[trigger] edges@[m], v, cur_positions@) && edges@[m].fr < n && edges@[m].to < n,
                        k <= edges@.len(),
                        ok ==> forall|m: int| 0 <= m < k ==> #[trigger] helper.edge_from_ok(t, v, p, edges@[m], cur_positions@),
                        !ok ==> !fits_at(helper, t, v, p, edges@, cur_positions@),
                    decreases edges@.len() - k,
                {
                    let edge = edges[k];
                    assert(to_placed(edges@[k as int], v, cur_positions@));
                    let another = if edge.fr == v {
                        edge.to
                    } else {
                        edge.fr
                    };
                    assert(another as int == other_end(edge, v));
                    let another_p = cur_positions[another].unwrap();
                    if !helper.is_valid_edge(t, v, another, &p, &another_p) {
                        ok = false;
                        assert(!helper.edge_from_ok(t, v, p, edges@[k as int], cur_positions@));
                    }
                    k += 1;
                }
                if ok {
                    possible_positions.push(p);
                }
            }
        }
    }
    assert(possible_positions@ == grid_fitting(
        helper,
        t,
        v,
        edges@,
        cur_positions@,
        grid_points(helper.max_c as int, helper.max_c as int),
    ));
    if possible_positions.len() == 0 {
        return None;
    }
    let idx = rnd.next_in_range(0, possible_positions.len());
    let p = possible_positions[idx];
    let ghost cur1 = cur_positions@;
    cur_positions.set(v, Some(p));
    proof {
        lemma_unplaced_update(cur1, v as int, p);
    }
    match solve_rec(t, helper, cur_positions, rnd) {
        None => None,
        Some(vs) => {
            proof {
                lemma_grid_step(helper, t, cur0, v, p, edges@, vs@);
            }
            Some(vs)
        },
    }
}

/// How many times `solve_with_helper` starts the grid solver afresh.
pub const MAX_ITERS: usize = 10_000;

/// The seed with which `solve_with_helper` starts its generator.
pub const SEED: usize = 787788;

/// Tries up to ten thousand times, with the generator seeded with `787788`,
/// to place the whole figure from scratch, and returns the first placement
/// found.
pub fn solve_with_helper(t: &Task, helper: &Helper) -> (r: Option<Vec<Point>>)
    requires
        helper.wf(),
        t.wf(),
    ensures
        r matches Some(vs) ==> grid_completes(helper, t, none_placed(t.fig@.len()), vs@),
        t.fig@.len() == 0 ==> r is Some,
        ({
            let o = grid_attempts_from(helper, t, SEED, MAX_ITERS as nat).0;
            match r {
                Some(vs) => o == Some(vs@),
                None => o is None,
            }
        }),
{
    let mut rnd = Random::new(SEED);
    let n = t.fig.len();
    for it in 0..MAX_ITERS
        invariant
            helper.wf(),
            t.wf(),
            n == t.fig@.len(),
            it > 0 ==> n > 0,
            grid_attempts_from(helper, t, SEED, MAX_ITERS as nat) == grid_attempts_from(
                helper,
                t,
                rnd.state(),
                (MAX_ITERS - it) as nat,
            ),
    {
        let mut cur: Vec<Option<Point>> = Vec::new();
        for i in 0..n
            invariant
                cur@ == none_placed(i as nat),
        {
            cur.push(None);
            assert(cur@ =~= none_placed((i + 1) as nat));
        }
        let solution = solve_rec(t, helper, &mut cur, &mut rnd);
        if solution.is_some() {
            return solution;
        }
    }
    None
}

/// A placement that the grid solver completes from one with no vertex
/// placed is valid: every vertex is inside the hole, and every edge, other
/// than one from a vertex to itself, is valid.
pub proof fn law_grid_placement_is_valid(h: &Helper, t: &Task, vs: Seq<Point>)
    requires
        t.wf(),
        grid_completes(h, t, none_placed(t.fig@.len()), vs),
    ensures
        vs.len() == t.fig@.len(),
        forall|i: int| 0 <= i < vs.len() ==> h.point_inside_spec(#[trigger] vs[i]@),
        forall|k: int|
            0 <= k < t.edges@.len() && (#[trigger] t.edges@[k]).fr != t.edges@[k].to ==> h.valid_edge_spec(
                t,
                t.edges@[k].fr as int,
                t.edges@[k].to as int,
                vs[t.edges@[k].fr as int],
                vs[t.edges@[k].to as int],
            ),
{
    let cur = none_placed(t.fig@.len());
    assert forall|i: int| 0 <= i < vs.len() implies h.point_inside_spec(#[trigger] vs[i]@) by {
        assert(cur[i] is None);
    }
    assert forall|k: int|
        0 <= k < t.edges@.len() && (#[trigger] t.edges@[k]).fr != t.edges@[k].to implies h.valid_edge_spec(
        t,
        t.edges@[k].fr as int,
        t.edges@[k].to as int,
        vs[t.edges@[k].fr as int],
        vs[t.edges@[k].to as int],
    ) by {
        assert(touches_unplaced(t, cur, k));
    }
}

} // verus!
