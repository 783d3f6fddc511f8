//! Random placements of the figure that only look at whether edges lie
//! inside the hole: a first placement vertex by vertex, and the moves that
//! try to get rid of edges that leave the hole.
use vstd::prelude::*;
use crate::geometry::Point;
use crate::helper::{Helper, other_end};
use crate::rand::{Random, xorshift};
use crate::task::Task;

verus! {

/// The `k`-th edge of the task lies inside the hole where `vs` places its
/// endpoints.
pub open spec fn edge_inside_at(h: &Helper, t: &Task, vs: Seq<Point>, k: int) -> bool {
    let e = t.edges@[k];
    h.edge_inside_spec(vs[e.fr as int], vs[e.to as int])
}

/// The number of the first `k` edges that leave the hole.
pub open spec fn outside_count(h: &Helper, t: &Task, vs: Seq<Point>, k: int) -> nat
    decreases k,
{
    if k <= 0 {
        0
    } else {
        outside_count(h, t, vs, k - 1) + if edge_inside_at(h, t, vs, k - 1) {
            0nat
        } else {
            1nat
        }
    }
}

/// The endpoints of the first `k` edges that leave the hole, two per edge,
/// in the order of the edges.
pub open spec fn outside_ends(h: &Helper, t: &Task, vs: Seq<Point>, k: int) -> Seq<usize>
    decreases k,
{
    if k <= 0 {
        Seq::empty()
    } else {
        let r = outside_ends(h, t, vs, k - 1);
        if edge_inside_at(h, t, vs, k - 1) {
            r
        } else {
            r.push(t.edges@[k - 1].fr).push(t.edges@[k - 1].to)
        }
    }
}

/// Every edge at `v` lies inside the hole once `v` is placed at `p` and the
/// other vertices stay where `vs` places them.
pub open spec fn edges_at_inside(h: &Helper, t: &Task, vs: Seq<Point>, v: usize, p: Point) -> bool {
    forall|k: int|
        0 <= k < t.edges@.len() && (#[trigger] t.edges@[k].fr == v || t.edges@[k].to == v)
            ==> h.edge_inside_spec(p, vs[other_end(t.edges@[k], v)])
}

proof fn lemma_outside_ends(h: &Helper, t: &Task, vs: Seq<Point>, k: int)
    requires
        t.wf(),
        k <= t.edges@.len(),
    ensures
        outside_ends(h, t, vs, k).len() == 2 * outside_count(h, t, vs, k),
        outside_count(h, t, vs, k) <= if k < 0 {
            0
        } else {
            k
        },
        forall|i: int|
            0 <= i < outside_ends(h, t, vs, k).len() ==> #[trigger] outside_ends(h, t, vs, k)[i]
                < t.fig@.len(),
    decreases k,
{
    if k > 0 {
        lemma_outside_ends(h, t, vs, k - 1);
    }
}

/// Counts the edges that leave the hole where `vertices` places the figure,
/// and appends the endpoints of each of them to `bad_vertices`.
fn count_bad_edges(task: &Task, helper: &Helper, vertices: &[Point], bad_vertices: &mut Vec<usize>) -> (r: usize)
    requires
        helper.wf(),
        task.wf(),
        vertices@.len() == task.fig@.len(),
    ensures
        r == outside_count(helper, task, vertices@, task.edges@.len() as int),
        final(bad_vertices)@ == old(bad_vertices)@ + outside_ends(
            helper,
            task,
            vertices@,
            task.edges@.len() as int,
        ),
{
    let mut bad_edges: usize = 0;
    let ghost start = bad_vertices@;
    for k in 0..task.edges.len()
        invariant
            helper.wf(),
            task.wf(),
            vertices@.len() == task.fig@.len(),
            bad_edges == outside_count(helper, task, vertices@, k as int),
            bad_vertices@ == start + outside_ends(helper, task, vertices@, k as int),
    {
        proof {
            lemma_outside_ends(helper, task, vertices@, k as int);
        }
        let edge = task.edges[k];
        if !helper.is_edge_inside(&vertices[edge.fr], &vertices[edge.to]) {
            bad_edges += 1;
            bad_vertices.push(edge.fr);
            bad_vertices.push(edge.to);
        }
        assert(bad_vertices@ =~= start + outside_ends(helper, task, vertices@, k + 1));
    }
    bad_edges
}

/// One attempt at getting rid of edges that leave the hole. Returns `true`,
/// changing nothing, when no edge leaves it. Otherwise an endpoint of such an
/// edge is drawn, and a lattice point in the square of the table; a point
/// outside the hole ends the attempt. The vertex is moved there, and the move
/// is kept when no more edges leave the hole than before, and else with one
/// chance in ten; the result is then `false`.
pub fn try_remove_bad_edges(vertices: &mut [Point], rnd: &mut Random, task: &Task, helper: &Helper) -> (r: bool)
    requires
        helper.wf(),
        task.wf(),
        old(vertices)@.len() == task.fig@.len(),
    ensures
        r == (outside_count(helper, task, old(vertices)@, task.edges@.len() as int) == 0),
        r ==> final(vertices)@ == old(vertices)@ && final(rnd).state() == old(rnd).state(),
        !r ==> ({
            let before = old(vertices)@;
            let m = task.edges@.len() as int;
            let ends = outside_ends(helper, task, before, m);
            let s1 = xorshift(old(rnd).state());
            let s2 = xorshift(s1);
            let s3 = xorshift(s2);
            let mc = helper.max_c as usize;
            let v = ends[(s1 % (ends.len() as usize)) as int];
            let p = (Point { x: (s2 % mc) as i32, y: (s3 % mc) as i32 });
            let after = before.update(v as int, p);
            if !helper.point_inside_spec(p@) {
                final(vertices)@ == before && final(rnd).state() == s3
            } else if outside_count(helper, task, after, m) <= outside_count(helper, task, before, m) {
                final(vertices)@ == after && final(rnd).state() == s3
            } else {
                let s4 = xorshift(s3);
                final(rnd).state() == s4 && final(vertices)@ == if s4 % 10 == 0 {
                    after
                } else {
                    before
                }
            }
        }),
{
    let ghost before = vertices@;
    let ghost m = task.edges@.len() as int;
    let mut bad_vertices: Vec<usize> = Vec::new();
    let bad_edges = count_bad_edges(task, helper, vertices, &mut bad_vertices);
    if bad_edges == 0 {
        return true;
    }
    proof {
        lemma_outside_ends(helper, task, before, m);
        assert(bad_vertices@ =~= outside_ends(helper, task, before, m));
    }
    let v = bad_vertices[rnd.next_in_range(0, bad_vertices.len())];
    let mc = helper.max_c as usize;
    let x = rnd.next_in_range(0, mc);
    let y = rnd.next_in_range(0, mc);
    let p = Point { x: x as i32, y: y as i32 };
    if !helper.is_point_inside(&p) {
        return false;
    }
    let old_p = vertices[v];
    vertices[v] = p;
    assert(vertices@ == before.update(v as int, p));
    let next_bad_edges = count_bad_edges(task, helper, vertices, &mut bad_vertices);
    if next_bad_edges <= bad_edges || rnd.next_in_range(0, 10) == 0 {
        return false;
    }
    vertices[v] = old_p;
    assert(vertices@ =~= before);
    false
}

/// The point that `find_ok_point` settles on for vertex `v` with `left` draws
/// to go from state `st`, with the state reached: the first drawn point at
/// which every edge at `v` lies inside the hole, or `vs[v]` when none is.
pub open spec fn ok_point_from(h: &Helper, t: &Task, st: usize, vs: Seq<Point>, v: usize, left: nat) -> (Point, usize)
    decreases left,
{
    if left == 0 {
        (vs[v as int], st)
    } else {
        let d = drawn_point(st, h.max_c as usize);
        if edges_at_inside(h, t, vs, v, d.0) {
            d
        } else {
            ok_point_from(h, t, d.1, vs, v, (left - 1) as nat)
        }
    }
}

/// The point of the `i`-th pair of draws from state `st`, and the state
/// reached after it.
pub open spec fn nth_draw(st: usize, mc: usize, i: nat) -> (Point, usize)
    decreases i,
{
    if i == 0 {
        drawn_point(st, mc)
    } else {
        drawn_point(nth_draw(st, mc, (i - 1) as nat).1, mc)
    }
}

proof fn lemma_ok_point_finds(h: &Helper, t: &Task, st: usize, vs: Seq<Point>, v: usize, left: nat, i: nat)
    requires
        i < left,
        edges_at_inside(h, t, vs, v, nth_draw(st, h.max_c as usize, i).0),
    ensures
        edges_at_inside(h, t, vs, v, ok_point_from(h, t, st, vs, v, left).0),
    decreases i,
{
    let d = drawn_point(st, h.max_c as usize);
    if !edges_at_inside(h, t, vs, v, d.0) {
        assert(i > 0);
        lemma_nth_draw_shift(st, h.max_c as usize, (i - 1) as nat);
        assert(((i - 1) as nat + 1) as nat == i);
        lemma_ok_point_finds(h, t, d.1, vs, v, (left - 1) as nat, (i - 1) as nat);
        assert(ok_point_from(h, t, st, vs, v, left) == ok_point_from(h, t, d.1, vs, v, (left - 1) as nat));
    } else {
        assert(ok_point_from(h, t, st, vs, v, left) == d);
    }
}

proof fn lemma_nth_draw_shift(st: usize, mc: usize, i: nat)
    ensures
        nth_draw(st, mc, i + 1) == nth_draw(drawn_point(st, mc).1, mc, i),
    decreases i,
{
    let d = drawn_point(st, mc);
    assert(nth_draw(st, mc, i + 1) == drawn_point(nth_draw(st, mc, i).1, mc));
    if i == 0 {
        assert(nth_draw(st, mc, 0) == d);
        assert(nth_draw(d.1, mc, 0) == drawn_point(d.1, mc));
    } else {
        lemma_nth_draw_shift(st, mc, (i - 1) as nat);
        assert(((i - 1) as nat + 1) as nat == i);
        assert(nth_draw(d.1, mc, i) == drawn_point(nth_draw(d.1, mc, (i - 1) as nat).1, mc));
    }
}

/// `find_ok_point` does not give up on a vertex while one of its hundred
/// draws lands where every edge at `v` lies inside the hole: then the point
/// it returns has every edge at `v` inside the hole.
pub proof fn law_ok_point_found_when_drawn(h: &Helper, t: &Task, st: usize, vs: Seq<Point>, v: usize, i: nat)
    requires
        i < 100,
        edges_at_inside(h, t, vs, v, nth_draw(st, h.max_c as usize, i).0),
    ensures
        edges_at_inside(h, t, vs, v, ok_point_from(h, t, st, vs, v, 100).0),
{
    lemma_ok_point_finds(h, t, st, vs, v, 100, i);
}

/// Draws a lattice point in the square of the table for vertex `v`, up to a
/// hundred times, and returns the first one at which every edge at `v` lies
/// inside the hole; when none does, `v` stays where it is.
pub fn find_ok_point(task: &Task, helper: &Helper, rnd: &mut Random, vertices: &[Point], v: usize) -> (r: Point)
    requires
        helper.wf(),
        task.wf(),
        vertices@.len() == task.fig@.len(),
        v < task.fig@.len(),
    ensures
        r == vertices@[v as int] || edges_at_inside(helper, task, vertices@, v, r),
        (r, final(rnd).state()) == ok_point_from(helper, task, old(rnd).state(), vertices@, v, 100),
{
    let ghost st0 = rnd.state();
    let mc = helper.max_c as usize;
    for attempt in 0..100usize
        invariant
            helper.wf(),
            task.wf(),
            vertices@.len() == task.fig@.len(),
            v < task.fig@.len(),
            mc == helper.max_c,
            st0 == old(rnd).state(),
            ok_point_from(helper, task, st0, vertices@, v, 100) == ok_point_from(
                helper,
                task,
                rnd.state(),
                vertices@,
                v,
                (100 - attempt) as nat,
            ),
    {
        let ghost st_b = rnd.state();
        let x = rnd.next_in_range(0, mc);
        let y = rnd.next_in_range(0, mc);
        let np = Point { x: x as i32, y: y as i32 };
        assert(drawn_point(st_b, mc) == (np, rnd.state()));
        let mut ok = true;
        let mut k: usize = 0;
        while k < task.edges.len() && ok
            invariant
                helper.wf(),
                task.wf(),
                vertices@.len() == task.fig@.len(),
                v < task.fig@.len(),
                k <= task.edges@.len(),
                ok ==> forall|j: int|
                    0 <= j < k && (#[trigger] task.edges@[j].fr == v || task.edges@[j].to == v)
                        ==> helper.edge_inside_spec(np, vertices@[other_end(task.edges@[j], v)]),
                !ok ==> !edges_at_inside(helper, task, vertices@, v, np),
            decreases task.edges@.len() - k,
        {
            let edge = task.edges[k];
            if edge.fr == v || edge.to == v {
                let another = if edge.fr == v {
                    edge.to
                } else {
                    edge.fr
                };
                if !helper.is_edge_inside(&np, &vertices[another]) {
                    ok = false;
                    assert(task.edges@[k as int] == edge);
                }
            }
            k += 1;
        }
        if ok {
            assert(edges_at_inside(helper, task, vertices@, v, np));
            return np;
        }
    }
    vertices[v]
}

/// The lattice point that two draws from state `st` give in the square of
/// side `mc`, with the state reached.
pub open spec fn drawn_point(st: usize, mc: usize) -> (Point, usize) {
    let s1 = xorshift(st);
    let s2 = xorshift(s1);
    (Point { x: (s1 % mc) as i32, y: (s2 % mc) as i32 }, s2)
}

/// At `p`, vertex `i` keeps inside the hole each of its edges to a vertex
/// that `placed` put before it.
pub open spec fn clean_for(h: &Helper, t: &Task, placed: Seq<Point>, i: int, p: Point) -> bool {
    forall|k: int|
        0 <= k < t.edges@.len() && (#[trigger] t.edges@[k].fr == i || t.edges@[k].to == i) && other_end(
            t.edges@[k],
            i as usize,
        ) < i ==> h.edge_inside_spec(p, placed[other_end(t.edges@[k], i as usize)])
}

/// The point drawn for the next vertex after `placed`, from state `st`, with
/// `tries` redraws left for a point with an edge out of the hole and at most
/// `budget` draws: the point (`None` when the budget ran out) and the state
/// reached.
pub open spec fn draw_vertex(h: &Helper, t: &Task, st: usize, placed: Seq<Point>, tries: int, budget: nat) -> (
    Option<Point>,
    usize,
)
    decreases budget,
{
    if budget == 0 {
        (None, st)
    } else {
        let d = drawn_point(st, h.max_c as usize);
        if !h.point_inside_spec(d.0@) {
            draw_vertex(h, t, d.1, placed, tries, (budget - 1) as nat)
        } else if !clean_for(h, t, placed, placed.len() as int, d.0) && tries > 0 {
            draw_vertex(h, t, d.1, placed, tries - 1, (budget - 1) as nat)
        } else {
            (Some(d.0), d.1)
        }
    }
}

/// The placement that `not_intersection_placement` draws from state `st`
/// when `placed` has been drawn and `left` vertices remain, with the state
/// reached.
pub open spec fn placement_from(h: &Helper, t: &Task, st: usize, placed: Seq<Point>, left: nat) -> (
    Option<Seq<Point>>,
    usize,
)
    decreases left,
{
    if left == 0 {
        (Some(placed), st)
    } else {
        let d = draw_vertex(h, t, st, placed, 10000, u64::MAX as nat);
        match d.0 {
            None => (None, d.1),
            Some(p) => placement_from(h, t, d.1, placed.push(p), (left - 1) as nat),
        }
    }
}

/// Places the figure vertex after vertex, each at a lattice point drawn in
/// the square of the table until it is inside the hole. A point at which an
/// edge to a vertex placed before leaves the hole is drawn again, ten
/// thousand times at most for the whole placement of that vertex; after that
/// the next point inside is taken. Gives up (`None`) only after `u64::MAX`
/// draws for one vertex.
pub fn not_intersection_placement(task: &Task, helper: &Helper, rnd: &mut Random) -> (r: Option<Vec<Point>>)
    requires
        helper.wf(),
        task.wf(),
    ensures
        r matches Some(vs) ==> {
            &&& vs@.len() == task.fig@.len()
            &&& forall|i: int| 0 <= i < vs@.len() ==> helper.point_inside_spec((#[trigger] vs@[i])@)
        },
        ({
            let o = placement_from(helper, task, old(rnd).state(), seq![], task.fig@.len());
            &&& final(rnd).state() == o.1
            &&& match r {
                Some(vs) => o.0 == Some(vs@),
                None => o.0 is None,
            }
        }),
{
    let ghost st0 = rnd.state();
    let mc = helper.max_c as usize;
    let n = task.fig.len();
    let mut vertices: Vec<Point> = Vec::new();
    assert(vertices@ =~= seq![]);
    for i in 0..n
        invariant
            helper.wf(),
            task.wf(),
            n == task.fig@.len(),
            mc == helper.max_c,
            vertices@.len() == i,
            forall|j: int| 0 <= j < i ==> helper.point_inside_spec((#[trigger] vertices@[j])@),
            st0 == old(rnd).state(),
            placement_from(helper, task, st0, seq![], n as nat) == placement_from(
                helper,
                task,
                rnd.state(),
                vertices@,
                (n - i) as nat,
            ),
    {
        let ghost st_i = rnd.state();
        let ghost vs_i = vertices@;
        let mut try_without_bad_edges: i32 = 10000;
        let mut placed = false;
        let mut budget: u64 = u64::MAX;
        while !placed && budget > 0
            invariant
                helper.wf(),
                task.wf(),
                n == task.fig@.len(),
                i < n,
                mc == helper.max_c,
                0 <= try_without_bad_edges <= 10000,
                vertices@.len() == if placed {
                    i + 1
                } else {
                    i as int
                },
                forall|j: int|
                    0 <= j < vertices@.len() ==> helper.point_inside_spec((#[trigger] vertices@[j])@),
                vs_i.len() == i,
                !placed ==> vertices@ == vs_i,
                !placed ==> draw_vertex(helper, task, st_i, vs_i, 10000, u64::MAX as nat) == draw_vertex(
                    helper,
                    task,
                    rnd.state(),
                    vs_i,
                    try_without_bad_edges as int,
                    budget as nat,
                ),
                placed ==> draw_vertex(helper, task, st_i, vs_i, 10000, u64::MAX as nat) == (
                    Some(vertices@[i as int]),
                    rnd.state(),
                ) && vertices@ == vs_i.push(vertices@[i as int]),
            decreases budget,
        {
            let ghost st_b = rnd.state();
            let ghost budget_b = budget;
            let ghost tries_b = try_without_bad_edges;
            budget -= 1;
            let x = rnd.next_in_range(0, mc);
            let y = rnd.next_in_range(0, mc);
            let p = Point { x: x as i32, y: y as i32 };
            assert(drawn_point(st_b, mc) == (p, rnd.state()));
            if helper.is_point_inside(&p) {
                let mut ok = true;
                let mut k: usize = 0;
                while k < task.edges.len() && ok
                    invariant
                        helper.wf(),
                        task.wf(),
                        n == task.fig@.len(),
                        i < n,
                        vertices@.len() == i,
                        k <= task.edges@.len(),
                        ok ==> forall|j: int|
                            0 <= j < k && (#[trigger] task.edges@[j].fr == i || task.edges@[j].to == i)
                                && other_end(task.edges@[j], i) < i ==> helper.edge_inside_spec(
                                p,
                                vertices@[other_end(task.edges@[j], i)],
                            ),
                        !ok ==> !clean_for(helper, task, vertices@, i as int, p),
                    decreases task.edges@.len() - k,
                {
                    let edge = task.edges[k];
                    if edge.fr == i || edge.to == i {
                        let another = if edge.fr == i {
                            edge.to
                        } else {
                            edge.fr
                        };
                        assert(another as int == other_end(edge, i));
                        if another < i && !helper.is_edge_inside(&p, &vertices[another]) {
                            ok = false;
                            assert(task.edges@[k as int] == edge);
                        }
                    }
                    k += 1;
                }
                assert(ok == clean_for(helper, task, vertices@, i as int, p));
                if !ok && try_without_bad_edges > 0 {
                    try_without_bad_edges -= 1;
                } else {
                    vertices.push(p);
                    placed = true;
                }
            }
        }
        if !placed {
            assert(placement_from(helper, task, st_i, vs_i, (n - i) as nat) == (
                None::<Seq<Point>>,
                rnd.state(),
            ));
            return None;
        }
        assert(placement_from(helper, task, st_i, vs_i, (n - i) as nat) == placement_from(
            helper,
            task,
            rnd.state(),
            vertices@,
            (n - (i + 1)) as nat,
        ));
    }
    Some(vertices)
}

} // verus!
