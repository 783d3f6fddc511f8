//! Exhaustive search for a better placement of one vertex and a few of its
//! neighbours, the rest of the figure staying where it is.
use vstd::prelude::*;
use crate::geometry::{Point, Shift, Edge, shifted};
use crate::helper::{Helper, law_valid_edge_symmetric};
use crate::scores::{dislikes_spec, dislikes_wide};
use crate::task::Task;

verus! {

/// `i` is the last position of `v` in `ids`.
pub open spec fn is_last_index(ids: Seq<usize>, v: int, i: int) -> bool {
    &&& 0 <= i < ids.len()
    &&& ids[i] == v
    &&& forall|j: int| i < j < ids.len() ==> ids[j] != v
}

/// `used[v]` is the last position of vertex `v` in `ids`, and `None` if it
/// does not occur there.
pub open spec fn used_table(ids: Seq<usize>, used: Seq<Option<usize>>) -> bool {
    &&& forall|i: int| 0 <= i < ids.len() ==> #[trigger] ids[i] < used.len()
    &&& forall|v: int|
        0 <= v < used.len() ==> match #[trigger] used[v] {
            None => !ids.contains(v as usize),
            Some(i) => is_last_index(ids, v, i as int),
        }
}

/// Vertex `v` gets its final position at a level below `pos`.
pub open spec fn settled(used: Seq<Option<usize>>, v: int, pos: int) -> bool {
    used[v] matches Some(i) && i < pos
}

/// Vertex `v` gets its final position at level `pos` or above.
pub open spec fn pending_at(used: Seq<Option<usize>>, v: int, pos: int) -> bool {
    used[v] matches Some(i) && i >= pos
}

/// Below level `pos` the placement `ps` is consistent: the settled vertices
/// are inside the hole, and every edge (other than from a vertex to itself)
/// between settled or unmoved vertices, with a settled endpoint, is valid.
pub open spec fn level_ok(h: &Helper, t: &Task, used: Seq<Option<usize>>, pos: int, ps: Seq<Point>) -> bool {
    &&& forall|v: int| 0 <= v < used.len() && #[trigger] settled(used, v, pos) ==> h.point_inside_spec(ps[v]@)
    &&& forall|k: int|
        0 <= k < t.edges@.len() ==> {
            let e = #[trigger] t.edges@[k];
            (e.fr != e.to && !pending_at(used, e.fr as int, pos) && !pending_at(used, e.to as int, pos) && (settled(
                used,
                e.fr as int,
                pos,
            ) || settled(used, e.to as int, pos))) ==> h.valid_edge_spec(
                t,
                e.fr as int,
                e.to as int,
                ps[e.fr as int],
                ps[e.to as int],
            )
        }
}

/// Neither coordinate of `p` is within `r` of a limit of `i32`.
pub open spec fn has_room(p: Point, r: int) -> bool {
    i32::MIN + r <= p.x <= i32::MAX - r && i32::MIN + r <= p.y <= i32::MAX - r
}

/// Every displacement of `l` moves by at most `r` along each axis.
pub open spec fn shifts_within(l: Seq<Shift>, r: int) -> bool {
    forall|i: int| 0 <= i < l.len() ==> -r <= (#[trigger] l[i]).dx <= r && -r <= l[i].dy <= r
}

/// The ids of the vertices that the search moves, level by level.
pub open spec fn level_ids(vertices: Seq<(usize, &Vec<Shift>)>) -> Seq<usize> {
    vertices.map_values(|p: (usize, &Vec<Shift>)| p.0)
}

/// The tables and the placement agree with the levels, and the placement is
/// consistent below level `pos`.
pub open spec fn search_core(
    h: &Helper,
    t: &Task,
    vertices: Seq<(usize, &Vec<Shift>)>,
    used: Seq<Option<usize>>,
    edges_to_check: Seq<Edge>,
    pos: int,
    ps: Seq<Point>,
) -> bool {
    &&& h.wf()
    &&& t.wf()
    &&& ps.len() == t.fig@.len()
    &&& used.len() == t.fig@.len()
    &&& t.fig@.len() < usize::MAX / 2
    &&& used_table(level_ids(vertices), used)
    &&& forall|k: int|
        0 <= k < edges_to_check.len() ==> (#[trigger] edges_to_check[k]).fr < t.fig@.len() && edges_to_check[k].to
            < t.fig@.len()
    &&& forall|k: int|
        0 <= k < t.edges@.len() && (used[(#[trigger] t.edges@[k]).fr as int] is Some || used[t.edges@[k].to as int] is Some)
            ==> edges_to_check.contains(t.edges@[k])
    &&& forall|j: int| 0 <= j < edges_to_check.len() ==> t.edges@.contains(#[trigger] edges_to_check[j])
    &&& 0 <= pos <= vertices.len()
    &&& level_ok(h, t, used, pos, ps)
}

/// The requirements of the search at level `pos`: the core ones, and room
/// around `base_p` for every listed displacement.
pub open spec fn search_input(
    h: &Helper,
    t: &Task,
    vertices: Seq<(usize, &Vec<Shift>)>,
    used: Seq<Option<usize>>,
    edges_to_check: Seq<Edge>,
    pos: int,
    ps: Seq<Point>,
    base_p: Point,
    room: int,
) -> bool {
    &&& search_core(h, t, vertices, used, edges_to_check, pos, ps)
    &&& 0 <= room
    &&& has_room(base_p, room)
    &&& forall|i: int| 0 <= i < vertices.len() ==> shifts_within((#[trigger] vertices[i]).1@, room)
}

/// The displacements allowed at each level: those listed for it.
pub open spec fn level_allowed(vertices: Seq<(usize, &Vec<Shift>)>) -> spec_fn(int, Shift) -> bool {
    |i: int, s: Shift| vertices[i].1@.contains(s)
}

/// The checks of level `pos` pass for vertex `v` at `np`: `np` is inside the
/// hole, and every edge from `v` to a vertex that is not moved, or is placed
/// at a lower level, is valid.
pub open spec fn step_ok(
    h: &Helper,
    t: &Task,
    used: Seq<Option<usize>>,
    pos: int,
    ps: Seq<Point>,
    v: usize,
    np: Point,
) -> bool {
    &&& h.point_inside_spec(np@)
    &&& forall|k: int| 0 <= k < t.edges@.len() ==> #[trigger] checked_ok(h, t, used, pos, ps, v, np, t.edges@[k])
}

/// Where the search ends, from level `pos` and the placement `ps`, when
/// each level `i` moves its vertex `ids[i]` to `base` displaced by
/// `choice[i]`; `None` when a displacement is not allowed at its level or
/// fails the checks of its level.
pub open spec fn run(
    h: &Helper,
    t: &Task,
    ids: Seq<usize>,
    allowed: spec_fn(int, Shift) -> bool,
    used: Seq<Option<usize>>,
    base: Point,
    pos: int,
    ps: Seq<Point>,
    choice: Seq<Shift>,
) -> Option<Seq<Point>>
    decreases ids.len() - pos,
{
    if pos < 0 || pos >= ids.len() {
        Some(ps)
    } else {
        let np = shifted(base, choice[pos]);
        if allowed(pos, choice[pos]) && step_ok(h, t, used, pos, ps, ids[pos], np) {
            run(h, t, ids, allowed, used, base, pos + 1, ps.update(ids[pos] as int, np), choice)
        } else {
            None
        }
    }
}

/// The search from level `pos` does not look at the positions of the
/// vertices that it places at that level or later.
proof fn lemma_run_frame(
    h: &Helper,
    t: &Task,
    ids: Seq<usize>,
    allowed: spec_fn(int, Shift) -> bool,
    used: Seq<Option<usize>>,
    base: Point,
    pos: int,
    ps: Seq<Point>,
    ps2: Seq<Point>,
    choice: Seq<Shift>,
)
    requires
        t.wf(),
        used_table(ids, used),
        used.len() == t.fig@.len(),
        ps.len() == t.fig@.len(),
        ps2.len() == t.fig@.len(),
        0 <= pos <= ids.len(),
        forall|u: int| 0 <= u < ps.len() && !#[trigger] pending_at(used, u, pos) ==> ps2[u] == ps[u],
    ensures
        run(h, t, ids, allowed, used, base, pos, ps, choice) == run(h, t, ids, allowed, used, base, pos, ps2, choice),
    decreases ids.len() - pos,
{
    if pos == ids.len() {
        assert forall|u: int| 0 <= u < ps.len() implies ps2[u] == ps[u] by {
            if used[u] is Some {
                assert(is_last_index(ids, u, used[u]->0 as int));
            }
            assert(!pending_at(used, u, pos));
        }
        assert(ps2 =~= ps);
    } else {
        let v = ids[pos];
        let np = shifted(base, choice[pos]);
        assert(v < used.len());
        assert forall|k: int| 0 <= k < t.edges@.len() implies #[trigger] checked_ok(h, t, used, pos, ps, v, np, t.edges@[k])
            == checked_ok(h, t, used, pos, ps2, v, np, t.edges@[k]) by {
            let e = t.edges@[k];
            if e.fr == v || e.to == v {
                let a = e.fr + e.to - v;
                if used[a] is None || settled(used, a, pos) {
                    assert(!pending_at(used, a, pos));
                }
            }
        }
        if step_ok(h, t, used, pos, ps, v, np) {
            assert forall|k: int| 0 <= k < t.edges@.len() implies #[trigger] checked_ok(h, t, used, pos, ps2, v, np, t.edges@[k]) by {
                assert(checked_ok(h, t, used, pos, ps, v, np, t.edges@[k]));
            }
        }
        if step_ok(h, t, used, pos, ps2, v, np) {
            assert forall|k: int| 0 <= k < t.edges@.len() implies #[trigger] checked_ok(h, t, used, pos, ps, v, np, t.edges@[k]) by {
                assert(checked_ok(h, t, used, pos, ps2, v, np, t.edges@[k]));
            }
        }
        assert(step_ok(h, t, used, pos, ps, v, np) == step_ok(h, t, used, pos, ps2, v, np));
        let q = ps.update(v as int, np);
        let q2 = ps2.update(v as int, np);
        assert forall|u: int| 0 <= u < q.len() && !#[trigger] pending_at(used, u, pos + 1) implies q2[u] == q[u] by {
            if u != v {
                if pending_at(used, u, pos) {
                    assert(is_last_index(ids, u, pos));
                }
            }
        }
        lemma_run_frame(h, t, ids, allowed, used, base, pos + 1, q, q2, choice);
    }
}

/// A copy of the points.
fn copy_points(v: &Vec<Point>) -> (r: Vec<Point>)
    ensures
        r@ == v@,
{
    let mut r: Vec<Point> = Vec::new();
    for i in 0..v.len()
        invariant
            r@ == v@.take(i as int),
    {
        r.push(v[i]);
        assert(r@ =~= v@.take(i + 1));
    }
    assert(r@ =~= v@);
    r
}

/// Tries, for the vertex of level `pos`, each of its displacements from
/// `base_p` that lands inside the hole and keeps valid the edges to the
/// vertices already placed, and goes on with the next level; once every
/// level is placed, keeps the placement if it has fewer dislikes than the
/// best found so far.
#[verifier::loop_isolation(false)]
fn rec(
    pos: usize,
    vertices: &Vec<(usize, &Vec<Shift>)>,
    used: &Vec<Option<usize>>,
    edges_to_check: &Vec<Edge>,
    best_positions: &mut Vec<Point>,
    min_dislikes: &mut i128,
    positions: &mut Vec<Point>,
    task: &Task,
    helper: &Helper,
    base_p: Point,
    room: i32,
)
    requires
        search_input(helper, task, vertices@, used@, edges_to_check@, pos as int, old(positions)@, base_p, room as int),
    ensures
        final(positions)@.len() == old(positions)@.len(),
        forall|v: int|
            0 <= v < old(positions)@.len() && !#[trigger] pending_at(used@, v, pos as int) ==> final(positions)@[v]
                == old(positions)@[v],
        *final(min_dislikes) <= *old(min_dislikes),
        *final(min_dislikes) == *old(min_dislikes) ==> final(best_positions)@ == old(best_positions)@,
        *final(min_dislikes) < *old(min_dislikes) ==> {
            &&& final(best_positions)@.len() == task.fig@.len()
            &&& level_ok(helper, task, used@, vertices@.len() as int, final(best_positions)@)
            &&& dislikes_spec(task.hole@, final(best_positions)@) == *final(min_dislikes)
            &&& forall|v: int|
                0 <= v < old(positions)@.len() && !#[trigger] pending_at(used@, v, pos as int) ==> final(best_positions)@[v] == old(positions)@[v]
        },
        forall|choice: Seq<Shift>|
            #[trigger] run(
                helper,
                task,
                level_ids(vertices@),
                level_allowed(vertices@),
                used@,
                base_p,
                pos as int,
                old(positions)@,
                choice,
            ) is Some ==> *final(min_dislikes) <= dislikes_spec(
                task.hole@,
                run(
                    helper,
                    task,
                    level_ids(vertices@),
                    level_allowed(vertices@),
                    used@,
                    base_p,
                    pos as int,
                    old(positions)@,
                    choice,
                )->0,
            ),
    decreases vertices@.len() - pos,
{
    let ghost allowed = level_allowed(vertices@);
    let ghost ids = level_ids(vertices@);
    if pos == vertices.len() {
        let d = dislikes_wide(&task.hole, positions);
        if d < *min_dislikes {
            *min_dislikes = d;
            *best_positions = copy_points(positions);
        }
        return;
    }
    let v = vertices[pos].0;
    let shifts = vertices[pos].1;
    assert(ids[pos as int] == v);
    let ghost ps0 = positions@;
    let ghost min0 = *min_dislikes;
    let ghost best0 = best_positions@;
    for k in 0..shifts.len()
        invariant
            search_input(helper, task, vertices@, used@, edges_to_check@, pos as int, positions@, base_p, room as int),
            pos < vertices@.len(),
            ids == level_ids(vertices@),
            ids[pos as int] == v,
            shifts == vertices@[pos as int].1,
            positions@.len() == ps0.len(),
            forall|u: int| 0 <= u < ps0.len() && !#[trigger] pending_at(used@, u, pos as int) ==> positions@[u] == ps0[u],
            *min_dislikes <= min0,
            *min_dislikes == min0 ==> best_positions@ == best0,
            *min_dislikes < min0 ==> {
                &&& best_positions@.len() == task.fig@.len()
                &&& level_ok(helper, task, used@, vertices@.len() as int, best_positions@)
                &&& dislikes_spec(task.hole@, best_positions@) == *min_dislikes
                &&& forall|u: int|
                    0 <= u < ps0.len() && !#[trigger] pending_at(used@, u, pos as int) ==> best_positions@[u] == ps0[u]
            },
            allowed == level_allowed(vertices@),
            forall|choice: Seq<Shift>|
                shifts@.take(k as int).contains(choice[pos as int]) && #[trigger] run(
                    helper,
                    task,
                    ids,
                    allowed,
                    used@,
                    base_p,
                    pos as int,
                    ps0,
                    choice,
                ) is Some ==> *min_dislikes <= dislikes_spec(
                    task.hole@,
                    run(helper, task, ids, allowed, used@, base_p, pos as int, ps0, choice)->0,
                ),
    {
        let shift = shifts[k];
        let ghost ps_k = positions@;
        let ghost min_k = *min_dislikes;
        assert(shifts_within(vertices@[pos as int].1@, room as int));
        let np = base_p.shift(&shift);
        proof {
            assert(shifts@.contains(shift)) by {
                assert(shifts@[k as int] == shift);
            }
            assert forall|choice: Seq<Shift>|
                #[trigger] run(helper, task, ids, allowed, used@, base_p, pos as int, ps0, choice) == run(
                    helper,
                    task,
                    ids,
                    allowed,
                    used@,
                    base_p,
                    pos as int,
                    ps_k,
                    choice,
                ) by {
                lemma_run_frame(helper, task, ids, allowed, used@, base_p, pos as int, ps0, ps_k, choice);
            }
        }
        if helper.is_point_inside(&np) {
            let mut ok = true;
            let mut m: usize = 0;
            while m < edges_to_check.len()
                invariant
                    search_input(helper, task, vertices@, used@, edges_to_check@, pos as int, positions@, base_p, room as int),
                    pos < vertices@.len(),
                    v < task.fig@.len(),
                    m <= edges_to_check@.len(),
                    ok,
                    ok ==> forall|j: int|
                        0 <= j < m ==> #[trigger] checked_ok(helper, task, used@, pos as int, positions@, v, np, edges_to_check@[j]),
                decreases edges_to_check@.len() - m,
            {
                let edge = edges_to_check[m];
                if edge.fr == v || edge.to == v {
                    let another = edge.fr + edge.to - v;
                    let check = match used[another] {
                        None => true,
                        Some(id) => id < pos,
                    };
                    if check {
                        if !helper.is_valid_edge(task, v, another, &np, &positions[another]) {
                            proof {
                                let e = edges_to_check@[m as int];
                                assert(task.edges@.contains(e));
                                let kk = choose|kk: int| 0 <= kk < task.edges@.len() && task.edges@[kk] == e;
                                assert(!checked_ok(helper, task, used@, pos as int, positions@, v, np, task.edges@[kk]));
                                assert(!step_ok(helper, task, used@, pos as int, positions@, v, np));
                            }
                            ok = false;
                            break;
                        }
                    }
                }
                m += 1;
            }
            if ok {
                proof {
                    assert(used@[v as int] is Some) by {
                        assert(ids[pos as int] == v);
                        assert(ids.contains(v));
                    }
                    assert forall|kk: int| 0 <= kk < task.edges@.len() implies #[trigger] checked_ok(
                        helper,
                        task,
                        used@,
                        pos as int,
                        positions@,
                        v,
                        np,
                        task.edges@[kk],
                    ) by {
                        let e = task.edges@[kk];
                        if e.fr == v || e.to == v {
                            assert(edges_to_check@.contains(e));
                            let j = choose|j: int| 0 <= j < edges_to_check@.len() && edges_to_check@[j] == e;
                            assert(checked_ok(helper, task, used@, pos as int, positions@, v, np, edges_to_check@[j]));
                        }
                    }
                    assert(step_ok(helper, task, used@, pos as int, positions@, v, np));
                }
                let ghost ps1 = positions@;
                positions.set(v, np);
                proof {
                    lemma_level_step(helper, task, vertices@, used@, edges_to_check@, pos as int, ps1, v, np);
                }
                rec(pos + 1, vertices, used, edges_to_check, best_positions, min_dislikes, positions, task, helper, base_p, room);
                assert forall|u: int| 0 <= u < ps0.len() && !#[trigger] pending_at(used@, u, pos as int) implies positions@[u]
                    == ps0[u] by {
                    assert(!pending_at(used@, u, pos + 1));
                    assert(u != v);
                }
                proof {
                    if *min_dislikes < min0 {
                        assert forall|u: int| 0 <= u < ps0.len() && !#[trigger] pending_at(used@, u, pos as int) implies best_positions@[u]
                            == ps0[u] by {
                            assert(!pending_at(used@, u, pos + 1));
                            assert(u != v);
                        }
                    }
                    lemma_level_ok_frame(helper, task, used@, pos as int, ps0, positions@);
                    assert(ps1 == ps_k);
                    assert forall|choice: Seq<Shift>|
                        choice[pos as int] == shift && #[trigger] run(
                            helper,
                            task,
                            ids,
                            allowed,
                            used@,
                            base_p,
                            pos as int,
                            ps0,
                            choice,
                        ) is Some implies *min_dislikes <= dislikes_spec(
                        task.hole@,
                        run(helper, task, ids, allowed, used@, base_p, pos as int, ps0, choice)->0,
                    ) by {
                        assert(run(helper, task, ids, allowed, used@, base_p, pos as int, ps0, choice) == run(
                            helper,
                            task,
                            ids,
                            allowed,
                            used@,
                            base_p,
                            pos as int,
                            ps_k,
                            choice,
                        ));
                        assert(allowed(pos as int, shift));
                        assert(run(helper, task, ids, allowed, used@, base_p, pos as int, ps_k, choice) == run(
                            helper,
                            task,
                            ids,
                            allowed,
                            used@,
                            base_p,
                            pos + 1,
                            ps_k.update(v as int, np),
                            choice,
                        ));
                    }
                }
            } else {
                proof {
                    assert forall|choice: Seq<Shift>| choice[pos as int] == shift implies #[trigger] run(
                        helper,
                        task,
                        ids,
                        allowed,
                        used@,
                        base_p,
                        pos as int,
                        ps0,
                        choice,
                    ) is None by {
                        assert(run(helper, task, ids, allowed, used@, base_p, pos as int, ps0, choice) == run(
                            helper,
                            task,
                            ids,
                            allowed,
                            used@,
                            base_p,
                            pos as int,
                            ps_k,
                            choice,
                        ));
                        assert(!step_ok(helper, task, used@, pos as int, ps_k, v, np));
                    }
                }
            }
        } else {
            proof {
                    assert forall|choice: Seq<Shift>| choice[pos as int] == shift implies #[trigger] run(
                        helper,
                        task,
                        ids,
                        allowed,
                        used@,
                        base_p,
                        pos as int,
                        ps0,
                        choice,
                    ) is None by {
                        assert(run(helper, task, ids, allowed, used@, base_p, pos as int, ps0, choice) == run(
                            helper,
                            task,
                            ids,
                            allowed,
                            used@,
                            base_p,
                            pos as int,
                            ps_k,
                            choice,
                        ));
                        assert(!step_ok(helper, task, used@, pos as int, ps_k, v, np));
                    }
                }
        }
        proof {
            let pre = shifts@.take(k as int);
            let ext = shifts@.take(k + 1);
            assert(ext =~= pre.push(shift));
            assert forall|choice: Seq<Shift>|
                ext.contains(choice[pos as int]) && #[trigger] run(
                    helper,
                    task,
                    ids,
                    allowed,
                    used@,
                    base_p,
                    pos as int,
                    ps0,
                    choice,
                ) is Some implies *min_dislikes <= dislikes_spec(
                task.hole@,
                run(helper, task, ids, allowed, used@, base_p, pos as int, ps0, choice)->0,
            ) by {
                if !pre.contains(choice[pos as int]) {
                    let j = choose|j: int| 0 <= j < ext.len() && ext[j] == choice[pos as int];
                    if j < k {
                        assert(pre[j] == choice[pos as int]);
                    }
                    assert(choice[pos as int] == shift);
                }
            }
        }
    }
    proof {
        assert(shifts@.take(shifts@.len() as int) =~= shifts@);
        assert forall|choice: Seq<Shift>|
            #[trigger] run(helper, task, ids, allowed, used@, base_p, pos as int, ps0, choice) is Some implies shifts@.contains(
            choice[pos as int],
        ) by {
            assert(allowed(pos as int, choice[pos as int]));
        }
    }
}

proof fn lemma_level_ok_frame(h: &Helper, t: &Task, used: Seq<Option<usize>>, pos: int, ps: Seq<Point>, ps2: Seq<Point>)
    requires
        level_ok(h, t, used, pos, ps),
        ps.len() == ps2.len(),
        used.len() == ps.len(),
        t.wf(),
        t.fig@.len() == ps.len(),
        forall|u: int| 0 <= u < ps.len() && !#[trigger] pending_at(used, u, pos) ==> ps2[u] == ps[u],
    ensures
        level_ok(h, t, used, pos, ps2),
{
    assert forall|v: int| 0 <= v < used.len() && #[trigger] settled(used, v, pos) implies h.point_inside_spec(ps2[v]@) by {
        assert(!pending_at(used, v, pos));
    }
}

/// The edge `e`, when it joins `v`, placed at `np`, to a vertex placed before
/// it or not moved at all, is valid.
pub open spec fn checked_ok(
    h: &Helper,
    t: &Task,
    used: Seq<Option<usize>>,
    pos: int,
    ps: Seq<Point>,
    v: usize,
    np: Point,
    e: Edge,
) -> bool {
    (e.fr == v || e.to == v) ==> {
        let a = e.fr + e.to - v;
        (used[a] is None || settled(used, a, pos)) ==> h.valid_edge_spec(t, v as int, a, np, ps[a])
    }
}

proof fn lemma_level_step(
    h: &Helper,
    t: &Task,
    vertices: Seq<(usize, &Vec<Shift>)>,
    used: Seq<Option<usize>>,
    edges_to_check: Seq<Edge>,
    pos: int,
    ps: Seq<Point>,
    v: usize,
    np: Point,
)
    requires
        search_core(h, t, vertices, used, edges_to_check, pos, ps),
        pos < vertices.len(),
        level_ids(vertices)[pos] == v,
        h.point_inside_spec(np@),
        forall|j: int| 0 <= j < edges_to_check.len() ==> #[trigger] checked_ok(h, t, used, pos, ps, v, np, edges_to_check[j]),
    ensures
        level_ok(h, t, used, pos + 1, ps.update(v as int, np)),
{
    let ids = level_ids(vertices);
    let ps1 = ps.update(v as int, np);
    assert(used[v as int] is Some) by {
        assert(ids.contains(v));
    }
    let lv = used[v as int]->0 as int;
    assert(lv >= pos) by {
        assert(is_last_index(ids, v as int, lv));
    }
    assert forall|u: int| 0 <= u < used.len() && #[trigger] settled(used, u, pos + 1) implies h.point_inside_spec(
        ps1[u]@,
    ) by {
        if u != v {
            if used[u]->0 == pos {
                assert(is_last_index(ids, u, pos));
            }
            assert(settled(used, u, pos));
        }
    }
    assert forall|k: int| 0 <= k < t.edges@.len() implies {
        let e = #[trigger] t.edges@[k];
        (e.fr != e.to && !pending_at(used, e.fr as int, pos + 1) && !pending_at(used, e.to as int, pos + 1) && (settled(
            used,
            e.fr as int,
            pos + 1,
        ) || settled(used, e.to as int, pos + 1))) ==> h.valid_edge_spec(
            t,
            e.fr as int,
            e.to as int,
            ps1[e.fr as int],
            ps1[e.to as int],
        )
    } by {
        let e = t.edges@[k];
        if e.fr != e.to && !pending_at(used, e.fr as int, pos + 1) && !pending_at(used, e.to as int, pos + 1) && (settled(
            used,
            e.fr as int,
            pos + 1,
        ) || settled(used, e.to as int, pos + 1)) {
            if used[e.fr as int] matches Some(i) && i == pos {
                assert(is_last_index(ids, e.fr as int, pos));
                assert(e.fr == v);
            }
            if used[e.to as int] matches Some(i) && i == pos {
                assert(is_last_index(ids, e.to as int, pos));
                assert(e.to == v);
            }
            if e.fr == v || e.to == v {
                assert(edges_to_check.contains(e));
                let j = choose|j: int| 0 <= j < edges_to_check.len() && edges_to_check[j] == e;
                assert(checked_ok(h, t, used, pos, ps, v, np, edges_to_check[j]));
                if e.fr == v {
                    assert(used[e.to as int] is None || settled(used, e.to as int, pos));
                } else {
                    assert(used[e.fr as int] is None || settled(used, e.fr as int, pos));
                    law_valid_edge_symmetric(h, t, v as int, e.fr as int, np, ps[e.fr as int]);
                }
            } else {
                assert(!pending_at(used, e.fr as int, pos));
                assert(!pending_at(used, e.to as int, pos));
                assert(settled(used, e.fr as int, pos) || settled(used, e.to as int, pos));
            }
        }
    }
}

/// Every vertex that `after` places elsewhere than `before` is inside the
/// hole, and every edge (other than from a vertex to itself) with such an
/// endpoint is valid in `after`.
pub open spec fn moved_ok(h: &Helper, t: &Task, before: Seq<Point>, after: Seq<Point>) -> bool {
    &&& after.len() == before.len()
    &&& forall|i: int| 0 <= i < before.len() && #[trigger] after[i] != before[i] ==> h.point_inside_spec(after[i]@)
    &&& forall|k: int|
        0 <= k < t.edges@.len() ==> {
            let e = #[trigger] t.edges@[k];
            (e.fr != e.to && (after[e.fr as int] != before[e.fr as int] || after[e.to as int] != before[e.to as int]))
                ==> h.valid_edge_spec(t, e.fr as int, e.to as int, after[e.fr as int], after[e.to as int])
        }
}

/// Moves that are each consistent add up to a consistent move.
pub proof fn law_moved_ok_compose(h: &Helper, t: &Task, a: Seq<Point>, b: Seq<Point>, c: Seq<Point>)
    requires
        t.wf(),
        a.len() == t.fig@.len(),
        moved_ok(h, t, a, b),
        moved_ok(h, t, b, c),
    ensures
        moved_ok(h, t, a, c),
{
    assert forall|i: int| 0 <= i < a.len() && #[trigger] c[i] != a[i] implies h.point_inside_spec(c[i]@) by {
        if c[i] == b[i] {
            assert(b[i] != a[i]);
        }
    }
    assert forall|k: int| 0 <= k < t.edges@.len() implies {
        let e = #[trigger] t.edges@[k];
        (e.fr != e.to && (c[e.fr as int] != a[e.fr as int] || c[e.to as int] != a[e.to as int])) ==> h.valid_edge_spec(
            t,
            e.fr as int,
            e.to as int,
            c[e.fr as int],
            c[e.to as int],
        )
    } by {
        let e = t.edges@[k];
        if e.fr != e.to && (c[e.fr as int] != a[e.fr as int] || c[e.to as int] != a[e.to as int]) {
            if c[e.fr as int] == b[e.fr as int] && c[e.to as int] == b[e.to as int] {
                assert(b[e.fr as int] != a[e.fr as int] || b[e.to as int] != a[e.to as int]);
            }
        }
    }
}

proof fn lemma_level_ok_full(
    h: &Helper,
    t: &Task,
    vertices: Seq<(usize, &Vec<Shift>)>,
    used: Seq<Option<usize>>,
    before: Seq<Point>,
    after: Seq<Point>,
)
    requires
        t.wf(),
        used.len() == t.fig@.len(),
        before.len() == t.fig@.len(),
        after.len() == t.fig@.len(),
        used_table(level_ids(vertices), used),
        level_ok(h, t, used, vertices.len() as int, after),
        forall|u: int| 0 <= u < before.len() && !#[trigger] pending_at(used, u, 0) ==> after[u] == before[u],
    ensures
        moved_ok(h, t, before, after),
{
    let ids = level_ids(vertices);
    assert forall|u: int| 0 <= u < used.len() && used[u] is Some implies #[trigger] settled(used, u, vertices.len() as int) by {
        assert(is_last_index(ids, u, used[u]->0 as int));
    }
    assert forall|i: int| 0 <= i < before.len() && #[trigger] after[i] != before[i] implies h.point_inside_spec(after[i]@) by {
        assert(pending_at(used, i, 0));
        assert(settled(used, i, vertices.len() as int));
    }
    assert forall|k: int| 0 <= k < t.edges@.len() implies {
        let e = #[trigger] t.edges@[k];
        (e.fr != e.to && (after[e.fr as int] != before[e.fr as int] || after[e.to as int] != before[e.to as int]))
            ==> h.valid_edge_spec(t, e.fr as int, e.to as int, after[e.fr as int], after[e.to as int])
    } by {
        let e = t.edges@[k];
        if e.fr != e.to && (after[e.fr as int] != before[e.fr as int] || after[e.to as int] != before[e.to as int]) {
            if used[e.fr as int] is Some {
                assert(settled(used, e.fr as int, vertices.len() as int));
            }
            if used[e.to as int] is Some {
                assert(settled(used, e.to as int, vertices.len() as int));
            }
            if after[e.fr as int] != before[e.fr as int] {
                assert(pending_at(used, e.fr as int, 0));
            } else {
                assert(pending_at(used, e.to as int, 0));
            }
        }
    }
}

/// The levels of the search for a better place of vertex `v`, over the
/// first `k` edges: `v` itself first (with no edge, `-1`), then, for each
/// edge at `v` in the order of the edges, its other endpoint with the index
/// of the edge.
pub open spec fn search_levels(t: &Task, v: usize, k: int) -> Seq<(usize, int)>
    decreases k,
{
    if k <= 0 {
        seq![(v, -1int)]
    } else {
        let r = search_levels(t, v, k - 1);
        let e = t.edges@[k - 1];
        if e.fr == v || e.to == v {
            r.push(((e.fr + e.to - v) as usize, k - 1))
        } else {
            r
        }
    }
}

/// The levels that the search keeps: the first `max_vertices` of them.
pub open spec fn kept_levels(t: &Task, v: usize, max_vertices: usize) -> Seq<(usize, int)> {
    let l = search_levels(t, v, t.edges@.len() as int);
    if l.len() > max_vertices {
        l.take(max_vertices as int)
    } else {
        l
    }
}

/// The vertex that each kept level places.
pub open spec fn search_ids(t: &Task, v: usize, max_vertices: usize) -> Seq<usize> {
    kept_levels(t, v, max_vertices).map_values(|l: (usize, int)| l.0)
}

/// The displacements allowed at each kept level: at the first, every one by
/// at most `max_d` along each axis; at the others, those listed for the
/// level's edge.
pub open spec fn search_allowed(t: &Task, h: &Helper, v: usize, max_d: i32, max_vertices: usize) -> spec_fn(
    int,
    Shift,
) -> bool {
    |i: int, s: Shift|
        if i == 0 {
            -max_d <= s.dx <= max_d && -max_d <= s.dy <= max_d
        } else {
            h.shifts_per_edge@[kept_levels(t, v, max_vertices)[i].1]@.contains(s)
        }
}

/// For each of `n` vertices, the last level of `ids` that places it, if any.
pub open spec fn last_levels(ids: Seq<usize>, n: nat) -> Seq<Option<usize>> {
    Seq::new(
        n,
        |u: int|
            if ids.contains(u as usize) {
                Some((choose|i: int| is_last_index(ids, u, i)) as usize)
            } else {
                None
            },
    )
}

/// The search does not depend on what is allowed outside its levels.
proof fn lemma_run_allowed(
    h: &Helper,
    t: &Task,
    ids: Seq<usize>,
    a1: spec_fn(int, Shift) -> bool,
    a2: spec_fn(int, Shift) -> bool,
    used: Seq<Option<usize>>,
    base: Point,
    pos: int,
    ps: Seq<Point>,
    choice: Seq<Shift>,
)
    requires
        forall|i: int, s: Shift| 0 <= i < ids.len() ==> #[trigger] a1(i, s) == a2(i, s),
    ensures
        run(h, t, ids, a1, used, base, pos, ps, choice) == run(h, t, ids, a2, used, base, pos, ps, choice),
    decreases ids.len() - pos,
{
    if 0 <= pos < ids.len() {
        let np = shifted(base, choice[pos]);
        lemma_run_allowed(h, t, ids, a1, a2, used, base, pos + 1, ps.update(ids[pos] as int, np), choice);
        assert(a1(pos, choice[pos]) == a2(pos, choice[pos]));
    }
}

/// The larger of two integers.
pub open spec fn max_int(a: int, b: int) -> int {
    if a > b {
        a
    } else {
        b
    }
}

/// Looks for a better placement of vertex `v` among its displacements by
/// up to `max_d` along each axis, together with its neighbours (the
/// neighbour across each edge of `v`, in the order of the edges, up to
/// `max_vertices` vertices in all) among the displacements listed for their
/// edge, all taken from where `v` stands; the rest of the figure stays.
/// Returns the placement with the fewest dislikes among those the search
/// reaches if it has fewer than `vertices`, and `vertices` otherwise.
pub fn optimize_one(
    task: &Task,
    helper: &Helper,
    vertices: Vec<Point>,
    v: usize,
    max_d: i32,
    max_vertices: usize,
) -> (r: Vec<Point>)
    requires
        helper.wf(),
        helper.for_task(task),
        task.wf(),
        vertices@.len() == task.fig@.len(),
        task.fig@.len() < usize::MAX / 2,
        v < task.fig@.len(),
        i32::MIN < max_d < i32::MAX,
        has_room(vertices@[v as int], max_int(max_d as int, helper.max_c as int)),
    ensures
        r@ == vertices@ || (dislikes_spec(task.hole@, r@) < dislikes_spec(task.hole@, vertices@) && moved_ok(
            helper,
            task,
            vertices@,
            r@,
        )),
        forall|choice: Seq<Shift>|
            #[trigger] run(
                helper,
                task,
                search_ids(task, v, max_vertices),
                search_allowed(task, helper, v, max_d, max_vertices),
                last_levels(search_ids(task, v, max_vertices), task.fig@.len()),
                vertices@[v as int],
                0,
                vertices@,
                choice,
            ) is Some ==> dislikes_spec(task.hole@, r@) <= dislikes_spec(
                task.hole@,
                run(
                    helper,
                    task,
                    search_ids(task, v, max_vertices),
                    search_allowed(task, helper, v, max_d, max_vertices),
                    last_levels(search_ids(task, v, max_vertices), task.fig@.len()),
                    vertices@[v as int],
                    0,
                    vertices@,
                    choice,
                )->0,
            ),
        forall|u: int|
            0 <= u < vertices@.len() && !search_ids(task, v, max_vertices).contains(u as usize) ==> #[trigger] r@[u]
                == vertices@[u],
{
    let n = vertices.len();
    let room: i32 = if max_d > helper.max_c {
        max_d
    } else {
        helper.max_c
    };
    let b_dislikes = dislikes_wide(&task.hole, &vertices);
    let mut first_shifts: Vec<Shift> = Vec::new();
    let mut dx: i32 = -max_d;
    while dx <= max_d
        invariant
            i32::MIN < max_d < i32::MAX,
            -max_d <= dx,
            dx <= max_d + 1 || max_d < 0,
            shifts_within(first_shifts@, room as int),
            room >= max_d,
            forall|s: Shift|
                #[trigger] first_shifts@.contains(s) <==> (-max_d <= s.dx < dx && -max_d <= s.dy <= max_d),
        decreases max_d + 1 - dx,
    {
        let mut dy: i32 = -max_d;
        while dy <= max_d
            invariant
                i32::MIN < max_d < i32::MAX,
                -max_d <= dx <= max_d,
                -max_d <= dy,
                dy <= max_d + 1,
                shifts_within(first_shifts@, room as int),
                room >= max_d,
                forall|s: Shift|
                    #[trigger] first_shifts@.contains(s) <==> ((-max_d <= s.dx < dx && -max_d <= s.dy <= max_d) || (
                    s.dx == dx && -max_d <= s.dy < dy)),
            decreases max_d + 1 - dy,
        {
            let ghost before = first_shifts@;
            let sh = Shift { dx, dy };
            first_shifts.push(sh);
            assert forall|s: Shift| #[trigger] first_shifts@.contains(s) <==> (before.contains(s) || s == sh) by {
                if first_shifts@.contains(s) {
                    let j = choose|j: int| 0 <= j < first_shifts@.len() && first_shifts@[j] == s;
                    if j < before.len() {
                        assert(before[j] == s);
                    }
                }
                if before.contains(s) {
                    let j = choose|j: int| 0 <= j < before.len() && before[j] == s;
                    assert(first_shifts@[j] == s);
                }
                if s == sh {
                    assert(first_shifts@[before.len() as int] == sh);
                }
            }
            dy += 1;
        }
        dx += 1;
    }
    assert forall|s: Shift|
        #[trigger] first_shifts@.contains(s) <==> (-max_d <= s.dx <= max_d && -max_d <= s.dy <= max_d) by {}
    let mut vertices_find: Vec<(usize, &Vec<Shift>)> = Vec::new();
    vertices_find.push((v, &first_shifts));
    let mut e_id: usize = 0;
    while e_id < task.edges.len()
        invariant
            e_id <= task.edges@.len(),
            vertices_find@.len() >= 1,
            helper.for_task(task),
            helper.wf(),
            task.wf(),
            n == task.fig@.len(),
            v < n,
            n < usize::MAX / 2,
            room >= helper.max_c,
            forall|i: int| 0 <= i < vertices_find@.len() ==> #[trigger] vertices_find@[i].0 < n,
            forall|i: int| 0 <= i < vertices_find@.len() ==> shifts_within((#[trigger] vertices_find@[i]).1@, room as int),
            shifts_within(first_shifts@, room as int),
            vertices_find@.len() == search_levels(task, v, e_id as int).len(),
            vertices_find@[0].1@ == first_shifts@,
            search_levels(task, v, e_id as int)[0] == (v, -1int),
            forall|i: int|
                0 <= i < vertices_find@.len() ==> #[trigger] vertices_find@[i].0 == search_levels(
                    task,
                    v,
                    e_id as int,
                )[i].0,
            forall|i: int|
                1 <= i < vertices_find@.len() ==> 0 <= #[trigger] search_levels(task, v, e_id as int)[i].1 < task.edges@.len(),
            forall|i: int|
                1 <= i < vertices_find@.len() ==> (#[trigger] vertices_find@[i]).1@ == helper.shifts_per_edge@[search_levels(
                    task,
                    v,
                    e_id as int,
                )[i].1]@,
        decreases task.edges@.len() - e_id,
    {
        let edge = task.edges[e_id];
        let ghost prev = vertices_find@;
        let ghost lv = search_levels(task, v, e_id as int);
        assert(search_levels(task, v, e_id + 1) == if edge.fr == v || edge.to == v {
            lv.push(((edge.fr + edge.to - v) as usize, e_id as int))
        } else {
            lv
        });
        if edge.fr == v || edge.to == v {
            let another = edge.fr + edge.to - v;
            let shifts = &helper.shifts_per_edge[e_id];
            assert(shifts_within(shifts@, room as int)) by {
                assert forall|i: int| 0 <= i < shifts@.len() implies -room <= (#[trigger] shifts@[i]).dx <= room && -room
                    <= shifts@[i].dy <= room by {
                    assert(shifts@.contains(shifts@[i]));
                }
            }
            vertices_find.push((another, shifts));
            assert(vertices_find@[0] == prev[0]);
            let ghost nl = search_levels(task, v, e_id + 1);
            assert forall|i: int| 1 <= i < vertices_find@.len() implies 0 <= nl[i].1 < task.edges@.len()
                && (#[trigger] vertices_find@[i]).1@ == helper.shifts_per_edge@[nl[i].1]@ by {
                if i < prev.len() {
                    assert(vertices_find@[i] == prev[i]);
                    assert(nl[i] == lv[i]);
                } else {
                    assert(nl[i] == ((edge.fr + edge.to - v) as usize, e_id as int));
                }
            }
            assert forall|i: int| 0 <= i < vertices_find@.len() implies #[trigger] vertices_find@[i].0 == nl[i].0 by {
                if i < prev.len() {
                    assert(vertices_find@[i] == prev[i]);
                    assert(nl[i] == lv[i]);
                }
            }
        } else {
            let ghost nl = search_levels(task, v, e_id + 1);
            assert(nl == lv);
            assert forall|i: int| 1 <= i < vertices_find@.len() implies 0 <= nl[i].1 < task.edges@.len()
                && (#[trigger] vertices_find@[i]).1@ == helper.shifts_per_edge@[nl[i].1]@ by {
                assert(nl[i] == lv[i]);
            }
        }
        e_id += 1;
    }
    let ghost vf_full = vertices_find@;
    let ghost levels_full = search_levels(task, v, task.edges@.len() as int);
    assert(vf_full =~= vf_full.take(vf_full.len() as int));
    while vertices_find.len() > max_vertices
        invariant
            forall|i: int| 0 <= i < vertices_find@.len() ==> #[trigger] vertices_find@[i].0 < n,
            forall|i: int| 0 <= i < vertices_find@.len() ==> shifts_within((#[trigger] vertices_find@[i]).1@, room as int),
            vertices_find@.len() <= vf_full.len(),
            vertices_find@ == vf_full.take(vertices_find@.len() as int),
            vertices_find@.len() >= max_vertices || vertices_find@.len() == vf_full.len(),
        decreases vertices_find@.len(),
    {
        vertices_find.pop();
        assert(vertices_find@ =~= vf_full.take(vertices_find@.len() as int));
    }
    let ghost kept = kept_levels(task, v, max_vertices);
    assert(vertices_find@.len() == kept.len());
    let ghost ids = level_ids(vertices_find@);
    assert(ids =~= search_ids(task, v, max_vertices)) by {
        assert forall|i: int| 0 <= i < ids.len() implies ids[i] == search_ids(task, v, max_vertices)[i] by {
            assert(vertices_find@[i] == vf_full[i]);
            assert(kept[i] == levels_full[i]);
        }
    }
    assert forall|i: int, s: Shift| 0 <= i < ids.len() implies #[trigger] level_allowed(vertices_find@)(i, s)
        == search_allowed(task, helper, v, max_d, max_vertices)(i, s) by {
        assert(vertices_find@[i] == vf_full[i]);
        assert(kept[i] == levels_full[i]);
    }
    let mut used: Vec<Option<usize>> = Vec::new();
    for i in 0..n
        invariant
            used@.len() == i,
            forall|j: int| 0 <= j < i ==> used@[j] is None,
    {
        used.push(None);
    }
    for id in 0..vertices_find.len()
        invariant
            ids == level_ids(vertices_find@),
            used@.len() == n,
            forall|i: int| 0 <= i < vertices_find@.len() ==> #[trigger] vertices_find@[i].0 < n,
            forall|u: int|
                0 <= u < n ==> match #[trigger] used@[u] {
                    None => !ids.take(id as int).contains(u as usize),
                    Some(i) => is_last_index(ids.take(id as int), u, i as int),
                },
    {
        let u = vertices_find[id].0;
        let ghost before = used@;
        used.set(u, Some(id));
        assert forall|w: int| 0 <= w < n implies match #[trigger] used@[w] {
            None => !ids.take(id + 1).contains(w as usize),
            Some(i) => is_last_index(ids.take(id + 1), w, i as int),
        } by {
            assert(ids.take(id + 1)[id as int] == u);
            if w != u {
                match before[w] {
                    None => {
                        let pre = ids.take(id + 1);
                        if pre.contains(w as usize) {
                            let j = choose|j: int| 0 <= j < pre.len() && pre[j] == w as usize;
                            assert(ids.take(id as int)[j] == w as usize);
                        }
                    },
                    Some(i) => {},
                }
            }
        }
    }
    assert(ids.take(vertices_find@.len() as int) =~= ids);
    assert(used@ =~= last_levels(ids, n as nat)) by {
        assert forall|u: int| 0 <= u < n implies used@[u] == last_levels(ids, n as nat)[u] by {
            match used@[u] {
                None => {},
                Some(i) => {
                    assert(ids.contains(u as usize)) by {
                        assert(ids[i as int] == u);
                    }
                    let c = choose|c: int| is_last_index(ids, u, c);
                    assert(is_last_index(ids, u, i as int));
                    if c < i {
                        assert(ids[i as int] != u);
                    }
                    if c > i {
                        assert(ids[c] != u);
                    }
                },
            }
        }
    }
    let mut edges_to_check: Vec<Edge> = Vec::new();
    for k in 0..task.edges.len()
        invariant
            task.wf(),
            used@.len() == n,
            n == task.fig@.len(),
            forall|j: int| 0 <= j < edges_to_check@.len() ==> (#[trigger] edges_to_check@[j]).fr < n && edges_to_check@[j].to < n,
            forall|j: int| 0 <= j < edges_to_check@.len() ==> task.edges@.contains(#[trigger] edges_to_check@[j]),
            forall|j: int|
                0 <= j < k && (used@[(#[trigger] task.edges@[j]).fr as int] is Some || used@[task.edges@[j].to as int] is Some)
                    ==> edges_to_check@.contains(task.edges@[j]),
    {
        let edge = task.edges[k];
        let ghost before = edges_to_check@;
        if used[edge.fr].is_some() || used[edge.to].is_some() {
            edges_to_check.push(edge);
            assert(task.edges@.contains(edge)) by {
                assert(task.edges@[k as int] == edge);
            }
        }
        assert forall|j: int| 0 <= j < edges_to_check@.len() implies task.edges@.contains(#[trigger] edges_to_check@[j]) by {
            if j < before.len() {
                assert(edges_to_check@[j] == before[j]);
            }
        }
        assert forall|j: int|
            0 <= j < k + 1 && (used@[(#[trigger] task.edges@[j]).fr as int] is Some || used@[task.edges@[j].to as int] is Some)
                implies edges_to_check@.contains(task.edges@[j]) by {
            if j == k {
                assert(edges_to_check@[edges_to_check@.len() - 1] == edge);
            } else {
                let m = choose|m: int| 0 <= m < before.len() && before[m] == task.edges@[j];
                assert(edges_to_check@[m] == task.edges@[j]);
            }
        }
    }
    let base_p = vertices[v];
    let mut best_positions = copy_points(&vertices);
    let mut positions = copy_points(&vertices);
    let mut min_dislikes = b_dislikes;
    assert(level_ok(helper, task, used@, 0, positions@)) by {
        assert forall|u: int| 0 <= u < used@.len() && #[trigger] settled(used@, u, 0) implies false by {}
    }
    rec(
        0,
        &vertices_find,
        &used,
        &edges_to_check,
        &mut best_positions,
        &mut min_dislikes,
        &mut positions,
        task,
        helper,
        base_p,
        room,
    );
    proof {
        let sids = search_ids(task, v, max_vertices);
        let sal = search_allowed(task, helper, v, max_d, max_vertices);
        assert forall|choice: Seq<Shift>|
            #[trigger] run(helper, task, sids, sal, last_levels(sids, task.fig@.len()), vertices@[v as int], 0, vertices@, choice)
                is Some implies min_dislikes <= dislikes_spec(
            task.hole@,
            run(helper, task, sids, sal, last_levels(sids, task.fig@.len()), vertices@[v as int], 0, vertices@, choice)->0,
        ) by {
            lemma_run_allowed(helper, task, ids, level_allowed(vertices_find@), sal, used@, base_p, 0, vertices@, choice);
        }
    }
    if min_dislikes < b_dislikes {
        proof {
            lemma_level_ok_full(helper, task, vertices_find@, used@, vertices@, best_positions@);
            assert forall|u: int|
                0 <= u < vertices@.len() && !search_ids(task, v, max_vertices).contains(u as usize) implies #[trigger] best_positions@[u]
                    == vertices@[u] by {
                assert(!pending_at(used@, u, 0));
            }
        }
        best_positions
    } else {
        vertices
    }
}

/// Runs `optimize_one` for each vertex in turn, with displacements of up to
/// five and three vertices at a time.
pub fn optimize(task: &Task, helper: &Helper, vertices: Vec<Point>) -> (r: Vec<Point>)
    requires
        helper.wf(),
        helper.for_task(task),
        task.wf(),
        vertices@.len() == task.fig@.len(),
        task.fig@.len() < usize::MAX / 2,
        forall|i: int| 0 <= i < vertices@.len() ==> has_room(#[trigger] vertices@[i], max_int(5, helper.max_c as int)),
    ensures
        dislikes_spec(task.hole@, r@) <= dislikes_spec(task.hole@, vertices@),
        moved_ok(helper, task, vertices@, r@),
        task.fig@.len() > 0 ==> forall|choice: Seq<Shift>|
            #[trigger] run(
                helper,
                task,
                search_ids(task, 0, 3),
                search_allowed(task, helper, 0, 5, 3),
                last_levels(search_ids(task, 0, 3), task.fig@.len()),
                vertices@[0],
                0,
                vertices@,
                choice,
            ) is Some ==> dislikes_spec(task.hole@, r@) <= dislikes_spec(
                task.hole@,
                run(
                    helper,
                    task,
                    search_ids(task, 0, 3),
                    search_allowed(task, helper, 0, 5, 3),
                    last_levels(search_ids(task, 0, 3), task.fig@.len()),
                    vertices@[0],
                    0,
                    vertices@,
                    choice,
                )->0,
            ),
{
    let mut solution = vertices;
    let ghost v0 = solution@;
    for v in 0..task.fig.len()
        invariant
            helper.wf(),
            helper.for_task(task),
            task.wf(),
            solution@.len() == task.fig@.len(),
            v0.len() == task.fig@.len(),
            task.fig@.len() < usize::MAX / 2,
            forall|i: int| 0 <= i < solution@.len() ==> has_room(#[trigger] solution@[i], max_int(5, helper.max_c as int)),
            dislikes_spec(task.hole@, solution@) <= dislikes_spec(task.hole@, v0),
            moved_ok(helper, task, v0, solution@),
            v == 0 ==> solution@ == v0,
            v > 0 ==> forall|choice: Seq<Shift>|
                #[trigger] run(
                    helper,
                    task,
                    search_ids(task, 0, 3),
                    search_allowed(task, helper, 0, 5, 3),
                    last_levels(search_ids(task, 0, 3), task.fig@.len()),
                    v0[0],
                    0,
                    v0,
                    choice,
                ) is Some ==> dislikes_spec(task.hole@, solution@) <= dislikes_spec(
                    task.hole@,
                    run(
                        helper,
                        task,
                        search_ids(task, 0, 3),
                        search_allowed(task, helper, 0, 5, 3),
                        last_levels(search_ids(task, 0, 3), task.fig@.len()),
                        v0[0],
                        0,
                        v0,
                        choice,
                    )->0,
                ),
    {
        let ghost before = solution@;
        solution = optimize_one(task, helper, solution, v, 5, 3);
        proof {
            if solution@ != before {
                law_moved_ok_compose(helper, task, v0, before, solution@);
                assert forall|i: int| 0 <= i < solution@.len() implies has_room(
                    #[trigger] solution@[i],
                    max_int(5, helper.max_c as int),
                ) by {
                    if solution@[i] != before[i] {
                        assert(helper.point_inside_spec(solution@[i]@));
                    }
                }
            }
        }
    }
    solution
}

} // verus!
