//! Placing again, at random, a group of vertices of a placement, each next
//! to a vertex that stays, through a displacement listed for their edge.
use vstd::prelude::*;
use crate::geometry::{Point, Shift, shifted};
use crate::helper::Helper;
use crate::rand::{Random, xorshift};
use crate::solver::placed_ok;
use crate::task::Task;

verus! {

/// The number of vertices still to be placed again.
pub open spec fn pending(s: Seq<bool>) -> nat
    decreases s.len(),
{
    if s.len() == 0 {
        0
    } else {
        pending(s.drop_last()) + if s.last() {
            1nat
        } else {
            0nat
        }
    }
}

/// The `k`-th edge joins a vertex to be placed again to one that stays.
pub open spec fn mixed_edge(t: &Task, need: Seq<bool>, k: int) -> bool {
    need[t.edges@[k].fr as int] != need[t.edges@[k].to as int]
}

/// Every edge between two vertices that stay is valid.
pub open spec fn fixed_edges_ok(h: &Helper, t: &Task, need: Seq<bool>, ps: Seq<Point>) -> bool {
    forall|k: int|
        0 <= k < t.edges@.len() && !need[t.edges@[k].fr as int] && !need[t.edges@[k].to as int]
            ==> #[trigger] h.valid_edge_spec(
            t,
            t.edges@[k].fr as int,
            t.edges@[k].to as int,
            ps[t.edges@[k].fr as int],
            ps[t.edges@[k].to as int],
        )
}

/// The requirements of the random re-placement.
pub open spec fn replace_input(h: &Helper, t: &Task, need: Seq<bool>, ps: Seq<Point>) -> bool {
    &&& h.wf()
    &&& h.for_task(t)
    &&& t.wf()
    &&& need.len() == t.fig@.len()
    &&& ps.len() == t.fig@.len()
    &&& t.fig@.len() < usize::MAX / 2
    &&& forall|i: int| 0 <= i < ps.len() && !#[trigger] need[i] ==> placed_ok(ps[i], h.max_c as int)
}

/// Placing again a marked vertex leaves one fewer to place.
pub proof fn lemma_pending_update(s: Seq<bool>, i: int)
    requires
        0 <= i < s.len(),
        s[i],
    ensures
        pending(s.update(i, false)) + 1 == pending(s),
    decreases s.len(),
{
    let u = s.update(i, false);
    if i == s.len() - 1 {
        assert(u.drop_last() =~= s.drop_last());
    } else {
        assert(u.drop_last() =~= s.drop_last().update(i, false));
        lemma_pending_update(s.drop_last(), i);
    }
}

/// Whether every edge between two vertices that stay is valid.
fn fixed_edges_valid(t: &Task, h: &Helper, need: &Vec<bool>, positions: &Vec<Point>) -> (r: bool)
    requires
        h.wf(),
        t.wf(),
        need@.len() == t.fig@.len(),
        positions@.len() == t.fig@.len(),
    ensures
        r == fixed_edges_ok(h, t, need@, positions@),
{
    let mut k: usize = 0;
    while k < t.edges.len()
        invariant
            h.wf(),
            t.wf(),
            need@.len() == t.fig@.len(),
            positions@.len() == t.fig@.len(),
            k <= t.edges@.len(),
            forall|j: int|
                0 <= j < k && !need@[t.edges@[j].fr as int] && !need@[t.edges@[j].to as int] ==> #[trigger] h.valid_edge_spec(
                    t,
                    t.edges@[j].fr as int,
                    t.edges@[j].to as int,
                    positions@[t.edges@[j].fr as int],
                    positions@[t.edges@[j].to as int],
                ),
        decreases t.edges@.len() - k,
    {
        let e = t.edges[k];
        if !need[e.fr] && !need[e.to] {
            if !h.is_valid_edge(t, e.fr, e.to, &positions[e.fr], &positions[e.to]) {
                return false;
            }
        }
        k += 1;
    }
    true
}

/// The first edge, from the `j`-th on, that joins a marked and an unmarked
/// vertex of `need`.
pub open spec fn first_mixed(t: &Task, need: Seq<bool>, j: int) -> Option<int>
    decreases t.edges@.len() - j,
{
    if j < 0 || j >= t.edges@.len() {
        None
    } else if mixed_edge(t, need, j) {
        Some(j)
    } else {
        first_mixed(t, need, j + 1)
    }
}

/// The first `k` displacements of `shifts` tried for vertex `v` next to
/// `base_p`, from state `st`: how many of them keep the edge inside the hole
/// and every edge between unmarked vertices of `need` valid, the one kept
/// (each acceptable one replaces the kept one with chance one over their
/// count so far), and the state reached.
pub open spec fn scan_shifts(
    h: &Helper,
    t: &Task,
    need: Seq<bool>,
    ps: Seq<Point>,
    v: int,
    base_p: Point,
    shifts: Seq<Shift>,
    k: int,
    st: usize,
) -> (nat, Shift, usize)
    decreases k,
{
    if k <= 0 {
        (0, Shift { dx: 0, dy: 0 }, st)
    } else {
        let prev = scan_shifts(h, t, need, ps, v, base_p, shifts, k - 1, st);
        let np = shifted(base_p, shifts[k - 1]);
        if h.edge_inside_spec(np, base_p) && fixed_edges_ok(h, t, need, ps.update(v, np)) {
            let cnt = prev.0 + 1;
            let st1 = xorshift(prev.2);
            if st1 % (cnt as usize) == 0 {
                (cnt, shifts[k - 1], st1)
            } else {
                (cnt, prev.1, st1)
            }
        } else {
            prev
        }
    }
}

/// What `rec` does from the marks `need`, the placement `ps` and the state
/// `st`: whether it succeeded, the marks and the placement it leaves, and
/// the state reached.
pub open spec fn rec_from(h: &Helper, t: &Task, need: Seq<bool>, ps: Seq<Point>, st: usize) -> (
    bool,
    Seq<bool>,
    Seq<Point>,
    usize,
)
    decreases pending(need),
{
    match first_mixed(t, need, 0) {
        None => (true, need, ps, st),
        Some(e_id) => {
            let e = t.edges@[e_id];
            let v = if need[e.fr as int] {
                e.fr as int
            } else {
                e.to as int
            };
            let base_p = ps[e.fr + e.to - v];
            let need1 = need.update(v, false);
            let shifts = h.shifts_per_edge@[e_id]@;
            let sc = scan_shifts(h, t, need1, ps, v, base_p, shifts, shifts.len() as int, st);
            if sc.0 == 0 {
                let left = if shifts.len() > 0 {
                    ps.update(v, shifted(base_p, shifts.last()))
                } else {
                    ps
                };
                (false, need, left, sc.2)
            } else if 0 <= v < need.len() && need[v] {
                proof {
                    lemma_pending_update(need, v);
                }
                rec_from(h, t, need1, ps.update(v, shifted(base_p, sc.1)), sc.2)
            } else {
                (false, need, ps, sc.2)
            }
        },
    }
}

proof fn lemma_scan_counts(
    h: &Helper,
    t: &Task,
    need: Seq<bool>,
    ps: Seq<Point>,
    v: int,
    base_p: Point,
    shifts: Seq<Shift>,
    k: int,
    st: usize,
    i: int,
)
    requires
        0 <= i < k <= shifts.len(),
        h.edge_inside_spec(shifted(base_p, shifts[i]), base_p),
        fixed_edges_ok(h, t, need, ps.update(v, shifted(base_p, shifts[i]))),
    ensures
        scan_shifts(h, t, need, ps, v, base_p, shifts, k, st).0 > 0,
    decreases k,
{
    if i < k - 1 {
        lemma_scan_counts(h, t, need, ps, v, base_p, shifts, k - 1, st, i);
    }
}

proof fn lemma_first_mixed_at(t: &Task, need: Seq<bool>, j: int, k: int)
    requires
        0 <= j <= k < t.edges@.len(),
        mixed_edge(t, need, k),
        forall|i: int| 0 <= i < k ==> !#[trigger] mixed_edge(t, need, i),
    ensures
        first_mixed(t, need, j) == Some(k),
    decreases k - j,
{
    if j < k {
        lemma_first_mixed_at(t, need, j + 1, k);
    }
}

proof fn lemma_rec_keeps_unmarked(h: &Helper, t: &Task, need: Seq<bool>, ps: Seq<Point>, st: usize, i: int)
    requires
        0 <= i < need.len(),
        !need[i],
    ensures
        !rec_from(h, t, need, ps, st).1[i],
    decreases pending(need),
{
    match first_mixed(t, need, 0) {
        None => {},
        Some(e_id) => {
            let e = t.edges@[e_id];
            let v = if need[e.fr as int] {
                e.fr as int
            } else {
                e.to as int
            };
            let base_p = ps[e.fr + e.to - v];
            let need1 = need.update(v, false);
            let shifts = h.shifts_per_edge@[e_id]@;
            let sc = scan_shifts(h, t, need1, ps, v, base_p, shifts, shifts.len() as int, st);
            if sc.0 != 0 && 0 <= v < need.len() && need[v] {
                lemma_pending_update(need, v);
                lemma_rec_keeps_unmarked(h, t, need1, ps.update(v, shifted(base_p, sc.1)), sc.2, i);
            }
        },
    }
}

/// The re-placement never gives up on a vertex that can be placed: when the
/// first edge joining a marked vertex `v` to an unmarked one has a listed
/// displacement that puts `v` next to the other end with the edge inside the
/// hole and every edge between unmarked vertices (`v` then among them)
/// valid, `v` ends up placed again, whatever happens afterwards.
pub proof fn law_rec_places_a_placeable_vertex(
    h: &Helper,
    t: &Task,
    need: Seq<bool>,
    ps: Seq<Point>,
    st: usize,
    k: int,
    v: int,
    s: Shift,
)
    requires
        t.wf(),
        need.len() == t.fig@.len(),
        ps.len() == t.fig@.len(),
        0 <= k < t.edges@.len(),
        mixed_edge(t, need, k),
        forall|i: int| 0 <= i < k ==> !#[trigger] mixed_edge(t, need, i),
        v == t.edges@[k].fr || v == t.edges@[k].to,
        need[v],
        h.shifts_per_edge@[k]@.contains(s),
        ({
            let base_p = ps[t.edges@[k].fr + t.edges@[k].to - v];
            let np = shifted(base_p, s);
            &&& h.edge_inside_spec(np, base_p)
            &&& fixed_edges_ok(h, t, need.update(v, false), ps.update(v, np))
        }),
    ensures
        !rec_from(h, t, need, ps, st).1[v],
{
    let e = t.edges@[k];
    lemma_first_mixed_at(t, need, 0, k);
    assert(e.fr < need.len() && e.to < need.len());
    let v0 = if need[e.fr as int] {
        e.fr as int
    } else {
        e.to as int
    };
    assert(v0 == v);
    let base_p = ps[e.fr + e.to - v];
    let need1 = need.update(v, false);
    let shifts = h.shifts_per_edge@[k]@;
    let i = choose|i: int| 0 <= i < shifts.len() && shifts[i] == s;
    lemma_scan_counts(h, t, need1, ps, v, base_p, shifts, shifts.len() as int, st, i);
    let sc = scan_shifts(h, t, need1, ps, v, base_p, shifts, shifts.len() as int, st);
    lemma_pending_update(need, v);
    assert(rec_from(h, t, need, ps, st) == rec_from(h, t, need1, ps.update(v, shifted(base_p, sc.1)), sc.2));
    lemma_rec_keeps_unmarked(h, t, need1, ps.update(v, shifted(base_p, sc.1)), sc.2, v);
}

/// Takes the first edge that joins a vertex to be placed again to one that
/// stays, and places that vertex next to the other through one of the
/// displacements listed for the edge, chosen uniformly at random among those
/// that keep the edge inside the hole and every edge between vertices that
/// stay valid; then goes on with the rest. Returns whether no such edge is
/// left.
#[verifier::loop_isolation(false)]
pub fn rec(
    need_to_change: &mut Vec<bool>,
    positions: &mut Vec<Point>,
    task: &Task,
    helper: &Helper,
    rnd: &mut Random,
) -> (r: bool)
    requires
        replace_input(helper, task, old(need_to_change)@, old(positions)@),
    ensures
        final(need_to_change)@.len() == old(need_to_change)@.len(),
        final(positions)@.len() == old(positions)@.len(),
        forall|i: int|
            0 <= i < old(need_to_change)@.len() && !#[trigger] old(need_to_change)@[i] ==> !final(need_to_change)@[i]
                && final(positions)@[i] == old(positions)@[i],
        r ==> forall|k: int| 0 <= k < task.edges@.len() ==> !#[trigger] mixed_edge(task, final(need_to_change)@, k),
        r ==> forall|i: int|
            0 <= i < old(need_to_change)@.len() && #[trigger] old(need_to_change)@[i] && !final(need_to_change)@[i]
                ==> helper.point_inside_spec(final(positions)@[i]@),
        r && final(need_to_change)@ == old(need_to_change)@ ==> final(positions)@ == old(positions)@,
        r && final(need_to_change)@ != old(need_to_change)@ ==> fixed_edges_ok(
            helper,
            task,
            final(need_to_change)@,
            final(positions)@,
        ),
        (forall|k: int| 0 <= k < task.edges@.len() ==> !#[trigger] mixed_edge(task, old(need_to_change)@, k)) ==> r
            && final(need_to_change)@ == old(need_to_change)@ && final(positions)@ == old(positions)@,
        (r, final(need_to_change)@, final(positions)@, final(rnd).state()) == rec_from(
            helper,
            task,
            old(need_to_change)@,
            old(positions)@,
            old(rnd).state(),
        ),
    decreases pending(old(need_to_change)@),
{
    let ghost need0 = need_to_change@;
    let ghost ps0 = positions@;
    let ghost st0 = rnd.state();
    let mut e_id: usize = 0;
    while e_id < task.edges.len()
        invariant
            replace_input(helper, task, need_to_change@, positions@),
            need_to_change@ == need0,
            positions@ == ps0,
            e_id <= task.edges@.len(),
            forall|k: int| 0 <= k < e_id ==> !#[trigger] mixed_edge(task, need0, k),
            first_mixed(task, need0, 0) == first_mixed(task, need0, e_id as int),
            rnd.state() == st0,
        decreases task.edges@.len() - e_id,
    {
        let edge = task.edges[e_id];
        if need_to_change[edge.fr] != need_to_change[edge.to] {
            assert(mixed_edge(task, need0, e_id as int));
            let v = if need_to_change[edge.fr] {
                edge.fr
            } else {
                edge.to
            };
            need_to_change.set(v, false);
            let base = edge.fr + edge.to - v;
            let base_p = positions[base];
            assert(!need0[base as int]);
            let shifts = &helper.shifts_per_edge[e_id];
            let mut cnt_available: usize = 0;
            let mut use_shift = Shift { dx: 0, dy: 0 };
            let mut found = false;
            let ghost need1 = need_to_change@;
            for k in 0..shifts.len()
                invariant
                    replace_input(helper, task, need0, ps0),
                    need_to_change@ == need1,
                    need1 == need0.update(v as int, false),
                    v < task.fig@.len(),
                    base < task.fig@.len(),
                    base_p == ps0[base as int],
                    positions@.len() == ps0.len(),
                    forall|i: int| 0 <= i < ps0.len() && i != v ==> positions@[i] == ps0[i],
                    *shifts == helper.shifts_per_edge@[e_id as int],
                    e_id < task.edges@.len(),
                    cnt_available <= k,
                    found == (cnt_available > 0),
                    found ==> shifts@.contains(use_shift),
                    found ==> fixed_edges_ok(helper, task, need1, ps0.update(v as int, shifted(base_p, use_shift)))
                        && helper.point_inside_spec(shifted(base_p, use_shift)@)
                        && placed_ok(shifted(base_p, use_shift), helper.max_c as int),
                    (cnt_available as nat, use_shift, rnd.state()) == scan_shifts(
                        helper,
                        task,
                        need1,
                        ps0,
                        v as int,
                        base_p,
                        shifts@,
                        k as int,
                        st0,
                    ),
                    positions@ == if k == 0 {
                        ps0
                    } else {
                        ps0.update(v as int, shifted(base_p, shifts@[k - 1]))
                    },
            {
                let shift = shifts[k];
                assert(shifts@.contains(shift));
                let ghost prev = scan_shifts(helper, task, need1, ps0, v as int, base_p, shifts@, k as int, st0);
                let np = base_p.shift(&shift);
                positions.set(v, np);
                assert(positions@ =~= ps0.update(v as int, np));
                let inside = helper.is_edge_inside(&np, &base_p);
                let ok = inside && fixed_edges_valid(task, helper, need_to_change, positions);
                assert(ok == (helper.edge_inside_spec(np, base_p) && fixed_edges_ok(
                    helper,
                    task,
                    need1,
                    ps0.update(v as int, np),
                )));
                if ok {
                    cnt_available += 1;
                    if rnd.next_in_range(0, cnt_available) == 0 {
                        use_shift = shift;
                    }
                    found = true;
                }
                assert((cnt_available as nat, use_shift, rnd.state()) == scan_shifts(
                    helper,
                    task,
                    need1,
                    ps0,
                    v as int,
                    base_p,
                    shifts@,
                    k + 1,
                    st0,
                )) by {
                    assert(shifts@[k as int] == shift);
                    assert(np == shifted(base_p, shifts@[(k + 1) - 1]));
                }
            }
            if cnt_available == 0 {
                need_to_change.set(v, true);
                assert(need_to_change@ =~= need0);
                return false;
            } else {
                let np = base_p.shift(&use_shift);
                positions.set(v, np);
                let ghost ps1 = positions@;
                assert(ps1 =~= ps0.update(v as int, np));
                proof {
                    lemma_pending_update(need0, v as int);
                }
                let res = rec(need_to_change, positions, task, helper, rnd);
                proof {
                    assert forall|i: int| 0 <= i < need0.len() && !#[trigger] need0[i] implies !need_to_change@[i]
                        && positions@[i] == ps0[i] by {
                        assert(!need1[i]);
                    }
                    if res {
                        assert forall|i: int|
                            0 <= i < need0.len() && #[trigger] need0[i] && !need_to_change@[i] implies helper.point_inside_spec(
                            positions@[i]@,
                        ) by {
                            if i == v {
                                assert(!need1[i]);
                            } else {
                                assert(need1[i]);
                            }
                        }
                    }
                    if res {
                        if need_to_change@ == need1 {
                            assert(positions@ == ps1);
                        }
                        assert(!need1[v as int]);
                        assert(need_to_change@[v as int] == false);
                        assert(need_to_change@ != need0) by {
                            assert(need0[v as int]);
                        }
                    }
                }
                return res;
            }
        }
        e_id += 1;
    }
    true
}

/// The marks of the vertices listed in `vs`, among `n` vertices.
pub open spec fn marks(vs: Seq<usize>, n: nat) -> Seq<bool> {
    Seq::new(n, |i: int| vs.contains(i as usize))
}

/// What a successful `rec` leaves: `ps` agrees with `before` on the vertices
/// that `need` (the marks at the start) leaves alone, `after` (the marks at
/// the end) unmarks no more than `need` marked, no edge joins a marked and an
/// unmarked vertex of `after`, the vertices placed again are inside the hole,
/// and, unless nothing was placed again, every edge between unmarked
/// vertices is valid.
pub open spec fn replaced(
    h: &Helper,
    t: &Task,
    need: Seq<bool>,
    after: Seq<bool>,
    before: Seq<Point>,
    ps: Seq<Point>,
) -> bool {
    &&& after.len() == need.len()
    &&& ps.len() == before.len()
    &&& forall|i: int| 0 <= i < need.len() && !#[trigger] need[i] ==> !after[i] && ps[i] == before[i]
    &&& forall|k: int| 0 <= k < t.edges@.len() ==> !#[trigger] mixed_edge(t, after, k)
    &&& forall|i: int| 0 <= i < need.len() && #[trigger] need[i] && !after[i] ==> h.point_inside_spec(ps[i]@)
    &&& after == need ==> ps == before
    &&& after != need ==> fixed_edges_ok(h, t, after, ps)
}

/// One round of the random re-placement: the vertices of `v_to_change` are
/// marked, and `rec` places again, one by one, those that an edge joins to an
/// unmarked vertex. Returns the new placement when `rec` succeeded.
pub fn replace_vertices(
    task: &Task,
    helper: &Helper,
    vertices: &Vec<Point>,
    v_to_change: &[usize],
    rnd: &mut Random,
) -> (r: Option<Vec<Point>>)
    requires
        helper.wf(),
        helper.for_task(task),
        task.wf(),
        vertices@.len() == task.fig@.len(),
        task.fig@.len() < usize::MAX / 2,
        forall|j: int| 0 <= j < v_to_change@.len() ==> #[trigger] v_to_change@[j] < task.fig@.len(),
        forall|i: int|
            0 <= i < vertices@.len() && !v_to_change@.contains(i as usize) ==> placed_ok(
                #[trigger] vertices@[i],
                helper.max_c as int,
            ),
    ensures
        r matches Some(ps) ==> exists|after: Seq<bool>|
            #[trigger] replaced(
                helper,
                task,
                marks(v_to_change@, task.fig@.len()),
                after,
                vertices@,
                ps@,
            ),
        (forall|k: int| 0 <= k < task.edges@.len() ==> !#[trigger] mixed_edge(task, marks(v_to_change@, task.fig@.len()), k))
            ==> (r matches Some(ps) && ps@ == vertices@),
        ({
            let o = rec_from(helper, task, marks(v_to_change@, task.fig@.len()), vertices@, old(rnd).state());
            &&& final(rnd).state() == o.3
            &&& match r {
                Some(ps) => o.0 && ps@ == o.2,
                None => !o.0,
            }
        }),
{
    let n = task.fig.len();
    let mut need_to_change: Vec<bool> = Vec::new();
    for i in 0..n
        invariant
            need_to_change@.len() == i,
            forall|j: int| 0 <= j < i ==> !#[trigger] need_to_change@[j],
    {
        need_to_change.push(false);
    }
    for j in 0..v_to_change.len()
        invariant
            n == task.fig@.len(),
            need_to_change@.len() == n,
            forall|k: int| 0 <= k < v_to_change@.len() ==> #[trigger] v_to_change@[k] < task.fig@.len(),
            forall|i: int| 0 <= i < n ==> #[trigger] need_to_change@[i] == v_to_change@.take(j as int).contains(i as usize),
    {
        let v = v_to_change[j];
        need_to_change.set(v, true);
        assert forall|i: int| 0 <= i < n implies #[trigger] need_to_change@[i] == v_to_change@.take(j + 1).contains(
            i as usize,
        ) by {
            let a = v_to_change@.take(j as int);
            let b = v_to_change@.take(j + 1);
            assert(b =~= a.push(v));
            assert(b[j as int] == v);
            assert((i as usize) as int == i);
            if i != v {
                if b.contains(i as usize) {
                    let w = choose|w: int| 0 <= w < b.len() && #[trigger] b[w] == i as usize;
                    assert(w != j);
                    assert(a[w] == i as usize);
                }
                if a.contains(i as usize) {
                    let w = choose|w: int| 0 <= w < a.len() && #[trigger] a[w] == i as usize;
                    assert(b[w] == i as usize);
                }
            }
        }
    }
    assert(v_to_change@.take(v_to_change@.len() as int) =~= v_to_change@);
    let ghost need = need_to_change@;
    assert(need =~= marks(v_to_change@, n as nat));
    let mut positions = vertices.clone();
    assert(positions@ =~= vertices@);
    if rec(&mut need_to_change, &mut positions, task, helper, rnd) {
        let ghost after = need_to_change@;
        let r = Some(positions);
        assert(replaced(helper, task, marks(v_to_change@, task.fig@.len()), after, vertices@, r->0@));
        r
    } else {
        None
    }
}

} // verus!
