//! Moving one vertex of a placement and repairing the edges this breaks by
//! moving further vertices one step at a time.
use vstd::prelude::*;
use crate::geometry::{Point, Shift, fits_i32, moved, shifted};
use crate::helper::{Helper, law_edge_inside_symmetric, law_valid_edge_symmetric};
use crate::placement::edges_at_inside;
use crate::task::Task;

verus! {

/// The `k`-th edge is valid where `ps` places its endpoints.
pub open spec fn edge_ok_at(h: &Helper, t: &Task, ps: Seq<Point>, k: int) -> bool {
    let e = t.edges@[k];
    h.valid_edge_spec(t, e.fr as int, e.to as int, ps[e.fr as int], ps[e.to as int])
}

/// Every edge is valid where `ps` places its endpoints.
pub open spec fn all_edges_ok(h: &Helper, t: &Task, ps: Seq<Point>) -> bool {
    forall|k: int| 0 <= k < t.edges@.len() ==> #[trigger] edge_ok_at(h, t, ps, k)
}

/// Every edge whose endpoints have both not been moved is valid.
pub open spec fn unmoved_edges_ok(h: &Helper, t: &Task, ps: Seq<Point>, changed: Seq<bool>) -> bool {
    forall|k: int|
        0 <= k < t.edges@.len() && !changed[t.edges@[k].fr as int] && !changed[t.edges@[k].to as int]
            ==> #[trigger] edge_ok_at(h, t, ps, k)
}

/// Neither coordinate is at a limit of `i32`, so a step of one can be taken.
pub open spec fn not_extreme(p: Point) -> bool {
    i32::MIN < p.x < i32::MAX && i32::MIN < p.y < i32::MAX
}

/// `b` is one of the eight lattice points around `a`.
pub open spec fn one_step(a: Point, b: Point) -> bool {
    -1 <= b.x - a.x <= 1 && -1 <= b.y - a.y <= 1 && b != a
}

/// The requirements of the repair search.
pub open spec fn repair_input(h: &Helper, t: &Task, ps: Seq<Point>, changed: Seq<bool>) -> bool {
    &&& h.wf()
    &&& t.wf()
    &&& ps.len() == t.fig@.len()
    &&& changed.len() == t.fig@.len()
    &&& t.fig@.len() < usize::MAX / 2
    &&& unmoved_edges_ok(h, t, ps, changed)
    &&& forall|i: int| 0 <= i < ps.len() && !changed[i] ==> not_extreme(#[trigger] ps[i])
}

/// What a successful repair leaves: every edge valid, the vertices moved
/// before stay where they were, and each vertex moved now has taken one step.
pub open spec fn repaired(
    h: &Helper,
    t: &Task,
    ps0: Seq<Point>,
    ch0: Seq<bool>,
    ps1: Seq<Point>,
    ch1: Seq<bool>,
) -> bool {
    &&& all_edges_ok(h, t, ps1)
    &&& ps1.len() == ps0.len()
    &&& ch1.len() == ch0.len()
    &&& forall|i: int| 0 <= i < ch0.len() && #[trigger] ch0[i] ==> ch1[i] && ps1[i] == ps0[i]
    &&& forall|i: int| 0 <= i < ch0.len() && !#[trigger] ch0[i] && !ch1[i] ==> ps1[i] == ps0[i]
    &&& forall|i: int| 0 <= i < ch0.len() && !#[trigger] ch0[i] && ch1[i] ==> one_step(ps0[i], ps1[i])
}

/// The index of the first edge, from the `j`-th on, that is not valid where
/// `ps` places its endpoints.
pub open spec fn first_broken(h: &Helper, t: &Task, ps: Seq<Point>, j: int) -> Option<int>
    decreases t.edges@.len() - j,
{
    if j < 0 || j >= t.edges@.len() {
        None
    } else if !edge_ok_at(h, t, ps, j) {
        Some(j)
    } else {
        first_broken(h, t, ps, j + 1)
    }
}

/// The repair that `rec_shift` finds from `ps` and the marks `ch` of the
/// vertices moved so far, with at most `fuel` further steps: the placement
/// and marks it leaves, or `None` when it finds none.
pub open spec fn repair_search(h: &Helper, t: &Task, ps: Seq<Point>, ch: Seq<bool>, fuel: nat) -> Option<
    (Seq<Point>, Seq<bool>),
>
    decreases fuel, 10int,
{
    match first_broken(h, t, ps, 0) {
        None => Some((ps, ch)),
        Some(k) => {
            let e = t.edges@[k];
            if fuel == 0 || (ch[e.fr as int] && ch[e.to as int]) {
                None
            } else {
                let tc = if ch[e.fr as int] {
                    e.to as int
                } else {
                    e.fr as int
                };
                let seen = e.fr + e.to - tc;
                try_steps(h, t, ps, ch, fuel, tc, seen, 0)
            }
        },
    }
}

/// The steps of vertex `tc` tried by `rec_shift`, from the `d`-th of the nine
/// around it on (by first, then second coordinate, from `-1` to `1`, the
/// null step left out): the first that makes its edge to `seen` valid and
/// from which the search goes through.
pub open spec fn try_steps(
    h: &Helper,
    t: &Task,
    ps: Seq<Point>,
    ch: Seq<bool>,
    fuel: nat,
    tc: int,
    seen: int,
    d: int,
) -> Option<(Seq<Point>, Seq<bool>)>
    decreases fuel, 9 - d,
{
    if d < 0 || d >= 9 || fuel == 0 {
        None
    } else {
        let dx = d / 3 - 1;
        let dy = d % 3 - 1;
        let rest = try_steps(h, t, ps, ch, fuel, tc, seen, d + 1);
        if dx == 0 && dy == 0 {
            rest
        } else {
            let np = shifted(ps[tc], Shift { dx: dx as i32, dy: dy as i32 });
            if h.valid_edge_spec(t, seen, tc, ps[seen], np) {
                match repair_search(h, t, ps.update(tc, np), ch.update(tc, true), (fuel - 1) as nat) {
                    Some(x) => Some(x),
                    None => rest,
                }
            } else {
                rest
            }
        }
    }
}

proof fn lemma_first_broken_at(h: &Helper, t: &Task, ps: Seq<Point>, j: int, k: int)
    requires
        0 <= j <= k < t.edges@.len(),
        !edge_ok_at(h, t, ps, k),
        forall|i: int| 0 <= i < k ==> #[trigger] edge_ok_at(h, t, ps, i),
    ensures
        first_broken(h, t, ps, j) == Some(k),
    decreases k - j,
{
    if j < k {
        lemma_first_broken_at(h, t, ps, j + 1, k);
    }
}

proof fn lemma_first_broken_none(h: &Helper, t: &Task, ps: Seq<Point>, j: int)
    requires
        0 <= j,
        all_edges_ok(h, t, ps),
    ensures
        first_broken(h, t, ps, j) is None,
    decreases t.edges@.len() - j,
{
    if j < t.edges@.len() {
        lemma_first_broken_none(h, t, ps, j + 1);
    }
}

proof fn lemma_try_steps_reach(
    h: &Helper,
    t: &Task,
    ps: Seq<Point>,
    ch: Seq<bool>,
    fuel: nat,
    tc: int,
    seen: int,
    d: int,
    target: int,
)
    requires
        0 <= d <= target < 9,
        fuel > 0,
        target / 3 - 1 != 0 || target % 3 - 1 != 0,
        ({
            let np = shifted(ps[tc], Shift { dx: (target / 3 - 1) as i32, dy: (target % 3 - 1) as i32 });
            &&& h.valid_edge_spec(t, seen, tc, ps[seen], np)
            &&& repair_search(h, t, ps.update(tc, np), ch.update(tc, true), (fuel - 1) as nat) is Some
        }),
    ensures
        try_steps(h, t, ps, ch, fuel, tc, seen, d) is Some,
    decreases target - d,
{
    if d < target {
        lemma_try_steps_reach(h, t, ps, ch, fuel, tc, seen, d + 1, target);
    }
}

/// The repair never gives up on a broken edge that has one endpoint left to
/// move, whichever end of the edge that is: when the first edge that is not
/// valid has exactly one moved endpoint `other` and its other endpoint `tc`,
/// stepped to a neighbouring lattice point `np`, makes every edge valid, a
/// search with at least one step left succeeds.
pub proof fn law_repair_steps_the_unmoved_end(
    h: &Helper,
    t: &Task,
    ps: Seq<Point>,
    ch: Seq<bool>,
    fuel: nat,
    k: int,
    tc: int,
    np: Point,
)
    requires
        t.wf(),
        ps.len() == t.fig@.len(),
        ch.len() == t.fig@.len(),
        0 <= k < t.edges@.len(),
        !edge_ok_at(h, t, ps, k),
        forall|i: int| 0 <= i < k ==> #[trigger] edge_ok_at(h, t, ps, i),
        tc == t.edges@[k].fr || tc == t.edges@[k].to,
        !ch[tc],
        ch[t.edges@[k].fr + t.edges@[k].to - tc],
        one_step(ps[tc], np),
        all_edges_ok(h, t, ps.update(tc, np)),
        fuel >= 1,
    ensures
        repair_search(h, t, ps, ch, fuel) is Some,
{
    let e = t.edges@[k];
    let seen = e.fr + e.to - tc;
    lemma_first_broken_at(h, t, ps, 0, k);
    assert(edge_ok_at(h, t, ps.update(tc, np), k));
    assert(e.fr < ps.len() && e.to < ps.len());
    let dx = np.x - ps[tc].x;
    let dy = np.y - ps[tc].y;
    let target = (dx + 1) * 3 + (dy + 1);
    assert(target / 3 - 1 == dx && target % 3 - 1 == dy) by (nonlinear_arith)
        requires
            target == (dx + 1) * 3 + (dy + 1),
            -1 <= dx <= 1,
            -1 <= dy <= 1,
    ;
    assert(shifted(ps[tc], Shift { dx: dx as i32, dy: dy as i32 }) == np);
    if tc == e.to {
        assert(ps.update(tc, np)[e.fr as int] == ps[seen]);
        assert(h.valid_edge_spec(t, seen, tc, ps[seen], np));
    } else {
        assert(ps.update(tc, np)[e.to as int] == ps[seen]);
        law_valid_edge_symmetric(h, t, tc, seen, np, ps[seen]);
        assert(h.valid_edge_spec(t, seen, tc, ps[seen], np));
    }
    lemma_first_broken_none(h, t, ps.update(tc, np), 0);
    assert(repair_search(h, t, ps.update(tc, np), ch.update(tc, true), (fuel - 1) as nat) is Some);
    lemma_try_steps_reach(h, t, ps, ch, fuel, tc, seen, 0, target);
    assert(repair_search(h, t, ps, ch, fuel) == try_steps(h, t, ps, ch, fuel, tc, seen, 0));
}

/// Looks for the first edge that is not valid; it must have a moved
/// endpoint, and then its other endpoint is stepped to each of its eight
/// neighbours in turn that makes this edge valid, and the search goes on
/// from there, at most `max_depth - depth` steps deep. Returns whether every
/// edge could be made valid; if not, nothing is changed.
#[verifier::loop_isolation(false)]
#[verifier::rlimit(100)]
#[verifier::spinoff_prover]
pub fn rec_shift(
    t: &Task,
    h: &Helper,
    positions: &mut [Point],
    changed: &mut [bool],
    depth: usize,
    max_depth: usize,
) -> (r: bool)
    requires
        repair_input(h, t, old(positions)@, old(changed)@),
        depth <= max_depth,
    ensures
        r ==> repaired(h, t, old(positions)@, old(changed)@, final(positions)@, final(changed)@),
        !r ==> final(positions)@ == old(positions)@ && final(changed)@ == old(changed)@,
        all_edges_ok(h, t, old(positions)@) ==> r && final(positions)@ == old(positions)@ && final(changed)@ == old(
            changed,
        )@,
        !all_edges_ok(h, t, old(positions)@) && depth == max_depth ==> !r,
        match repair_search(h, t, old(positions)@, old(changed)@, (max_depth - depth) as nat) {
            Some(x) => r && final(positions)@ == x.0 && final(changed)@ == x.1,
            None => !r,
        },
    decreases max_depth - depth,
{
    let ghost ps0 = positions@;
    let ghost ch0 = changed@;
    let ghost fuel = (max_depth - depth) as nat;
    for k in 0..t.edges.len()
        invariant
            repair_input(h, t, positions@, changed@),
            positions@ == ps0,
            changed@ == ch0,
            depth <= max_depth,
            forall|j: int| 0 <= j < k ==> #[trigger] edge_ok_at(h, t, positions@, j),
            first_broken(h, t, ps0, 0) == first_broken(h, t, ps0, k as int),
            fuel == max_depth - depth,
    {
        let edge = t.edges[k];
        if !h.is_valid_edge(t, edge.fr, edge.to, &positions[edge.fr], &positions[edge.to]) {
            assert(!edge_ok_at(h, t, positions@, k as int));
            if depth == max_depth {
                return false;
            }
            if changed[edge.fr] && changed[edge.to] {
                return false;
            }
            let to_change = if changed[edge.fr] {
                edge.to
            } else {
                edge.fr
            };
            assert(changed@[edge.to as int] || changed@[edge.fr as int]);
            let seen = edge.fr + edge.to - to_change;
            assert(t.edges@[k as int] == edge);
            assert(repair_search(h, t, ps0, ch0, fuel) == try_steps(
                h,
                t,
                ps0,
                ch0,
                fuel,
                to_change as int,
                seen as int,
                0,
            ));
            let mut dx: i32 = -1;
            while dx <= 1
                invariant
                    repair_input(h, t, positions@, changed@),
                    positions@ == ps0,
                    changed@ == ch0,
                    depth < max_depth,
                    to_change < t.fig@.len(),
                    seen < t.fig@.len(),
                    !ch0[to_change as int],
                    -1 <= dx <= 2,
                    fuel == max_depth - depth,
                    fuel > 0,
                    repair_search(h, t, ps0, ch0, fuel) == try_steps(
                        h,
                        t,
                        ps0,
                        ch0,
                        fuel,
                        to_change as int,
                        seen as int,
                        (dx + 1) * 3,
                    ),
                decreases 2 - dx,
            {
                let mut dy: i32 = -1;
                while dy <= 1
                    invariant
                        repair_input(h, t, positions@, changed@),
                        positions@ == ps0,
                        changed@ == ch0,
                        depth < max_depth,
                        to_change < t.fig@.len(),
                        seen < t.fig@.len(),
                        !ch0[to_change as int],
                        -1 <= dx <= 1,
                        -1 <= dy <= 2,
                        fuel == max_depth - depth,
                        fuel > 0,
                        repair_search(h, t, ps0, ch0, fuel) == try_steps(
                            h,
                            t,
                            ps0,
                            ch0,
                            fuel,
                            to_change as int,
                            seen as int,
                            (dx + 1) * 3 + (dy + 1),
                        ),
                    decreases 2 - dy,
                {
                    let ghost d = (dx + 1) * 3 + (dy + 1);
                    assert(d / 3 - 1 == dx && d % 3 - 1 == dy) by (nonlinear_arith)
                        requires
                            d == (dx + 1) * 3 + (dy + 1),
                            -1 <= dx <= 1,
                            -1 <= dy <= 1,
                    ;
                    if !(dx == 0 && dy == 0) {
                        let old_p = positions[to_change];
                        assert(not_extreme(positions@[to_change as int]));
                        let np = old_p.shift(&Shift { dx, dy });
                        if h.is_valid_edge(t, seen, to_change, &positions[seen], &np) {
                            changed[to_change] = true;
                            positions[to_change] = np;
                            proof {
                                assert forall|j: int|
                                    0 <= j < t.edges@.len() && !changed@[t.edges@[j].fr as int]
                                        && !changed@[t.edges@[j].to as int] implies #[trigger] edge_ok_at(
                                    h,
                                    t,
                                    positions@,
                                    j,
                                ) by {
                                    assert(edge_ok_at(h, t, ps0, j));
                                }
                            }
                            let ghost ps_mid = positions@;
                            let ghost ch_mid = changed@;
                            assert(ps_mid =~= ps0.update(to_change as int, np));
                            assert(ch_mid =~= ch0.update(to_change as int, true));
                            if rec_shift(t, h, positions, changed, depth + 1, max_depth) {
                                proof {
                                    lemma_repaired_step(h, t, ps0, ch0, ps_mid, ch_mid, positions@, changed@, to_change as int, np);
                                }
                                return true;
                            }
                            changed[to_change] = false;
                            positions[to_change] = old_p;
                            assert(positions@ =~= ps0);
                            assert(changed@ =~= ch0);
                        }
                    }
                    dy += 1;
                }
                dx += 1;
            }
            return false;
        }
    }
    true
}

proof fn lemma_repaired_step(
    h: &Helper,
    t: &Task,
    ps0: Seq<Point>,
    ch0: Seq<bool>,
    ps_mid: Seq<Point>,
    ch_mid: Seq<bool>,
    ps1: Seq<Point>,
    ch1: Seq<bool>,
    tc: int,
    np: Point,
)
    requires
        0 <= tc < ps0.len(),
        ps0.len() == ch0.len(),
        !ch0[tc],
        one_step(ps0[tc], np),
        ps_mid == ps0.update(tc, np),
        ch_mid == ch0.update(tc, true),
        repaired(h, t, ps_mid, ch_mid, ps1, ch1),
    ensures
        repaired(h, t, ps0, ch0, ps1, ch1),
{
    assert forall|i: int| 0 <= i < ch0.len() && #[trigger] ch0[i] implies ch1[i] && ps1[i] == ps0[i] by {
        assert(ch_mid[i]);
    }
    assert forall|i: int| 0 <= i < ch0.len() && !#[trigger] ch0[i] && !ch1[i] implies ps1[i] == ps0[i] by {
        assert(ch_mid[tc]);
        if i != tc {
            assert(!ch_mid[i]);
        }
    }
    assert forall|i: int| 0 <= i < ch0.len() && !#[trigger] ch0[i] && ch1[i] implies one_step(ps0[i], ps1[i]) by {
        if i == tc {
            assert(ch_mid[tc]);
        } else {
            assert(!ch_mid[i]);
        }
    }
}

/// The repair that searches of depth `md`, `md + 1`, ... up to below `limit`
/// find first, from `ps` with the marks `ch`.
pub open spec fn deepening(h: &Helper, t: &Task, ps: Seq<Point>, ch: Seq<bool>, md: nat, limit: nat) -> Option<
    (Seq<Point>, Seq<bool>),
>
    decreases limit - md,
{
    if md >= limit {
        None
    } else {
        match repair_search(h, t, ps, ch, md) {
            Some(x) => Some(x),
            None => deepening(h, t, ps, ch, md + 1, limit),
        }
    }
}

/// Among `n` vertices, the marks of vertex `v` alone.
pub open spec fn only_marked(n: nat, v: int) -> Seq<bool> {
    Seq::new(n, |j: int| j == v)
}

/// The repair that `try_shift` makes after moving vertex `v` of `ps` by
/// `shift`: the first that searches of depth up to eight find.
pub open spec fn shift_repair(h: &Helper, t: &Task, ps: Seq<Point>, v: int, shift: Shift) -> Option<
    (Seq<Point>, Seq<bool>),
> {
    deepening(h, t, ps.update(v, shifted(ps[v], shift)), only_marked(ps.len(), v), 0, 9)
}

/// Moving vertex `v` succeeds whenever one step of a single neighbour
/// repairs it: if, after the move, the first edge that is not valid joins
/// `v` to a vertex `u` (either end of the edge), and stepping `u` to a
/// neighbouring lattice point `np` makes every edge valid, `try_shift`
/// finds a repair.
pub proof fn law_try_shift_repairs_a_one_step_break(
    h: &Helper,
    t: &Task,
    ps: Seq<Point>,
    v: int,
    shift: Shift,
    k: int,
    u: int,
    np: Point,
)
    requires
        t.wf(),
        ps.len() == t.fig@.len(),
        0 <= v < ps.len(),
        0 <= k < t.edges@.len(),
        ({
            let ps1 = ps.update(v, shifted(ps[v], shift));
            &&& !edge_ok_at(h, t, ps1, k)
            &&& forall|i: int| 0 <= i < k ==> #[trigger] edge_ok_at(h, t, ps1, i)
            &&& (t.edges@[k].fr == v && t.edges@[k].to == u) || (t.edges@[k].to == v && t.edges@[k].fr == u)
            &&& u != v
            &&& one_step(ps1[u], np)
            &&& all_edges_ok(h, t, ps1.update(u, np))
        }),
    ensures
        shift_repair(h, t, ps, v, shift) is Some,
{
    let ps1 = ps.update(v, shifted(ps[v], shift));
    let ch = only_marked(ps.len(), v);
    lemma_first_broken_at(h, t, ps1, 0, k);
    assert(repair_search(h, t, ps1, ch, 0) is None);
    assert(t.edges@[k].fr + t.edges@[k].to - u == v);
    law_repair_steps_the_unmoved_end(h, t, ps1, ch, 1, k, u, np);
    assert(deepening(h, t, ps1, ch, 1, 9) is Some);
}

/// Moves vertex `v` by `shift` and tries to repair the placement with
/// searches of growing depth, up to eight steps. Returns whether it
/// succeeded; if not, nothing is changed.
#[verifier::loop_isolation(false)]
pub fn try_shift(t: &Task, h: &Helper, positions: &mut [Point], v: usize, shift: &Shift) -> (r: bool)
    requires
        h.wf(),
        t.wf(),
        old(positions)@.len() == t.fig@.len(),
        t.fig@.len() < usize::MAX / 2,
        v < t.fig@.len(),
        fits_i32(old(positions)@[v as int].x + shift.dx),
        fits_i32(old(positions)@[v as int].y + shift.dy),
        forall|i: int| 0 <= i < t.fig@.len() && i != v ==> not_extreme(#[trigger] old(positions)@[i]),
        forall|k: int|
            0 <= k < t.edges@.len() && t.edges@[k].fr != v && t.edges@[k].to != v ==> #[trigger] edge_ok_at(
                h,
                t,
                old(positions)@,
                k,
            ),
    ensures
        r ==> all_edges_ok(h, t, final(positions)@),
        r ==> final(positions)@.len() == old(positions)@.len(),
        r ==> final(positions)@[v as int]@ == moved(old(positions)@[v as int]@, shift.dx as int, shift.dy as int),
        r ==> forall|i: int|
            0 <= i < t.fig@.len() && i != v ==> #[trigger] final(positions)@[i] == old(positions)@[i] || one_step(
                old(positions)@[i],
                final(positions)@[i],
            ),
        !r ==> final(positions)@ == old(positions)@,
        all_edges_ok(h, t, old(positions)@.update(v as int, shifted(old(positions)@[v as int], *shift))) ==> r
            && final(positions)@ == old(positions)@.update(v as int, shifted(old(positions)@[v as int], *shift)),
        match shift_repair(h, t, old(positions)@, v as int, *shift) {
            Some(x) => r && final(positions)@ == x.0,
            None => !r,
        },
{
    let ghost ps0 = positions@;
    let n = positions.len();
    let mut changed: Vec<bool> = Vec::new();
    for i in 0..n
        invariant
            changed@.len() == i,
            forall|j: int| 0 <= j < i ==> !changed@[j],
    {
        changed.push(false);
    }
    changed.set(v, true);
    let old_p = positions[v];
    let np = positions[v].shift(shift);
    positions[v] = np;
    let ghost ps1 = positions@;
    let ghost ch1 = changed@;
    assert(ch1 =~= only_marked(ps0.len(), v as int));
    assert(ps1 =~= ps0.update(v as int, shifted(ps0[v as int], *shift)));
    assert(shift_repair(h, t, ps0, v as int, *shift) == deepening(h, t, ps1, ch1, 0, 9));
    assert(repair_input(h, t, positions@, changed@)) by {
        assert forall|k: int|
            0 <= k < t.edges@.len() && !changed@[t.edges@[k].fr as int] && !changed@[t.edges@[k].to as int] implies #[trigger] edge_ok_at(
            h,
            t,
            positions@,
            k,
        ) by {
            assert(edge_ok_at(h, t, ps0, k));
        }
    }
    for max_depth in 0..9
        invariant
            repair_input(h, t, positions@, changed@),
            positions@ == ps1,
            changed@ == ch1,
            v < n,
            n == t.fig@.len(),
            ps0.len() == n,
            ch1 == Seq::new(n as nat, |j: int| j == v),
            ps1 == ps0.update(v as int, np),
            np == shifted(ps0[v as int], *shift),
            np@ == moved(ps0[v as int]@, shift.dx as int, shift.dy as int),
            max_depth > 0 ==> !all_edges_ok(h, t, ps1),
            shift_repair(h, t, ps0, v as int, *shift) == deepening(h, t, ps1, ch1, max_depth as nat, 9),
    {
        if rec_shift(t, h, positions, changed.as_mut_slice(), 0, max_depth) {
            assert(all_edges_ok(h, t, ps1) ==> positions@ == ps1);
            assert forall|i: int| 0 <= i < t.fig@.len() && i != v implies #[trigger] positions@[i] == ps0[i] || one_step(
                ps0[i],
                positions@[i],
            ) by {
                assert(!ch1[i]);
                assert(ps1[i] == ps0[i]);
            }
            assert(ch1[v as int]);
            return true;
        }
    }
    positions[v] = old_p;
    assert(positions@ =~= ps0);
    false
}

/// Moves vertex `id` by `shift` on the user's request: the new position must
/// be inside the hole with every edge at `id` inside it, and `try_shift` must
/// then make every edge valid again. Returns whether the move was made;
/// nothing changes when it was not.
pub fn move_selected(t: &Task, h: &Helper, positions: &mut [Point], id: usize, shift: &Shift) -> (r: bool)
    requires
        h.wf(),
        t.wf(),
        old(positions)@.len() == t.fig@.len(),
        t.fig@.len() < usize::MAX / 2,
        id < t.fig@.len(),
        fits_i32(old(positions)@[id as int].x + shift.dx),
        fits_i32(old(positions)@[id as int].y + shift.dy),
        forall|i: int| 0 <= i < t.fig@.len() && i != id ==> not_extreme(#[trigger] old(positions)@[i]),
        forall|k: int|
            0 <= k < t.edges@.len() && t.edges@[k].fr != id && t.edges@[k].to != id ==> #[trigger] edge_ok_at(
                h,
                t,
                old(positions)@,
                k,
            ),
    ensures
        ({
            let np = (Point {
                x: (old(positions)@[id as int].x + shift.dx) as i32,
                y: (old(positions)@[id as int].y + shift.dy) as i32,
            });
            r ==> h.point_inside_spec(np@) && edges_at_inside(h, t, old(positions)@, id, np)
        }),
        r ==> all_edges_ok(h, t, final(positions)@),
        r ==> final(positions)@.len() == old(positions)@.len(),
        r ==> final(positions)@[id as int]@ == moved(old(positions)@[id as int]@, shift.dx as int, shift.dy as int),
        r ==> forall|i: int|
            0 <= i < t.fig@.len() && i != id ==> #[trigger] final(positions)@[i] == old(positions)@[i] || one_step(
                old(positions)@[i],
                final(positions)@[i],
            ),
        !r ==> final(positions)@ == old(positions)@,
        ({
            let np = shifted(old(positions)@[id as int], *shift);
            let after = old(positions)@.update(id as int, np);
            h.point_inside_spec(np@) && edges_at_inside(h, t, old(positions)@, id, np) && all_edges_ok(h, t, after)
                ==> r && final(positions)@ == after
        }),
        ({
            let np = shifted(old(positions)@[id as int], *shift);
            if h.point_inside_spec(np@) && edges_at_inside(h, t, old(positions)@, id, np) {
                match shift_repair(h, t, old(positions)@, id as int, *shift) {
                    Some(x) => r && final(positions)@ == x.0,
                    None => !r,
                }
            } else {
                !r
            }
        }),
{
    let np = positions[id].shift(shift);
    if !h.is_point_inside(&np) {
        return false;
    }
    let mut k: usize = 0;
    while k < t.edges.len()
        invariant
            h.wf(),
            t.wf(),
            positions@.len() == t.fig@.len(),
            positions@ == old(positions)@,
            np == shifted(old(positions)@[id as int], *shift),
            id < t.fig@.len(),
            k <= t.edges@.len(),
            forall|j: int|
                0 <= j < k && (#[trigger] t.edges@[j].fr == id || t.edges@[j].to == id) ==> h.edge_inside_spec(
                    np,
                    positions@[crate::helper::other_end(t.edges@[j], id)],
                ),
        decreases t.edges@.len() - k,
    {
        let edge = t.edges[k];
        if edge.fr == id || edge.to == id {
            let another = if edge.fr == id {
                edge.to
            } else {
                edge.fr
            };
            proof {
                law_edge_inside_symmetric(h, positions@[another as int], np);
                assert(another as int == crate::helper::other_end(edge, id));
                if edges_at_inside(h, t, positions@, id, np) {
                    assert(t.edges@[k as int].fr == id || t.edges@[k as int].to == id);
                    assert(h.edge_inside_spec(np, positions@[another as int]));
                }
            }
            if !h.is_edge_inside(&positions[another], &np) {
                return false;
            }
        }
        k += 1;
    }
    try_shift(t, h, positions, id, shift)
}

} // verus!
