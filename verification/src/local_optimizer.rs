//! The step of the local search that drags neighbours along: once a vertex
//! is moved, the endpoints of broken edges are moved by the same displacement
//! until every edge is valid again.
use vstd::prelude::*;
use crate::geometry::{Point, fits_i32};
use crate::helper::{Helper, other_end};
use crate::rand::{Random, is_permutation, xorshift};
use crate::rec_optimizer2::pending;
use crate::task::Task;

verus! {

/// Every vertex is placed.
pub open spec fn all_placed(s: Seq<Option<Point>>) -> bool {
    forall|i: int| 0 <= i < s.len() ==> #[trigger] s[i] is Some
}

/// Every placed vertex can be moved by `(sx, sy)`.
pub open spec fn can_move_all(s: Seq<Option<Point>>, sx: int, sy: int) -> bool {
    forall|i: int|
        0 <= i < s.len() ==> fits_i32((#[trigger] s[i])->0.x + sx) && fits_i32(s[i]->0.y + sy)
}

/// `after` places each vertex where `before` did or moved by `(sx, sy)`.
pub open spec fn each_kept_or_moved(before: Seq<Option<Point>>, after: Seq<Option<Point>>, sx: int, sy: int) -> bool {
    &&& after.len() == before.len()
    &&& forall|i: int|
        0 <= i < before.len() ==> #[trigger] after[i] == before[i] || after[i] == Some(
            Point { x: (before[i]->0.x + sx) as i32, y: (before[i]->0.y + sy) as i32 },
        )
}

/// Marking an unmarked vertex adds one to the marked ones.
pub proof fn lemma_pending_update_true(s: Seq<bool>, i: int)
    requires
        0 <= i < s.len(),
        !s[i],
    ensures
        pending(s.update(i, true)) == pending(s) + 1,
    decreases s.len(),
{
    let u = s.update(i, true);
    if i == s.len() - 1 {
        assert(u.drop_last() =~= s.drop_last());
    } else {
        assert(u.drop_last() =~= s.drop_last().update(i, true));
        lemma_pending_update_true(s.drop_last(), i);
    }
}

/// No more vertices are marked than there are.
pub proof fn lemma_pending_bound(s: Seq<bool>)
    ensures
        pending(s) <= s.len(),
    decreases s.len(),
{
    if s.len() > 0 {
        lemma_pending_bound(s.drop_last());
    }
}

/// `p` moved by `(sx, sy)`.
pub open spec fn moved_by(p: Option<Point>, sx: int, sy: int) -> Option<Point> {
    Some(Point { x: (p->0.x + sx) as i32, y: (p->0.y + sy) as i32 })
}

/// What `propagate_shift` does from the placement `cur`, with the vertices
/// marked in `changed` already moved: whether every edge ends up valid, and
/// the placement it leaves.
pub open spec fn propagate_from(
    h: &Helper,
    t: &Task,
    cur: Seq<Option<Point>>,
    changed: Seq<bool>,
    sx: int,
    sy: int,
    big_moves: bool,
) -> (bool, Seq<Option<Point>>)
    decreases changed.len() - pending(changed),
{
    match h.first_bad(t, cur, 0) {
        None => (true, cur),
        Some(k) => {
            let e = t.edges@[k];
            if big_moves {
                (false, cur)
            } else if e.fr < changed.len() && !changed[e.fr as int] {
                proof {
                    lemma_pending_update_true(changed, e.fr as int);
                    lemma_pending_bound(changed.update(e.fr as int, true));
                }
                propagate_from(
                    h,
                    t,
                    cur.update(e.fr as int, moved_by(cur[e.fr as int], sx, sy)),
                    changed.update(e.fr as int, true),
                    sx,
                    sy,
                    big_moves,
                )
            } else if e.to < changed.len() && !changed[e.to as int] {
                proof {
                    lemma_pending_update_true(changed, e.to as int);
                    lemma_pending_bound(changed.update(e.to as int, true));
                }
                propagate_from(
                    h,
                    t,
                    cur.update(e.to as int, moved_by(cur[e.to as int], sx, sy)),
                    changed.update(e.to as int, true),
                    sx,
                    sy,
                    big_moves,
                )
            } else {
                (false, cur)
            }
        },
    }
}

proof fn lemma_first_bad_none(h: &Helper, t: &Task, cur: Seq<Option<Point>>, j: int)
    requires
        0 <= j,
        h.first_bad(t, cur, j) is None,
    ensures
        forall|k: int| j <= k < t.edges@.len() ==> #[trigger] h.placed_edge_ok(t, cur, k),
    decreases t.edges@.len() - j,
{
    if j < t.edges@.len() {
        lemma_first_bad_none(h, t, cur, j + 1);
    }
}

proof fn lemma_first_bad_some(h: &Helper, t: &Task, cur: Seq<Option<Point>>, j: int, k: int)
    requires
        0 <= j,
        h.first_bad(t, cur, j) == Some(k),
    ensures
        j <= k < t.edges@.len(),
        !h.placed_edge_ok(t, cur, k),
    decreases t.edges@.len() - j,
{
    if j < t.edges@.len() && h.placed_edge_ok(t, cur, j) {
        lemma_first_bad_some(h, t, cur, j + 1, k);
    }
}

/// Vertex `i` has been moved: it is `id`, or `fin` places it elsewhere than
/// `cur` does.
pub open spec fn moved_vertex(cur: Seq<Option<Point>>, fin: Seq<Option<Point>>, id: int, i: int) -> bool {
    i == id || fin[i] != cur[i]
}

/// The outcome `o` of dragging neighbours along from `cur`, with `id` moved
/// first, is sound: success leaves every edge valid, and failure leaves some
/// edge broken with both of its endpoints moved.
pub open spec fn gives_up_only_when_stuck(
    h: &Helper,
    t: &Task,
    cur: Seq<Option<Point>>,
    id: int,
    o: (bool, Seq<Option<Point>>),
) -> bool {
    &&& o.0 ==> forall|k: int| 0 <= k < t.edges@.len() ==> #[trigger] h.placed_edge_ok(t, o.1, k)
    &&& !o.0 ==> exists|k: int|
        0 <= k < t.edges@.len() && !#[trigger] h.placed_edge_ok(t, o.1, k) && moved_vertex(
            cur,
            o.1,
            id,
            t.edges@[k].fr as int,
        ) && moved_vertex(cur, o.1, id, t.edges@[k].to as int)
}

proof fn lemma_propagate_stuck(
    h: &Helper,
    t: &Task,
    cur0: Seq<Option<Point>>,
    c: Seq<Option<Point>>,
    ch: Seq<bool>,
    id: int,
    sx: int,
    sy: int,
)
    requires
        t.wf(),
        cur0.len() == t.fig@.len(),
        c.len() == cur0.len(),
        ch.len() == cur0.len(),
        all_placed(cur0),
        can_move_all(cur0, sx, sy),
        sx != 0 || sy != 0,
        forall|i: int| 0 <= i < ch.len() && !#[trigger] ch[i] ==> c[i] == cur0[i],
        forall|i: int| 0 <= i < ch.len() && #[trigger] ch[i] ==> i == id || c[i] == moved_by(cur0[i], sx, sy),
    ensures
        gives_up_only_when_stuck(h, t, cur0, id, propagate_from(h, t, c, ch, sx, sy, false)),
    decreases ch.len() - pending(ch),
{
    assert forall|i: int| 0 <= i < cur0.len() implies #[trigger] moved_by(cur0[i], sx, sy) != cur0[i] by {
        assert(fits_i32(cur0[i]->0.x + sx) && fits_i32(cur0[i]->0.y + sy));
    }
    match h.first_bad(t, c, 0) {
        None => {
            lemma_first_bad_none(h, t, c, 0);
            assert(propagate_from(h, t, c, ch, sx, sy, false) == (true, c));
        },
        Some(k) => {
            lemma_first_bad_some(h, t, c, 0, k);
            let e = t.edges@[k];
            assert(e.fr < ch.len() && e.to < ch.len());
            if !ch[e.fr as int] {
                let fr = e.fr as int;
                lemma_pending_update_true(ch, fr);
                lemma_pending_bound(ch.update(fr, true));
                let c1 = c.update(fr, moved_by(c[fr], sx, sy));
                let ch1 = ch.update(fr, true);
                assert(propagate_from(h, t, c, ch, sx, sy, false) == propagate_from(h, t, c1, ch1, sx, sy, false));
                assert forall|i: int| 0 <= i < ch1.len() && #[trigger] ch1[i] implies i == id || c1[i] == moved_by(
                    cur0[i],
                    sx,
                    sy,
                ) by {
                    if i != fr {
                        assert(ch[i]);
                    }
                }
                lemma_propagate_stuck(h, t, cur0, c1, ch1, id, sx, sy);
            } else if !ch[e.to as int] {
                let to = e.to as int;
                lemma_pending_update_true(ch, to);
                lemma_pending_bound(ch.update(to, true));
                let c1 = c.update(to, moved_by(c[to], sx, sy));
                let ch1 = ch.update(to, true);
                assert(propagate_from(h, t, c, ch, sx, sy, false) == propagate_from(h, t, c1, ch1, sx, sy, false));
                assert forall|i: int| 0 <= i < ch1.len() && #[trigger] ch1[i] implies i == id || c1[i] == moved_by(
                    cur0[i],
                    sx,
                    sy,
                ) by {
                    if i != to {
                        assert(ch[i]);
                    }
                }
                lemma_propagate_stuck(h, t, cur0, c1, ch1, id, sx, sy);
            } else {
                assert(propagate_from(h, t, c, ch, sx, sy, false) == (false, c));
                let fin = propagate_from(h, t, c, ch, sx, sy, false).1;
                assert(fin == c);
                assert(!h.placed_edge_ok(t, fin, k));
                assert(moved_vertex(cur0, fin, id, t.edges@[k].fr as int));
                assert(moved_vertex(cur0, fin, id, t.edges@[k].to as int));
            }
        },
    }
}

/// Dragging neighbours along (without big moves) gives up only where it is
/// stuck: when it reports success every edge is valid, and when it reports
/// failure some edge is left broken with both of its endpoints moved, the
/// vertex `id` counting as moved. So an edge broken at an endpoint that has
/// not moved yet never ends the walk, whichever end of the edge that is.
pub proof fn law_propagate_fails_only_when_both_ends_moved(
    h: &Helper,
    t: &Task,
    cur: Seq<Option<Point>>,
    id: usize,
    sx: int,
    sy: int,
)
    requires
        t.wf(),
        cur.len() == t.fig@.len(),
        id < cur.len(),
        all_placed(cur),
        can_move_all(cur, sx, sy),
        sx != 0 || sy != 0,
    ensures
        gives_up_only_when_stuck(
            h,
            t,
            cur,
            id as int,
            propagate_from(h, t, cur, Seq::new(cur.len(), |i: int| i == id as int), sx, sy, false),
        ),
{
    lemma_propagate_stuck(h, t, cur, cur, Seq::new(cur.len(), |i: int| i == id as int), id as int, sx, sy);
}

/// Vertex `id` has just been moved by `(shift_x, shift_y)`. While some edge is
/// not valid, an endpoint of the first such edge that has not been moved yet
/// is moved by the same displacement; the walk stops when no edge is broken,
/// or when both endpoints of a broken edge have been moved, or, with
/// `big_moves`, at the first broken edge. Returns whether every edge ended up
/// valid.
#[verifier::loop_isolation(false)]
pub fn propagate_shift(
    t: &Task,
    helper: &Helper,
    cur_positions: &mut Vec<Option<Point>>,
    id: usize,
    shift_x: i32,
    shift_y: i32,
    big_moves: bool,
) -> (r: bool)
    requires
        helper.wf(),
        t.wf(),
        old(cur_positions)@.len() == t.fig@.len(),
        id < t.fig@.len(),
        all_placed(old(cur_positions)@),
        can_move_all(old(cur_positions)@, shift_x as int, shift_y as int),
    ensures
        all_placed(final(cur_positions)@),
        each_kept_or_moved(old(cur_positions)@, final(cur_positions)@, shift_x as int, shift_y as int),
        final(cur_positions)@[id as int] == old(cur_positions)@[id as int],
        r ==> forall|k: int| 0 <= k < t.edges@.len() ==> #[trigger] helper.placed_edge_ok(t, final(cur_positions)@, k),
        (forall|k: int| 0 <= k < t.edges@.len() ==> #[trigger] helper.placed_edge_ok(t, old(cur_positions)@, k)) ==> r
            && final(cur_positions)@ == old(cur_positions)@,
        big_moves && !(forall|k: int| 0 <= k < t.edges@.len() ==> #[trigger] helper.placed_edge_ok(t, old(cur_positions)@, k))
            ==> !r && final(cur_positions)@ == old(cur_positions)@,
        (r, final(cur_positions)@) == propagate_from(
            helper,
            t,
            old(cur_positions)@,
            Seq::new(t.fig@.len(), |i: int| i == id as int),
            shift_x as int,
            shift_y as int,
            big_moves,
        ),
        !big_moves && (shift_x != 0 || shift_y != 0) ==> gives_up_only_when_stuck(
            helper,
            t,
            old(cur_positions)@,
            id as int,
            (r, final(cur_positions)@),
        ),
{
    let n = cur_positions.len();
    let ghost start = cur_positions@;
    proof {
        if !big_moves && (shift_x != 0 || shift_y != 0) {
            law_propagate_fails_only_when_both_ends_moved(helper, t, start, id, shift_x as int, shift_y as int);
        }
    }
    let mut changed: Vec<bool> = Vec::new();
    for i in 0..n
        invariant
            changed@.len() == i,
            forall|j: int| 0 <= j < i ==> !changed@[j],
            pending(changed@) == 0,
    {
        let ghost prev = changed@;
        changed.push(false);
        assert(changed@.drop_last() =~= prev);
    }
    let ghost c0 = changed@;
    changed.set(id, true);
    proof {
        lemma_pending_update_true(c0, id as int);
    }
    assert(changed@ =~= Seq::new(t.fig@.len(), |i: int| i == id as int));
    let ghost whole = propagate_from(
        helper,
        t,
        start,
        changed@,
        shift_x as int,
        shift_y as int,
        big_moves,
    );
    let mut moved_points: usize = 0;
    loop
        invariant
            helper.wf(),
            t.wf(),
            n == t.fig@.len(),
            id < n,
            start.len() == n,
            all_placed(start),
            can_move_all(start, shift_x as int, shift_y as int),
            cur_positions@.len() == n,
            changed@.len() == n,
            changed@[id as int],
            all_placed(cur_positions@),
            each_kept_or_moved(start, cur_positions@, shift_x as int, shift_y as int),
            cur_positions@[id as int] == start[id as int],
            forall|i: int| 0 <= i < n && !#[trigger] changed@[i] ==> cur_positions@[i] == start[i],
            pending(changed@) == moved_points + 1,
            moved_points == 0 ==> cur_positions@ == start,
            moved_points > 0 ==> !big_moves && !(forall|k: int|
                0 <= k < t.edges@.len() ==> #[trigger] helper.placed_edge_ok(t, start, k)),
            whole == propagate_from(helper, t, cur_positions@, changed@, shift_x as int, shift_y as int, big_moves),
        decreases n - moved_points,
    {
        proof {
            lemma_pending_bound(changed@);
        }
        let bad_edge = helper.get_bad_edge(cur_positions.as_slice(), t);
        if big_moves && bad_edge.is_some() {
            return false;
        }
        moved_points += 1;
        assert(moved_points <= n + 2);
        match bad_edge {
            None => {
                return true;
            },
            Some(edge) => {
                assert(edge.fr < n && edge.to < n);
                if !changed[edge.fr] {
                    let fr_p = cur_positions[edge.fr].unwrap();
                    let ghost c1 = changed@;
                    cur_positions.set(edge.fr, Some(Point { x: fr_p.x + shift_x, y: fr_p.y + shift_y }));
                    changed.set(edge.fr, true);
                    proof {
                        lemma_pending_update_true(c1, edge.fr as int);
                    }
                } else if !changed[edge.to] {
                    let to_p = cur_positions[edge.to].unwrap();
                    let ghost c1 = changed@;
                    cur_positions.set(edge.to, Some(Point { x: to_p.x + shift_x, y: to_p.y + shift_y }));
                    changed.set(edge.to, true);
                    proof {
                        lemma_pending_update_true(c1, edge.to as int);
                    }
                } else {
                    return false;
                }
            },
        }
    }
}

proof fn lemma_pending_full(s: Seq<bool>)
    requires
        pending(s) == s.len(),
    ensures
        forall|i: int| 0 <= i < s.len() ==> s[i],
    decreases s.len(),
{
    if s.len() > 0 {
        lemma_pending_bound(s.drop_last());
        lemma_pending_full(s.drop_last());
        assert forall|i: int| 0 <= i < s.len() implies s[i] by {
            if i < s.len() - 1 {
                assert(s.drop_last()[i] == s[i]);
            }
        }
    }
}

/// Drawing one number of `0..n` that `perm` does not hold yet, from state
/// `st`, with at most `budget` draws: the number found (`None` when the
/// budget ran out) and the state reached.
pub open spec fn draw_fresh(st: usize, n: usize, perm: Seq<usize>, budget: nat) -> (Option<usize>, usize)
    decreases budget,
{
    if budget == 0 {
        (None, st)
    } else {
        let st1 = xorshift(st);
        let x = st1 % n;
        if !perm.contains(x) {
            (Some(x), st1)
        } else {
            draw_fresh(st1, n, perm, (budget - 1) as nat)
        }
    }
}

/// The order that `random_order` draws from state `st` when `perm` has been
/// drawn and `left` places remain, with the state reached.
pub open spec fn order_from(st: usize, n: usize, perm: Seq<usize>, left: nat) -> (Option<Seq<usize>>, usize)
    decreases left,
{
    if left == 0 {
        (Some(perm), st)
    } else {
        let d = draw_fresh(st, n, perm, u64::MAX as nat);
        match d.0 {
            None => (None, d.1),
            Some(x) => order_from(d.1, n, perm.push(x), (left - 1) as nat),
        }
    }
}

/// A random order of `0..n`, drawn number after number: a number drawn
/// before is drawn again. Gives up (`None`) only after `u64::MAX` draws for
/// one place.
pub fn random_order(rnd: &mut Random, n: usize) -> (r: Option<Vec<usize>>)
    ensures
        r matches Some(perm) ==> is_permutation(perm@, n as nat),
        ({
            let o = order_from(old(rnd).state(), n, seq![], n as nat);
            &&& final(rnd).state() == o.1
            &&& match r {
                Some(perm) => o.0 == Some(perm@),
                None => o.0 is None,
            }
        }),
{
    let ghost st0 = rnd.state();
    let mut seen: Vec<bool> = Vec::new();
    for i in 0..n
        invariant
            seen@.len() == i,
            forall|j: int| 0 <= j < i ==> !seen@[j],
            pending(seen@) == 0,
            rnd.state() == st0,
            st0 == old(rnd).state(),
    {
        let ghost prev = seen@;
        seen.push(false);
        assert(seen@.drop_last() =~= prev);
    }
    let mut perm: Vec<usize> = Vec::new();
    assert(perm@ =~= seq![]);
    for i in 0..n
        invariant
            seen@.len() == n,
            perm@.len() == i,
            pending(seen@) == i,
            forall|j: int| 0 <= j < perm@.len() ==> #[trigger] perm@[j] < n,
            forall|a: int, b: int| 0 <= a < b < perm@.len() ==> perm@[a] != perm@[b],
            forall|v: int| 0 <= v < n ==> (#[trigger] seen@[v] <==> perm@.contains(v as usize)),
            order_from(st0, n, seq![], n as nat) == order_from(rnd.state(), n, perm@, (n - i) as nat),
            st0 == old(rnd).state(),
    {
        let ghost st_i = rnd.state();
        let ghost perm_i = perm@;
        let mut placed = false;
        let mut budget: u64 = u64::MAX;
        while !placed && budget > 0
            invariant
                seen@.len() == n,
                i < n,
                perm@.len() == if placed {
                    i + 1
                } else {
                    i as int
                },
                pending(seen@) == perm@.len(),
                forall|j: int| 0 <= j < perm@.len() ==> #[trigger] perm@[j] < n,
                forall|a: int, b: int| 0 <= a < b < perm@.len() ==> perm@[a] != perm@[b],
                forall|v: int| 0 <= v < n ==> (#[trigger] seen@[v] <==> perm@.contains(v as usize)),
                !placed ==> perm@ == perm_i,
                !placed ==> draw_fresh(st_i, n, perm_i, u64::MAX as nat) == draw_fresh(
                    rnd.state(),
                    n,
                    perm_i,
                    budget as nat,
                ),
                placed ==> draw_fresh(st_i, n, perm_i, u64::MAX as nat) == (
                    Some(perm@[i as int]),
                    rnd.state(),
                ) && perm@ == perm_i.push(perm@[i as int]),
            decreases budget,
        {
            let ghost st_b = rnd.state();
            let ghost budget_b = budget;
            budget -= 1;
            let x = rnd.next_in_range(0, n);
            assert(draw_fresh(st_b, n, perm_i, budget_b as nat) == if !perm_i.contains(x) {
                (Some(x), rnd.state())
            } else {
                draw_fresh(rnd.state(), n, perm_i, budget as nat)
            });
            if !seen[x] {
                let ghost s0 = seen@;
                let ghost p0 = perm@;
                assert(!perm_i.contains(x));
                seen.set(x, true);
                perm.push(x);
                proof {
                    lemma_pending_update_true(s0, x as int);
                    assert forall|a: int, b: int| 0 <= a < b < perm@.len() implies perm@[a] != perm@[b] by {
                        if b == p0.len() {
                            assert(p0.contains(perm@[a]));
                            assert(!s0[x as int]);
                        }
                    }
                    assert forall|v: int| 0 <= v < n implies (#[trigger] seen@[v] <==> perm@.contains(v as usize)) by {
                        if v == x {
                            assert(perm@[p0.len() as int] == x);
                        } else {
                            if perm@.contains(v as usize) {
                                let w = choose|w: int| 0 <= w < perm@.len() && #[trigger] perm@[w] == v as usize;
                                assert(w < p0.len());
                                assert(p0[w] == v as usize);
                            }
                            if p0.contains(v as usize) {
                                let w = choose|w: int| 0 <= w < p0.len() && #[trigger] p0[w] == v as usize;
                                assert(perm@[w] == v as usize);
                            }
                        }
                    }
                    assert(perm@ =~= perm_i.push(x));
                }
                placed = true;
            } else {
                assert(perm_i.contains(x));
            }
        }
        if !placed {
            assert(budget == 0);
            assert(order_from(st_i, n, perm_i, (n - i) as nat) == (None::<Seq<usize>>, rnd.state()));
            return None;
        }
        assert(order_from(st_i, n, perm_i, (n - i) as nat) == order_from(
            rnd.state(),
            n,
            perm@,
            (n - (i + 1)) as nat,
        ));
    }
    proof {
        lemma_pending_full(seen@);
        assert forall|v: usize| v < n implies #[trigger] perm@.contains(v) by {
            assert(seen@[v as int]);
        }
    }
    Some(perm)
}

/// The edge `e` has `v` as an endpoint.
pub open spec fn at_vertex(e: crate::geometry::Edge, v: usize) -> bool {
    e.fr == v || e.to == v
}

/// For a big move of vertex `id`: the edge at `id` with the fewest listed
/// displacements, the first among equals, and where its other endpoint is.
/// `None` when no edge is at `id`.
pub fn big_move_base(t: &Task, helper: &Helper, cur_positions: &Vec<Option<Point>>, id: usize) -> (r: Option<(usize, Point)>)
    requires
        t.wf(),
        helper.for_task(t),
        cur_positions@.len() == t.fig@.len(),
        all_placed(cur_positions@),
    ensures
        r is None <==> forall|k: int|
            0 <= k < t.edges@.len() ==> !(#[trigger] at_vertex(t.edges@[k], id) && helper.shifts_per_edge@[k]@.len()
                < usize::MAX),
        r matches Some((k, base)) ==> {
            &&& k < t.edges@.len()
            &&& at_vertex(t.edges@[k as int], id)
            &&& base == cur_positions@[other_end(t.edges@[k as int], id)]->0
            &&& forall|j: int|
                0 <= j < t.edges@.len() && #[trigger] at_vertex(t.edges@[j], id) ==> helper.shifts_per_edge@[k as int]@.len()
                    <= helper.shifts_per_edge@[j]@.len()
            &&& forall|j: int|
                0 <= j < k && #[trigger] at_vertex(t.edges@[j], id) ==> helper.shifts_per_edge@[k as int]@.len()
                    < helper.shifts_per_edge@[j]@.len()
        },
{
    let mut best: Option<(usize, Point)> = None;
    let mut cur_shifts_size: usize = usize::MAX;
    for k in 0..t.edges.len()
        invariant
            t.wf(),
            helper.for_task(t),
            cur_positions@.len() == t.fig@.len(),
            all_placed(cur_positions@),
            best is None <==> forall|j: int|
                0 <= j < k ==> !(#[trigger] at_vertex(t.edges@[j], id) && helper.shifts_per_edge@[j]@.len()
                    < usize::MAX),
            best is None ==> cur_shifts_size == usize::MAX,
            best matches Some((b, base)) ==> {
                &&& b < k
                &&& cur_shifts_size < usize::MAX
                &&& at_vertex(t.edges@[b as int], id)
                &&& cur_shifts_size == helper.shifts_per_edge@[b as int]@.len()
                &&& base == cur_positions@[other_end(t.edges@[b as int], id)]->0
                &&& forall|j: int|
                    0 <= j < k && #[trigger] at_vertex(t.edges@[j], id) ==> cur_shifts_size
                        <= helper.shifts_per_edge@[j]@.len()
                &&& forall|j: int|
                    0 <= j < b && #[trigger] at_vertex(t.edges@[j], id) ==> cur_shifts_size
                        < helper.shifts_per_edge@[j]@.len()
            },
    {
        let edge = t.edges[k];
        let len = helper.shifts_per_edge[k].len();
        if (edge.fr == id || edge.to == id) && len < cur_shifts_size {
            let another = if edge.fr == id {
                edge.to
            } else {
                edge.fr
            };
            assert(cur_positions@[another as int] is Some);
            let base = cur_positions[another].unwrap();
            best = Some((k, base));
            cur_shifts_size = len;
        }
        proof {
            if let Some((b, _)) = best {
                assert(at_vertex(t.edges@[b as int], id) && helper.shifts_per_edge@[b as int]@.len() < usize::MAX);
            }
        }
    }
    best
}

} // verus!
