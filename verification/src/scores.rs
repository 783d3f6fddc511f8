//! The integer measures by which placements of the figure are compared.
use vstd::prelude::*;
use crate::geometry::{Point, dist2, segments_cross, d2_wide, seg_intersect_without_ends};
use crate::helper::Helper;
use crate::task::{Task, Bonus, is_wanted_bonus, wanted};

verus! {

/// The integer measures of a placement of the figure.
#[derive(Debug, Clone, Copy, PartialEq, Eq, Structural)]
pub struct Scores {
    /// The sum, over the vertices of the hole, of the squared distance to the
    /// nearest vertex of the figure.
    pub dislikes: i64,
    /// The number of ordered pairs of edges that cross each other.
    pub crossed_edges: usize,
    /// The number of edges that are not valid.
    pub bad_edges: usize,
    /// The number of wanted bonuses that have a vertex on their position.
    pub got_bonuses: usize,
}

/// The outcome of comparing two placements, placements that come first
/// being better ones.
#[derive(Debug, Clone, Copy, PartialEq, Eq, Structural)]
pub enum Order {
    Less,
    Equal,
    Greater,
}

/// How `a` compares with `b` in the order of the integers.
pub open spec fn int_order(a: int, b: int) -> Order {
    if a < b {
        Order::Less
    } else if a > b {
        Order::Greater
    } else {
        Order::Equal
    }
}

/// The outcome with the two sides swapped.
pub open spec fn flipped(o: Order) -> Order {
    match o {
        Order::Less => Order::Greater,
        Order::Greater => Order::Less,
        Order::Equal => Order::Equal,
    }
}

/// `a` comes no later than `b`.
pub open spec fn not_after(o: Order) -> bool {
    o != Order::Greater
}

fn compare_counts(a: usize, b: usize) -> (r: Order)
    ensures
        r == int_order(a as int, b as int),
{
    if a < b {
        Order::Less
    } else if a > b {
        Order::Greater
    } else {
        Order::Equal
    }
}

fn compare_signed(a: i64, b: i64) -> (r: Order)
    ensures
        r == int_order(a as int, b as int),
{
    if a < b {
        Order::Less
    } else if a > b {
        Order::Greater
    } else {
        Order::Equal
    }
}

/// The squared distance from `q` to the nearest of `vs`, and `i64::MAX` if
/// there is none nearer.
pub open spec fn min_d2(vs: Seq<Point>, q: (int, int)) -> int
    decreases vs.len(),
{
    if vs.len() == 0 {
        i64::MAX as int
    } else {
        let m = min_d2(vs.drop_last(), q);
        let d = dist2(vs.last()@, q);
        if d < m {
            d
        } else {
            m
        }
    }
}

/// The sum of `min_d2(vs, h)` over the hole vertices `h` of `hole`.
pub open spec fn dislikes_spec(hole: Seq<Point>, vs: Seq<Point>) -> int
    decreases hole.len(),
{
    if hole.len() == 0 {
        0
    } else {
        dislikes_spec(hole.drop_last(), vs) + min_d2(vs, hole.last()@)
    }
}

/// The number of the first `m` edges that the `i`-th edge crosses.
pub open spec fn crossings_of_edge(t: &Task, vs: Seq<Point>, i: int, m: int) -> nat
    decreases m,
{
    if m <= 0 {
        0
    } else {
        let a = t.edges@[i];
        let b = t.edges@[m - 1];
        crossings_of_edge(t, vs, i, m - 1) + if segments_cross(
            vs[a.fr as int]@,
            vs[a.to as int]@,
            vs[b.fr as int]@,
            vs[b.to as int]@,
        ) {
            1nat
        } else {
            0nat
        }
    }
}

/// The number of ordered pairs of crossing edges whose first edge is among
/// the first `k`.
pub open spec fn crossed_pairs(t: &Task, vs: Seq<Point>, k: int) -> nat
    decreases k,
{
    if k <= 0 {
        0
    } else {
        crossed_pairs(t, vs, k - 1) + crossings_of_edge(t, vs, k - 1, t.edges@.len() as int)
    }
}

/// The number of the first `k` edges that are not valid where `vs` places them.
pub open spec fn bad_count(h: &Helper, t: &Task, vs: Seq<Point>, k: int) -> nat
    decreases k,
{
    if k <= 0 {
        0
    } else {
        let e = t.edges@[k - 1];
        bad_count(h, t, vs, k - 1) + if h.valid_edge_spec(t, e.fr as int, e.to as int, vs[e.fr as int], vs[e.to as int]) {
            0nat
        } else {
            1nat
        }
    }
}

/// A bonus is collected: it is wanted and some vertex stands on its position.
pub open spec fn bonus_collected(b: Bonus, vs: Seq<Point>) -> bool {
    is_wanted_bonus(b) && exists|i: int| 0 <= i < vs.len() && vs[i].x == b.position@[0] && vs[i].y == b.position@[1]
}

/// The number of the first `k` bonuses that are collected.
pub open spec fn collected_count(bonuses: Seq<Bonus>, vs: Seq<Point>, k: int) -> nat
    decreases k,
{
    if k <= 0 {
        0
    } else {
        collected_count(bonuses, vs, k - 1) + if bonus_collected(bonuses[k - 1], vs) {
            1nat
        } else {
            0nat
        }
    }
}

proof fn lemma_min_d2_bounds(vs: Seq<Point>, q: (int, int))
    ensures
        0 <= min_d2(vs, q) <= i64::MAX,
    decreases vs.len(),
{
    if vs.len() > 0 {
        lemma_min_d2_bounds(vs.drop_last(), q);
        crate::geometry::law_dist2_metric(vs.last()@, q);
    }
}

proof fn lemma_dislikes_monotone(hole: Seq<Point>, vs: Seq<Point>, i: int)
    requires
        0 <= i <= hole.len(),
    ensures
        0 <= dislikes_spec(hole.take(i), vs) <= dislikes_spec(hole, vs),
    decreases hole.len(),
{
    if i < hole.len() {
        lemma_min_d2_bounds(vs, hole.last()@);
        assert(hole.drop_last().take(i) =~= hole.take(i));
        lemma_dislikes_monotone(hole.drop_last(), vs, i);
    } else {
        assert(hole.take(i) =~= hole);
        if hole.len() > 0 {
            lemma_dislikes_monotone(hole.drop_last(), vs, 0);
            lemma_min_d2_bounds(vs, hole.last()@);
            assert(hole.drop_last().take(0) =~= hole.take(0));
        }
    }
}

proof fn lemma_crossings_of_edge_bound(t: &Task, vs: Seq<Point>, i: int, m: int)
    ensures
        crossings_of_edge(t, vs, i, m) <= if m < 0 {
            0
        } else {
            m
        },
    decreases m,
{
    if m > 0 {
        lemma_crossings_of_edge_bound(t, vs, i, m - 1);
    }
}

proof fn lemma_crossed_pairs_bound(t: &Task, vs: Seq<Point>, k: int)
    requires
        0 <= k,
    ensures
        crossed_pairs(t, vs, k) <= k * t.edges@.len(),
    decreases k,
{
    if k > 0 {
        lemma_crossed_pairs_bound(t, vs, k - 1);
        lemma_crossings_of_edge_bound(t, vs, k - 1, t.edges@.len() as int);
        assert((k - 1) * t.edges@.len() + t.edges@.len() == k * t.edges@.len()) by (nonlinear_arith);
    }
}

proof fn lemma_count_bounds(h: &Helper, t: &Task, vs: Seq<Point>, bonuses: Seq<Bonus>, k: int)
    requires
        0 <= k,
    ensures
        bad_count(h, t, vs, k) <= k,
        collected_count(bonuses, vs, k) <= k,
    decreases k,
{
    if k > 0 {
        lemma_count_bounds(h, t, vs, bonuses, k - 1);
    }
}

proof fn lemma_dislikes_upper(hole: Seq<Point>, vs: Seq<Point>)
    ensures
        dislikes_spec(hole, vs) <= hole.len() * (i64::MAX as int),
    decreases hole.len(),
{
    if hole.len() > 0 {
        lemma_dislikes_upper(hole.drop_last(), vs);
        lemma_min_d2_bounds(vs, hole.last()@);
        assert((hole.len() - 1) * (i64::MAX as int) + i64::MAX == hole.len() * (i64::MAX as int)) by (nonlinear_arith);
    }
}

/// The sum, over the vertices of `hole`, of the squared distance to the
/// nearest of `vertices` (each term at most `i64::MAX`), computed exactly.
pub fn dislikes_wide(hole: &Vec<Point>, vertices: &Vec<Point>) -> (r: i128)
    ensures
        r == dislikes_spec(hole@, vertices@),
        r >= 0,
{
    proof {
        lemma_dislikes_upper(hole@, vertices@);
        assert(hole@.len() * (i64::MAX as int) < i128::MAX) by (nonlinear_arith)
            requires
                hole@.len() <= usize::MAX,
        ;
    }
    let mut total: i128 = 0;
    for i in 0..hole.len()
        invariant
            dislikes_spec(hole@, vertices@) < i128::MAX,
            total == dislikes_spec(hole@.take(i as int), vertices@),
    {
        let q = hole[i];
        let mut min_dist: i128 = i64::MAX as i128;
        for j in 0..vertices.len()
            invariant
                min_dist == min_d2(vertices@.take(j as int), q@),
        {
            let d = d2_wide(&vertices[j], &q);
            if d < min_dist {
                min_dist = d;
            }
            assert(vertices@.take(j + 1).drop_last() =~= vertices@.take(j as int));
        }
        assert(vertices@.take(vertices@.len() as int) =~= vertices@);
        proof {
            lemma_dislikes_monotone(hole@, vertices@, i + 1);
            lemma_min_d2_bounds(vertices@, q@);
            assert(hole@.take(i + 1).drop_last() =~= hole@.take(i as int));
        }
        total = total + min_dist;
    }
    assert(hole@.take(hole@.len() as int) =~= hole@);
    proof {
        lemma_dislikes_monotone(hole@, vertices@, hole@.len() as int);
    }
    total
}

/// The sum, over the vertices of `hole`, of the squared distance to the
/// nearest of `vertices` (each term at most `i64::MAX`).
pub fn dislikes(hole: &Vec<Point>, vertices: &Vec<Point>) -> (r: i64)
    requires
        dislikes_spec(hole@, vertices@) <= i64::MAX,
    ensures
        r == dislikes_spec(hole@, vertices@),
{
    let total = dislikes_wide(hole, vertices);
    total as i64
}

/// Both endpoints of every edge of `t` are below `n`.
pub open spec fn ends_within(t: &Task, n: nat) -> bool {
    forall|k: int| 0 <= k < t.edges@.len() ==> #[trigger] t.edges@[k].fr < n && t.edges@[k].to < n
}

impl Scores {
    /// The measures of the placement `vertices` of the figure of `t`.
    pub fn create(vertices: &Vec<Point>, t: &Task, h: &Helper) -> (r: Scores)
        requires
            h.wf(),
            t.wf(),
            ends_within(t, vertices@.len()),
            t.edges@.len() * t.edges@.len() <= usize::MAX,
            dislikes_spec(t.hole@, vertices@) <= i64::MAX,
        ensures
            r.dislikes == dislikes_spec(t.hole@, vertices@),
            r.crossed_edges == crossed_pairs(t, vertices@, t.edges@.len() as int),
            r.bad_edges == bad_count(h, t, vertices@, t.edges@.len() as int),
            r.got_bonuses == collected_count(t.bonuses@, vertices@, t.bonuses@.len() as int),
    {
        let dislikes = dislikes(&t.hole, vertices);
        let ne = t.edges.len();
        let mut crossed_edges: usize = 0;
        for i in 0..ne
            invariant
                t.wf(),
                ne == t.edges@.len(),
                ends_within(t, vertices@.len()),
                ne * ne <= usize::MAX,
                crossed_edges == crossed_pairs(t, vertices@, i as int),
        {
            let edge1 = t.edges[i];
            let mut row: usize = 0;
            for j in 0..ne
                invariant
                    t.wf(),
                    ne == t.edges@.len(),
                    i < ne,
                    edge1 == t.edges@[i as int],
                    ends_within(t, vertices@.len()),
                    row == crossings_of_edge(t, vertices@, i as int, j as int),
                    row <= j,
            {
                let edge2 = t.edges[j];
                let p1 = vertices[edge1.fr];
                let p2 = vertices[edge1.to];
                let p3 = vertices[edge2.fr];
                let p4 = vertices[edge2.to];
                if seg_intersect_without_ends(&p1, &p2, &p3, &p4) {
                    row += 1;
                }
            }
            proof {
                lemma_crossed_pairs_bound(t, vertices@, i + 1);
                assert((i + 1) * ne <= ne * ne) by (nonlinear_arith)
                    requires
                        i < ne,
                ;
            }
            crossed_edges = crossed_edges + row;
        }
        let mut bad_edges: usize = 0;
        for k in 0..ne
            invariant
                t.wf(),
                h.wf(),
                ne == t.edges@.len(),
                ends_within(t, vertices@.len()),
                bad_edges == bad_count(h, t, vertices@, k as int),
        {
            proof {
                lemma_count_bounds(h, t, vertices@, t.bonuses@, k as int);
            }
            let edge = t.edges[k];
            if !h.is_valid_edge(t, edge.fr, edge.to, &vertices[edge.fr], &vertices[edge.to]) {
                bad_edges += 1;
            }
        }
        let mut got_bonuses: usize = 0;
        for b in 0..t.bonuses.len()
            invariant
                got_bonuses == collected_count(t.bonuses@, vertices@, b as int),
        {
            proof {
                lemma_count_bounds(h, t, vertices@, t.bonuses@, b as int);
            }
            let bonus = &t.bonuses[b];
            let want_it = wanted(bonus);
            let mut has_point = false;
            for j in 0..vertices.len()
                invariant
                    b < t.bonuses@.len(),
                    *bonus == t.bonuses@[b as int],
                    has_point == exists|i: int|
                        0 <= i < j && vertices@[i].x == bonus.position@[0] && vertices@[i].y == bonus.position@[1],
            {
                let p = vertices[j];
                if p.x == bonus.position[0] && p.y == bonus.position[1] {
                    has_point = true;
                }
            }
            if want_it && has_point {
                got_bonuses += 1;
            }
        }
        Scores { dislikes, crossed_edges, bad_edges, got_bonuses }
    }

    /// The measures of the placement `vertices`, or `None` when an edge has
    /// an endpoint that `vertices` does not place, or when the count of edge
    /// pairs or the dislikes do not fit the measures' types.
    pub fn try_create(vertices: &Vec<Point>, t: &Task, h: &Helper) -> (r: Option<Scores>)
        requires
            h.wf(),
            t.wf(),
        ensures
            r is Some <==> (ends_within(t, vertices@.len()) && t.edges@.len() * t.edges@.len() <= usize::MAX
                && dislikes_spec(t.hole@, vertices@) <= i64::MAX),
            r matches Some(s) ==> {
                &&& s.dislikes == dislikes_spec(t.hole@, vertices@)
                &&& s.crossed_edges == crossed_pairs(t, vertices@, t.edges@.len() as int)
                &&& s.bad_edges == bad_count(h, t, vertices@, t.edges@.len() as int)
                &&& s.got_bonuses == collected_count(t.bonuses@, vertices@, t.bonuses@.len() as int)
            },
    {
        let n = vertices.len();
        for k in 0..t.edges.len()
            invariant
                n == vertices@.len(),
                forall|j: int| 0 <= j < k ==> #[trigger] t.edges@[j].fr < n && t.edges@[j].to < n,
        {
            let e = t.edges[k];
            if e.fr >= n || e.to >= n {
                return None;
            }
        }
        let ne = t.edges.len();
        if ne.checked_mul(ne).is_none() {
            return None;
        }
        let total = dislikes_wide(&t.hole, vertices);
        if total > i64::MAX as i128 {
            return None;
        }
        Some(Scores::create(vertices, t, h))
    }
}

impl Scores {
    /// The order in which placements are ranked by their integer measures:
    /// more bonuses collected first, then fewer invalid edges, then fewer
    /// dislikes. `Equal` leaves the decision to the measures that are not
    /// integers.
    pub open spec fn rank(self, other: Scores) -> Order {
        if self.got_bonuses != other.got_bonuses {
            int_order(other.got_bonuses as int, self.got_bonuses as int)
        } else if self.bad_edges != other.bad_edges {
            int_order(self.bad_edges as int, other.bad_edges as int)
        } else {
            int_order(self.dislikes as int, other.dislikes as int)
        }
    }

    /// The order used when only the tolerance is being tuned: more bonuses
    /// first, then fewer dislikes.
    pub open spec fn rank_with_eps(self, other: Scores) -> Order {
        if self.got_bonuses != other.got_bonuses {
            int_order(other.got_bonuses as int, self.got_bonuses as int)
        } else {
            int_order(self.dislikes as int, other.dislikes as int)
        }
    }

    /// The order that also counts crossings: more bonuses first, then fewer
    /// invalid edges, then fewer crossing pairs of edges, then as `rank`.
    pub open spec fn rank_with_edges(self, other: Scores) -> Order {
        if self.got_bonuses != other.got_bonuses {
            int_order(other.got_bonuses as int, self.got_bonuses as int)
        } else if self.bad_edges != other.bad_edges {
            int_order(self.bad_edges as int, other.bad_edges as int)
        } else if self.crossed_edges != other.crossed_edges {
            int_order(self.crossed_edges as int, other.crossed_edges as int)
        } else {
            self.rank(other)
        }
    }

    /// Compares two placements by `rank`.
    pub fn compare(&self, other: &Scores) -> (r: Order)
        ensures
            r == self.rank(*other),
    {
        if self.got_bonuses != other.got_bonuses {
            return compare_counts(other.got_bonuses, self.got_bonuses);
        }
        if self.bad_edges != other.bad_edges {
            return compare_counts(self.bad_edges, other.bad_edges);
        }
        compare_signed(self.dislikes, other.dislikes)
    }

    /// Compares two placements by `rank_with_eps`.
    pub fn compare_with_eps(&self, other: &Scores) -> (r: Order)
        ensures
            r == self.rank_with_eps(*other),
    {
        if self.got_bonuses != other.got_bonuses {
            return compare_counts(other.got_bonuses, self.got_bonuses);
        }
        compare_signed(self.dislikes, other.dislikes)
    }

    /// Compares two placements by `rank_with_edges`.
    pub fn compare_with_edges(&self, other: &Scores) -> (r: Order)
        ensures
            r == self.rank_with_edges(*other),
    {
        if self.got_bonuses != other.got_bonuses {
            return compare_counts(other.got_bonuses, self.got_bonuses);
        }
        if self.bad_edges != other.bad_edges {
            return compare_counts(self.bad_edges, other.bad_edges);
        }
        if self.crossed_edges != other.crossed_edges {
            return compare_counts(self.crossed_edges, other.crossed_edges);
        }
        self.compare(other)
    }
}

/// Each of the three orders is antisymmetric: swapping the placements flips
/// the outcome, and two placements tie exactly when the measures that the
/// order looks at are equal.
pub proof fn law_rank_flip(a: Scores, b: Scores)
    ensures
        b.rank(a) == flipped(a.rank(b)),
        b.rank_with_eps(a) == flipped(a.rank_with_eps(b)),
        b.rank_with_edges(a) == flipped(a.rank_with_edges(b)),
        a.rank(b) == Order::Equal <==> (a.got_bonuses == b.got_bonuses && a.bad_edges == b.bad_edges
            && a.dislikes == b.dislikes),
        a.rank_with_eps(b) == Order::Equal <==> (a.got_bonuses == b.got_bonuses && a.dislikes
            == b.dislikes),
        a.rank_with_edges(b) == Order::Equal <==> (a.got_bonuses == b.got_bonuses && a.bad_edges
            == b.bad_edges && a.crossed_edges == b.crossed_edges && a.dislikes == b.dislikes),
{
}

/// Each of the three orders is transitive: a placement that comes no later
/// than a second, which comes no later than a third, comes no later than the
/// third, and strictly earlier if it came strictly earlier than the second.
pub proof fn law_rank_transitive(a: Scores, b: Scores, c: Scores)
    ensures
        not_after(a.rank(b)) && not_after(b.rank(c)) ==> not_after(a.rank(c)),
        a.rank(b) == Order::Less && not_after(b.rank(c)) ==> a.rank(c) == Order::Less,
        not_after(a.rank_with_eps(b)) && not_after(b.rank_with_eps(c)) ==> not_after(
            a.rank_with_eps(c),
        ),
        a.rank_with_eps(b) == Order::Less && not_after(b.rank_with_eps(c)) ==> a.rank_with_eps(c)
            == Order::Less,
        not_after(a.rank_with_edges(b)) && not_after(b.rank_with_edges(c)) ==> not_after(
            a.rank_with_edges(c),
        ),
        a.rank_with_edges(b) == Order::Less && not_after(b.rank_with_edges(c))
            ==> a.rank_with_edges(c) == Order::Less,
{
}

/// A hole vertex `q` is covered by `vs`: some vertex of `vs` stands on it.
pub open spec fn covered(vs: Seq<Point>, q: (int, int)) -> bool {
    exists|i: int| 0 <= i < vs.len() && (#[trigger] vs[i])@ == q
}

proof fn lemma_min_d2_zero(vs: Seq<Point>, q: (int, int))
    ensures
        min_d2(vs, q) == 0 <==> covered(vs, q),
    decreases vs.len(),
{
    if vs.len() > 0 {
        let dl = vs.drop_last();
        lemma_min_d2_zero(dl, q);
        lemma_min_d2_bounds(dl, q);
        crate::geometry::law_dist2_metric(vs.last()@, q);
        if covered(dl, q) {
            let i = choose|i: int| 0 <= i < dl.len() && (#[trigger] dl[i])@ == q;
            assert(vs[i] == dl[i]);
        }
        if covered(vs, q) {
            let i = choose|i: int| 0 <= i < vs.len() && (#[trigger] vs[i])@ == q;
            if i < vs.len() - 1 {
                assert(dl[i] == vs[i]);
            }
        }
        assert(vs[vs.len() - 1] == vs.last());
    }
}

/// A placement has no dislikes exactly when every vertex of the hole has a
/// vertex of the figure standing on it.
pub proof fn law_dislikes_zero(hole: Seq<Point>, vs: Seq<Point>)
    ensures
        dislikes_spec(hole, vs) == 0 <==> forall|j: int| 0 <= j < hole.len() ==> covered(vs, #[trigger] hole[j]@),
    decreases hole.len(),
{
    if hole.len() > 0 {
        let dl = hole.drop_last();
        law_dislikes_zero(dl, vs);
        lemma_dislikes_monotone(dl, vs, 0);
        assert(dl.take(0) =~= Seq::<Point>::empty());
        assert(dislikes_spec(Seq::<Point>::empty(), vs) == 0);
        lemma_min_d2_bounds(vs, hole.last()@);
        lemma_min_d2_zero(vs, hole.last()@);
        if forall|j: int| 0 <= j < hole.len() ==> covered(vs, #[trigger] hole[j]@) {
            assert forall|j: int| 0 <= j < dl.len() implies covered(vs, #[trigger] dl[j]@) by {
                assert(dl[j] == hole[j]);
            }
            assert(covered(vs, hole[hole.len() - 1]@));
        }
        if dislikes_spec(hole, vs) == 0 {
            assert forall|j: int| 0 <= j < hole.len() implies covered(vs, #[trigger] hole[j]@) by {
                if j < hole.len() - 1 {
                    assert(dl[j] == hole[j]);
                    assert(covered(vs, dl[j]@));
                } else {
                    assert(hole[j] == hole.last());
                }
            }
        }
    }
}

} // verus!
