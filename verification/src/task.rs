//! The problem as it is read (`Input`), the answer as it is written
//! (`OutputFormat`), and the problem in the form the solver works on (`Task`).
use vstd::prelude::*;
use crate::geometry::{Point, Edge};

verus! {

/// A point as the input and output files write it: `[x, y]`.
pub type PointInput = [i32; 2];

/// The figure to be placed: its vertices and its edges, each edge given as
/// the pair of indices of its endpoints.
#[derive(Debug, Clone)]
pub struct Figure {
    pub edges: Vec<Vec<usize>>,
    pub vertices: Vec<PointInput>,
}

/// A bonus that a placement may collect by putting a vertex on `position`.
#[derive(Debug)]
pub struct Bonus {
    pub bonus: String,
    pub problem: usize,
    pub position: PointInput,
}

impl Clone for Bonus {
    fn clone(&self) -> (r: Self)
        ensures
            r == *self,
    {
        Bonus { bonus: self.bonus.clone(), problem: self.problem, position: self.position }
    }
}

/// A problem: the hole, the figure, the tolerance on edge lengths (in
/// millionths) and the bonuses on offer.
#[derive(Debug, Clone)]
pub struct Input {
    pub hole: Vec<PointInput>,
    pub figure: Figure,
    pub epsilon: i64,
    pub bonuses: Vec<Bonus>,
}

/// A bonus that an answer claims.
#[derive(Debug, Clone)]
pub struct UsedBonus {
    pub bonus: String,
    pub problem: usize,
}

/// An answer: the position of every vertex of the figure, and the bonuses used.
#[derive(Debug, Clone)]
pub struct OutputFormat {
    pub vertices: Vec<PointInput>,
    pub bonuses: Vec<UsedBonus>,
}

/// A problem in the form the solver works on.
#[derive(Debug)]
pub struct Task {
    pub hole: Vec<Point>,
    pub fig: Vec<Point>,
    pub edges: Vec<Edge>,
    pub epsilon: i64,
    pub bonuses: Vec<Bonus>,
}

/// The point that `[x, y]` stands for.
pub open spec fn input_point(p: PointInput) -> Point {
    Point { x: p@[0], y: p@[1] }
}

/// The edge that a pair of vertex indices stands for.
pub open spec fn input_edge(e: Seq<usize>) -> Edge {
    Edge { fr: e[0], to: e[1] }
}

/// The bonuses that the solver goes after: the GLOBALIST bonus for problems
/// 81, 7 and 60.
pub open spec fn is_wanted_bonus(b: Bonus) -> bool {
    &&& b.bonus@ == "GLOBALIST"@
    &&& (b.problem == 81 || b.problem == 7 || b.problem == 60)
}

impl Task {
    /// Every edge joins two vertices of the figure.
    pub open spec fn wf(&self) -> bool {
        forall|i: int|
            0 <= i < self.edges@.len() ==> #[trigger] self.edges@[i].fr < self.fig@.len()
                && self.edges@[i].to < self.fig@.len()
    }
}

fn conv_points(pts: &[PointInput]) -> (r: Vec<Point>)
    ensures
        r@.len() == pts@.len(),
        forall|i: int| 0 <= i < pts@.len() ==> r@[i] == input_point(#[trigger] pts@[i]),
{
    let mut r: Vec<Point> = Vec::new();
    for i in 0..pts.len()
        invariant
            r@.len() == i,
            forall|j: int| 0 <= j < i ==> r@[j] == input_point(#[trigger] pts@[j]),
    {
        let p = pts[i];
        r.push(Point { x: p[0], y: p[1] });
    }
    r
}

/// The problem in the form the solver works on. Of the bonuses on offer it
/// keeps those that the solver goes after, in their order.
pub fn conv_input(t: &Input) -> (r: Task)
    requires
        forall|i: int| 0 <= i < t.figure.edges@.len() ==> (#[trigger] t.figure.edges@[i])@.len() >= 2,
    ensures
        r.hole@.len() == t.hole@.len(),
        forall|i: int| 0 <= i < t.hole@.len() ==> r.hole@[i] == input_point(#[trigger] t.hole@[i]),
        r.fig@.len() == t.figure.vertices@.len(),
        forall|i: int|
            0 <= i < t.figure.vertices@.len() ==> r.fig@[i] == input_point(
                #[trigger] t.figure.vertices@[i],
            ),
        r.edges@.len() == t.figure.edges@.len(),
        forall|i: int|
            0 <= i < t.figure.edges@.len() ==> r.edges@[i] == input_edge(
                (#[trigger] t.figure.edges@[i])@,
            ),
        r.epsilon == t.epsilon,
        r.bonuses@ == t.bonuses@.filter(|b: Bonus| is_wanted_bonus(b)),
{
    let hole = conv_points(t.hole.as_slice());
    let fig = conv_points(t.figure.vertices.as_slice());
    let mut edges: Vec<Edge> = Vec::new();
    for i in 0..t.figure.edges.len()
        invariant
            edges@.len() == i,
            forall|j: int| 0 <= j < t.figure.edges@.len() ==> (#[trigger] t.figure.edges@[j])@.len() >= 2,
            forall|j: int| 0 <= j < i ==> edges@[j] == input_edge((#[trigger] t.figure.edges@[j])@),
    {
        let e = &t.figure.edges[i];
        edges.push(Edge { fr: e[0], to: e[1] });
    }
    let ghost pred = |b: Bonus| is_wanted_bonus(b);
    let mut bonuses: Vec<Bonus> = Vec::new();
    for i in 0..t.bonuses.len()
        invariant
            pred == (|b: Bonus| is_wanted_bonus(b)),
            bonuses@ == t.bonuses@.take(i as int).filter(pred),
    {
        let bonus = &t.bonuses[i];
        if wanted(bonus) {
            bonuses.push(bonus.clone());
        }
        proof {
            assert(t.bonuses@.take(i + 1) == t.bonuses@.take(i as int).push(t.bonuses@[i as int]));
            t.bonuses@.take(i as int).lemma_filter_push(t.bonuses@[i as int], pred);
        }
    }
    assert(t.bonuses@.take(t.bonuses@.len() as int) == t.bonuses@);
    Task { hole, fig, edges, epsilon: t.epsilon, bonuses }
}

/// Whether the solver goes after the bonus `b`.
pub fn wanted(b: &Bonus) -> (r: bool)
    ensures
        r == is_wanted_bonus(*b),
{
    let globalist: String = "GLOBALIST".to_owned();
    let wanted_problems: [usize; 3] = [81, 7, 60];
    let mut want_it = false;
    for k in 0..3
        invariant
            globalist@ == "GLOBALIST"@,
            wanted_problems@ == seq![81usize, 7usize, 60usize],
            want_it == (b.bonus@ == "GLOBALIST"@ && (b.problem == 81 && k > 0 || b.problem == 7 && k > 1
                || b.problem == 60 && k > 2)),
    {
        if globalist == b.bonus && wanted_problems[k] == b.problem {
            want_it = true;
        }
    }
    want_it
}

/// The problems named by the GLOBALIST bonuses among `bonuses`, one entry
/// per bonus.
pub open spec fn globalist_targets(bonuses: Seq<Bonus>) -> Seq<usize> {
    bonuses.filter(|b: Bonus| b.bonus@ == "GLOBALIST"@).map_values(|b: Bonus| b.problem)
}

/// The problems for which a GLOBALIST bonus is on offer among `bonuses`, in
/// increasing order, each as often as such a bonus names it.
pub fn globalist_problems(bonuses: &Vec<Bonus>) -> (r: Vec<usize>)
    ensures
        r@.to_multiset() == globalist_targets(bonuses@).to_multiset(),
        forall|a: int, b: int| 0 <= a < b < r@.len() ==> r@[a] <= r@[b],
{
    broadcast use vstd::seq_lib::group_to_multiset_ensures;

    let globalist: String = "GLOBALIST".to_owned();
    let ghost pred = |b: Bonus| b.bonus@ == "GLOBALIST"@;
    let mut out: Vec<usize> = Vec::new();
    for i in 0..bonuses.len()
        invariant
            globalist@ == "GLOBALIST"@,
            pred == (|b: Bonus| b.bonus@ == "GLOBALIST"@),
            out@.to_multiset() == bonuses@.take(i as int).filter(pred).map_values(|b: Bonus| b.problem).to_multiset(),
            forall|a: int, b: int| 0 <= a < b < out@.len() ==> out@[a] <= out@[b],
    {
        let bonus = &bonuses[i];
        proof {
            assert(bonuses@.take(i + 1) == bonuses@.take(i as int).push(bonuses@[i as int]));
            bonuses@.take(i as int).lemma_filter_push(bonuses@[i as int], pred);
        }
        let ghost prev = bonuses@.take(i as int).filter(pred);
        if globalist == bonus.bonus {
            let e = bonus.problem;
            let mut k: usize = 0;
            while k < out.len() && out[k] <= e
                invariant
                    k <= out@.len(),
                    forall|j: int| 0 <= j < k ==> #[trigger] out@[j] <= e,
                decreases out@.len() - k,
            {
                k += 1;
            }
            let ghost before = out@;
            out.insert(k, e);
            assert(out@ == before.insert(k as int, e));
            assert forall|a: int, b: int| 0 <= a < b < out@.len() implies out@[a] <= out@[b] by {
                if b < k {
                    assert(before[a] <= before[b]);
                } else if b == k {
                    assert(before[a] <= e);
                } else if a == k {
                    assert(before[k as int] <= before[b - 1]);
                } else if a < k {
                    assert(before[a] <= before[b - 1]);
                } else {
                    assert(before[a - 1] <= before[b - 1]);
                }
            }
            proof {
                vstd::seq_lib::to_multiset_insert(before, k as int, e);
                assert(prev.push(*bonus).map_values(|b: Bonus| b.problem) =~= prev.map_values(
                    |b: Bonus| b.problem,
                ).push(e));
                vstd::seq_lib::to_multiset_build(prev.map_values(|b: Bonus| b.problem), e);
            }
        }
    }
    assert(bonuses@.take(bonuses@.len() as int) =~= bonuses@);
    out
}

} // verus!
