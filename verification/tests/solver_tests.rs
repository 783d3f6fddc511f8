use borys::helper::Helper;
use borys::rand::Random;
use borys::scores::{dislikes, Scores};
use borys::solver::{deletable_components, edge_spans, replace_component, solve_rec, solve_with_helper, split_by_edge};
use borys::{Bonus, Edge, Point, Task};

fn p(x: i32, y: i32) -> Point {
    Point { x, y }
}

fn task(hole: Vec<Point>, fig: Vec<Point>, edges: Vec<(usize, usize)>, epsilon: i64) -> Task {
    Task {
        hole,
        fig,
        edges: edges.into_iter().map(|(fr, to)| Edge { fr, to }).collect(),
        epsilon,
        bonuses: vec![],
    }
}

fn big_max_dist2(n: usize) -> Vec<Vec<i64>> {
    vec![vec![i64::MAX / 4; n]; n]
}

fn square() -> Vec<Point> {
    vec![p(0, 0), p(4, 0), p(4, 4), p(0, 4)]
}

fn all_valid(h: &Helper, t: &Task, vs: &[Point]) -> bool {
    let cur: Vec<Option<Point>> = vs.iter().map(|q| Some(*q)).collect();
    h.get_bad_edge(&cur, t).is_none() && vs.iter().all(|q| h.is_point_inside(q))
}

#[test]
fn dislikes_sum_of_nearest() {
    let vs = vec![p(0, 0), p(4, 4)];
    assert_eq!(dislikes(&square(), &vs), 32);
    assert_eq!(dislikes(&square(), &square()), 0);
    assert_eq!(dislikes(&vec![], &vs), 0);
    assert_eq!(dislikes(&vec![p(1, 1)], &vec![]), i64::MAX);
}

#[test]
fn scores_of_a_placement() {
    let mut t = task(
        square(),
        vec![p(0, 0), p(2, 2), p(0, 2), p(2, 0)],
        vec![(0, 1), (2, 3)],
        0,
    );
    t.bonuses = vec![
        Bonus { bonus: "GLOBALIST".to_string(), problem: 81, position: [0, 0] },
        Bonus { bonus: "GLOBALIST".to_string(), problem: 81, position: [3, 3] },
        Bonus { bonus: "WALLHACK".to_string(), problem: 7, position: [2, 2] },
    ];
    let h = Helper::create(&t, big_max_dist2(4));
    let vs = vec![p(0, 0), p(2, 2), p(0, 2), p(2, 0)];
    let s = Scores::create(&vs, &t, &h);
    assert_eq!(s.crossed_edges, 2);
    assert_eq!(s.bad_edges, 0);
    assert_eq!(s.got_bonuses, 1);
    assert_eq!(s.dislikes, 0 + 4 + 8 + 4);
    let moved = vec![p(0, 0), p(3, 3), p(0, 2), p(2, 0)];
    let s2 = Scores::create(&moved, &t, &h);
    assert_eq!(s2.bad_edges, 1);
    assert_eq!(s2.crossed_edges, 2);
}

#[test]
fn solve_rec_places_everything_validly() {
    let t = task(square(), vec![p(0, 0), p(2, 0), p(0, 2)], vec![(0, 1), (1, 2), (2, 0)], 0);
    let h = Helper::create(&t, big_max_dist2(3));
    let mut rnd = Random::new(787788);
    let mut found = false;
    for _ in 0..100 {
        let mut cur = vec![None; 3];
        if let Some(vs) = solve_rec(&t, &h, &mut cur, &mut rnd) {
            assert!(all_valid(&h, &t, &vs));
            assert_eq!(cur, vs.iter().map(|q| Some(*q)).collect::<Vec<_>>());
            found = true;
            break;
        } else {
            assert_eq!(cur, vec![None; 3]);
        }
    }
    assert!(found);
}

#[test]
fn solve_rec_keeps_placed_vertices() {
    let t = task(square(), vec![p(0, 0), p(1, 0), p(1, 1)], vec![(0, 1), (1, 2)], 0);
    let h = Helper::create(&t, big_max_dist2(3));
    let mut rnd = Random::new(17);
    let mut cur = vec![Some(p(2, 2)), None, None];
    let r = solve_rec(&t, &h, &mut cur, &mut rnd);
    let vs = r.expect("a chain of two unit edges always fits");
    assert_eq!(vs[0], p(2, 2));
    assert!(all_valid(&h, &t, &vs));
}

#[test]
fn solve_rec_fails_when_nothing_fits() {
    // an edge of length 10 cannot fit in a 4 by 4 square
    let t = task(square(), vec![p(0, 0), p(10, 0)], vec![(0, 1)], 0);
    let h = Helper::create(&t, big_max_dist2(2));
    let mut rnd = Random::new(5);
    let mut cur = vec![Some(p(1, 1)), None];
    assert_eq!(solve_rec(&t, &h, &mut cur, &mut rnd), None);
    assert_eq!(cur, vec![Some(p(1, 1)), None]);
}

#[test]
fn solve_with_helper_finds_placement() {
    let t = task(square(), vec![p(0, 0), p(3, 0), p(3, 3), p(0, 3)], vec![(0, 1), (1, 2), (2, 3), (3, 0)], 0);
    let h = Helper::create(&t, big_max_dist2(4));
    let mut rnd = Random::new(787788);
    let vs = solve_with_helper(&t, &h, &mut rnd).expect("a 3 by 3 square fits");
    assert_eq!(vs.len(), 4);
    assert!(all_valid(&h, &t, &vs));
}

#[test]
fn split_path_and_cycle() {
    let path = task(square(), vec![p(0, 0), p(1, 0), p(2, 0)], vec![(0, 1), (1, 2)], 0);
    assert_eq!(split_by_edge(&path, &Edge { fr: 0, to: 1 }), Some((vec![0], vec![1, 2])));
    assert_eq!(split_by_edge(&path, &Edge { fr: 1, to: 2 }), Some((vec![0, 1], vec![2])));
    let cycle = task(square(), vec![p(0, 0), p(1, 0), p(1, 1)], vec![(0, 1), (1, 2), (2, 0)], 0);
    assert_eq!(split_by_edge(&cycle, &Edge { fr: 0, to: 1 }), None);
}

#[test]
fn split_by_edge_stops_once_every_vertex_is_coloured() {
    // a cycle 0-1-2-3-0 whose closing edge (2, 3) is met before its ends are
    // coloured: the one sweep colours everything and no joining edge is seen
    let t = task(
        square(),
        vec![p(0, 0), p(1, 0), p(1, 1), p(0, 1)],
        vec![(0, 1), (2, 3), (3, 0), (2, 1)],
        0,
    );
    assert_eq!(split_by_edge(&t, &Edge { fr: 0, to: 1 }), Some((vec![0, 3], vec![1, 2])));
}

#[test]
fn try_create_scores_only_placed_figures() {
    let t = task(square(), vec![p(0, 0), p(1, 0)], vec![(0, 1)], 0);
    let h = Helper::create(&t, big_max_dist2(2));
    let vs = vec![p(0, 0), p(1, 0)];
    let s = Scores::try_create(&vs, &t, &h).unwrap();
    let c = Scores::create(&vs, &t, &h);
    assert_eq!(s.dislikes, c.dislikes);
    assert_eq!(s.bad_edges, c.bad_edges);
    assert!(Scores::try_create(&vec![p(0, 0)], &t, &h).is_none());
    assert!(Scores::try_create(&vec![p(0, 0), p(1, 0), p(5, 5)], &t, &h).is_some());
}

#[test]
fn solve_with_helper_depends_only_on_the_seed() {
    let t = task(square(), vec![p(0, 0), p(1, 0), p(1, 1)], vec![(0, 1), (1, 2)], 0);
    let h = Helper::create(&t, big_max_dist2(3));
    let mut a = Random::new(4242);
    let mut b = Random::new(4242);
    assert_eq!(solve_with_helper(&t, &h, &mut a), solve_with_helper(&t, &h, &mut b));
    assert_eq!(a.next(), b.next());
}

#[test]
fn deletable_components_of_a_path() {
    let path = task(square(), vec![p(0, 0), p(1, 0), p(2, 0)], vec![(0, 1), (1, 2)], 0);
    assert_eq!(deletable_components(&path), vec![vec![0], vec![1, 2], vec![0, 1], vec![2]]);
    let cycle = task(square(), vec![p(0, 0), p(1, 0), p(1, 1)], vec![(0, 1), (1, 2), (2, 0)], 0);
    assert_eq!(deletable_components(&cycle), Vec::<Vec<usize>>::new());
}

#[test]
fn edge_spans_connected_and_not() {
    let path = task(square(), vec![p(0, 0), p(1, 0), p(2, 0)], vec![(0, 1), (1, 2)], 0);
    assert!(edge_spans(&path, &Edge { fr: 0, to: 1 }));
    assert!(edge_spans(&path, &Edge { fr: 1, to: 2 }));
    // vertex 3 hangs on nothing
    let loose = task(square(), vec![p(0, 0), p(1, 0), p(2, 0), p(3, 0)], vec![(0, 1), (1, 2)], 0);
    assert!(!edge_spans(&loose, &Edge { fr: 0, to: 1 }));
    // taking out an edge that is not there leaves the path whole
    assert!(edge_spans(&path, &Edge { fr: 1, to: 1 }));
    assert!(edge_spans(&path, &Edge { fr: 0, to: 0 }));
}

#[test]
fn replace_component_keeps_the_rest() {
    let t = task(square(), vec![p(0, 0), p(1, 0), p(2, 0)], vec![(0, 1), (1, 2)], 0);
    let h = Helper::create(&t, big_max_dist2(3));
    let vs = vec![p(0, 0), p(1, 0), p(2, 0)];
    let can_delete = vec![vec![2]];
    let mut rnd = Random::new(99);
    let mut found = false;
    for _ in 0..20 {
        if let Some(ns) = replace_component(&t, &h, &mut rnd, &vs, &can_delete) {
            assert_eq!(ns[0], p(0, 0));
            assert_eq!(ns[1], p(1, 0));
            assert!(h.is_valid_edge(&t, 1, 2, &ns[1], &ns[2]));
            assert!(h.is_point_inside(&ns[2]));
            found = true;
        }
    }
    assert!(found);
}

#[test]
fn replace_component_of_an_empty_group_gives_the_placement_back() {
    let t = task(square(), vec![p(0, 0), p(1, 0), p(2, 0)], vec![(0, 1), (1, 2)], 0);
    let h = Helper::create(&t, big_max_dist2(3));
    let vs = vec![p(0, 0), p(1, 0), p(2, 0)];
    let can_delete: Vec<Vec<usize>> = vec![vec![]];
    let mut rnd = Random::new(99);
    assert_eq!(replace_component(&t, &h, &mut rnd, &vs, &can_delete), Some(vs.clone()));
}

#[test]
fn dislikes_zero_exactly_when_every_hole_vertex_is_covered() {
    let hole = square();
    let covering = vec![p(0, 4), p(4, 4), p(1, 1), p(4, 0), p(0, 0)];
    assert_eq!(dislikes(&hole, &covering), 0);
    let missing_one = vec![p(0, 4), p(4, 4), p(4, 0), p(0, 1)];
    assert_eq!(dislikes(&hole, &missing_one), 1);
}

#[test]
fn grid_solver_places_everything_validly() {
    let t = task(square(), vec![p(0, 0), p(2, 0), p(0, 2)], vec![(0, 1), (1, 2), (2, 0)], 0);
    let h = Helper::create(&t, big_max_dist2(3));
    let vs = borys::grid_solver::solve_with_helper(&t, &h).expect("a right triangle fits");
    assert_eq!(vs.len(), 3);
    assert!(all_valid(&h, &t, &vs));
}

#[test]
fn grid_solve_rec_keeps_placed_and_fails_cleanly() {
    let t = task(square(), vec![p(0, 0), p(1, 0), p(1, 1)], vec![(0, 1), (1, 2)], 0);
    let h = Helper::create(&t, big_max_dist2(3));
    let mut rnd = Random::new(17);
    let mut cur = vec![Some(p(2, 2)), None, None];
    let vs = borys::grid_solver::solve_rec(&t, &h, &mut cur, &mut rnd).expect("a chain of two unit edges fits");
    assert_eq!(vs[0], p(2, 2));
    assert!(all_valid(&h, &t, &vs));
    let long = task(square(), vec![p(0, 0), p(10, 0)], vec![(0, 1)], 0);
    let h2 = Helper::create(&long, big_max_dist2(2));
    let mut cur2 = vec![Some(p(1, 1)), None];
    assert_eq!(borys::grid_solver::solve_rec(&long, &h2, &mut cur2, &mut rnd), None);
}
