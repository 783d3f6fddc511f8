use borys::helper::Helper;
use borys::local_optimizer::{big_move_base, propagate_shift, random_order};
use borys::rand::Random;
use borys::rec_optimizer::{optimize, optimize_one};
use borys::rec_optimizer2::{rec, replace_vertices};
use borys::scores::dislikes;
use borys::shifting::{rec_shift, try_shift};
use borys::vizualizer::AdditionalState;
use borys::{Edge, Point, Shift, Task};

fn p(x: i32, y: i32) -> Point {
    Point { x, y }
}

fn task(hole: Vec<Point>, fig: Vec<Point>, edges: Vec<(usize, usize)>, epsilon: i64) -> Task {
    Task {
        hole,
        fig,
        edges: edges.into_iter().map(|(fr, to)| Edge { fr, to }).collect(),
        epsilon,
        bonuses: vec![],
    }
}

fn big_max_dist2(n: usize) -> Vec<Vec<i64>> {
    vec![vec![i64::MAX / 4; n]; n]
}

fn square() -> Vec<Point> {
    vec![p(0, 0), p(4, 0), p(4, 4), p(0, 4)]
}

fn unit_edge_task() -> Task {
    task(square(), vec![p(0, 0), p(1, 0)], vec![(0, 1)], 0)
}

fn all_valid(h: &Helper, t: &Task, vs: &[Point]) -> bool {
    let cur: Vec<Option<Point>> = vs.iter().map(|q| Some(*q)).collect();
    h.get_bad_edge(&cur, t).is_none()
}

#[test]
fn try_shift_repairs_neighbour() {
    let t = unit_edge_task();
    let h = Helper::create(&t, big_max_dist2(2));
    let mut ps = vec![p(1, 1), p(2, 1)];
    assert!(try_shift(&t, &h, &mut ps, 0, &Shift { dx: 0, dy: 1 }));
    assert_eq!(ps, vec![p(1, 2), p(1, 1)]);
    assert!(all_valid(&h, &t, &ps));
}

#[test]
fn try_shift_gives_up_without_change() {
    let t = unit_edge_task();
    let h = Helper::create(&t, big_max_dist2(2));
    let mut ps = vec![p(1, 1), p(2, 1)];
    // moved far outside the hole: no repair is possible
    assert!(!try_shift(&t, &h, &mut ps, 0, &Shift { dx: 10, dy: 10 }));
    assert_eq!(ps, vec![p(1, 1), p(2, 1)]);
}

#[test]
fn rec_shift_depth_zero() {
    let t = unit_edge_task();
    let h = Helper::create(&t, big_max_dist2(2));
    let mut ps = vec![p(1, 2), p(2, 1)];
    let mut changed = vec![true, false];
    assert!(!rec_shift(&t, &h, &mut ps, &mut changed, 0, 0));
    assert_eq!(ps, vec![p(1, 2), p(2, 1)]);
    assert_eq!(changed, vec![true, false]);
    assert!(rec_shift(&t, &h, &mut ps, &mut changed, 0, 1));
    assert_eq!(changed, vec![true, true]);
    assert!(all_valid(&h, &t, &ps));
}

#[test]
fn random_replacement() {
    let t = unit_edge_task();
    let h = Helper::create(&t, big_max_dist2(2));
    let mut rnd = Random::new(31);
    let mut need = vec![false, true];
    let mut ps = vec![p(1, 1), p(0, 0)];
    assert!(rec(&mut need, &mut ps, &t, &h, &mut rnd));
    assert_eq!(need, vec![false, false]);
    assert_eq!(ps[0], p(1, 1));
    assert_eq!(ps[0].d2(&ps[1]), 1);
    assert!(all_valid(&h, &t, &ps));
}

#[test]
fn random_replacement_nothing_to_do() {
    let t = unit_edge_task();
    let h = Helper::create(&t, big_max_dist2(2));
    let mut rnd = Random::new(31);
    let mut need = vec![false, false];
    let mut ps = vec![p(1, 1), p(3, 3)];
    assert!(rec(&mut need, &mut ps, &t, &h, &mut rnd));
    assert_eq!(ps, vec![p(1, 1), p(3, 3)]);
}

#[test]
fn optimize_one_improves() {
    let t = unit_edge_task();
    let h = Helper::create(&t, big_max_dist2(2));
    let start = vec![p(1, 1), p(2, 1)];
    let before = dislikes(&t.hole, &start);
    assert_eq!(before, 2 + 5 + 13 + 10);
    let r = optimize_one(&t, &h, start.clone(), 0, 5, 3);
    assert!(dislikes(&t.hole, &r) < before);
    assert!(all_valid(&h, &t, &r));
    assert!(r.iter().all(|q| h.is_point_inside(q)));
}

#[test]
fn optimize_one_keeps_optimum() {
    // both vertices on hole corners that the figure cannot reach better
    let t = task(vec![p(0, 0), p(1, 0), p(1, 1), p(0, 1)], vec![p(0, 0), p(1, 0)], vec![(0, 1)], 0);
    let h = Helper::create(&t, big_max_dist2(2));
    let start = vec![p(0, 0), p(1, 0)];
    let r = optimize_one(&t, &h, start.clone(), 0, 5, 3);
    assert_eq!(r, start);
}

#[test]
fn optimize_never_worse() {
    let t = task(square(), vec![p(0, 0), p(1, 0), p(1, 1)], vec![(0, 1), (1, 2)], 0);
    let h = Helper::create(&t, big_max_dist2(3));
    let start = vec![p(1, 1), p(2, 1), p(2, 2)];
    let r = optimize(&t, &h, start.clone());
    assert!(dislikes(&t.hole, &r) <= dislikes(&t.hole, &start));
    assert!(all_valid(&h, &t, &r));
}

#[test]
fn propagate_drags_neighbour() {
    let t = unit_edge_task();
    let h = Helper::create(&t, big_max_dist2(2));
    let mut cur = vec![Some(p(1, 2)), Some(p(2, 1))];
    assert!(propagate_shift(&t, &h, &mut cur, 0, 0, 1, false));
    assert_eq!(cur, vec![Some(p(1, 2)), Some(p(2, 2))]);
}

#[test]
fn propagate_big_move_stops_at_broken_edge() {
    let t = unit_edge_task();
    let h = Helper::create(&t, big_max_dist2(2));
    let mut cur = vec![Some(p(1, 2)), Some(p(2, 1))];
    assert!(!propagate_shift(&t, &h, &mut cur, 0, 0, 1, true));
    assert_eq!(cur, vec![Some(p(1, 2)), Some(p(2, 1))]);
}

#[test]
fn viewer_state_starts_empty() {
    let s = AdditionalState::create();
    assert_eq!(s.mouse_x, 0);
    assert_eq!(s.mouse_y, 0);
    assert!(s.selected.is_none());
}

#[test]
fn random_order_is_a_permutation() {
    let mut rnd = Random::new(45444);
    for n in 0..8 {
        let mut perm = random_order(&mut rnd, n).unwrap();
        assert_eq!(perm.len(), n);
        perm.sort();
        assert_eq!(perm, (0..n).collect::<Vec<_>>());
    }
}

#[test]
fn big_move_base_picks_fewest_shifts() {
    // vertex 1 has a unit edge (4 listed displacements) and a longer one
    let t = task(square(), vec![p(0, 0), p(1, 0), p(1, 2)], vec![(0, 1), (1, 2)], 0);
    let h = Helper::create(&t, big_max_dist2(3));
    let cur = vec![Some(p(0, 0)), Some(p(1, 0)), Some(p(1, 2))];
    let l0 = h.shifts_per_edge[0].len();
    let l1 = h.shifts_per_edge[1].len();
    let r = big_move_base(&t, &h, &cur, 1).unwrap();
    if l0 <= l1 {
        assert_eq!(r, (0, p(0, 0)));
    } else {
        assert_eq!(r, (1, p(1, 2)));
    }
    assert_eq!(big_move_base(&t, &h, &cur, 0), Some((0, p(1, 0))));
    let lonely = task(square(), vec![p(0, 0), p(1, 0), p(2, 2)], vec![(0, 1)], 0);
    let h2 = Helper::create(&lonely, big_max_dist2(3));
    assert_eq!(big_move_base(&lonely, &h2, &cur, 2), None);
}

#[test]
fn replace_vertices_moves_only_listed() {
    let t = unit_edge_task();
    let h = Helper::create(&t, big_max_dist2(2));
    let mut rnd = Random::new(31);
    let start = vec![p(1, 1), p(0, 0)];
    let r = replace_vertices(&t, &h, &start, &[1], &mut rnd).unwrap();
    assert_eq!(r[0], p(1, 1));
    assert_eq!(r[0].d2(&r[1]), 1);
    assert!(all_valid(&h, &t, &r));
}

#[test]
fn consecutive_optimizations_stay_consistent() {
    let t = task(square(), vec![p(0, 0), p(1, 0), p(1, 1)], vec![(0, 1), (1, 2)], 0);
    let h = Helper::create(&t, big_max_dist2(3));
    let start = vec![p(1, 1), p(2, 1), p(2, 2)];
    let once = optimize(&t, &h, start.clone());
    let twice = optimize(&t, &h, once.clone());
    assert!(dislikes(&t.hole, &twice) <= dislikes(&t.hole, &once));
    for i in 0..3 {
        if twice[i] != start[i] {
            assert!(h.is_point_inside(&twice[i]));
        }
    }
    assert!(all_valid(&h, &t, &twice));
}

#[test]
fn optimize_one_is_best_of_its_search() {
    let t = unit_edge_task();
    let h = Helper::create(&t, big_max_dist2(2));
    let start = vec![p(1, 1), p(2, 1)];
    let base = start[0];
    let mut best = dislikes(&t.hole, &start);
    for dx in -5..=5 {
        for dy in -5..=5 {
            let p0 = p(base.x + dx, base.y + dy);
            if !h.is_point_inside(&p0) {
                continue;
            }
            for s in h.shifts_per_edge[0].iter() {
                let p1 = p(base.x + s.dx, base.y + s.dy);
                if h.is_point_inside(&p1) && h.is_valid_edge(&t, 1, 0, &p1, &p0) {
                    best = best.min(dislikes(&t.hole, &vec![p0, p1]));
                }
            }
        }
    }
    let r = optimize_one(&t, &h, start.clone(), 0, 5, 3);
    assert_eq!(dislikes(&t.hole, &r), best);
    // with one vertex kept, only vertex 0 moves, and its edge is not checked
    let r1 = optimize_one(&t, &h, start.clone(), 0, 5, 1);
    assert_eq!(r1[1], start[1]);
    assert!(dislikes(&t.hole, &r1) <= dislikes(&t.hole, &start));
}

#[test]
fn random_order_depends_only_on_the_seed() {
    let mut a = Random::new(2024);
    let mut b = Random::new(2024);
    assert_eq!(random_order(&mut a, 6), random_order(&mut b, 6));
    assert_eq!(a.next(), b.next());
    let mut c = Random::new(8);
    assert_eq!(random_order(&mut c, 0), Some(vec![]));
    assert_eq!(c.next(), Random::new(8).next());
}
