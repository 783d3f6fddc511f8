use borys::helper::Helper;
use borys::placement::{find_ok_point, not_intersection_placement, try_remove_bad_edges};
use borys::rand::Random;
use borys::scores::{Order, Scores};
use borys::shifting::move_selected;
use borys::task::globalist_problems;
use borys::vizualizer::{closest_point, Action, AdditionalState, UserEvent};
use borys::{Bonus, Edge, Point, Shift, Task};

fn p(x: i32, y: i32) -> Point {
    Point { x, y }
}

fn task(hole: Vec<Point>, fig: Vec<Point>, edges: Vec<(usize, usize)>, epsilon: i64) -> Task {
    Task {
        hole,
        fig,
        edges: edges.into_iter().map(|(fr, to)| Edge { fr, to }).collect(),
        epsilon,
        bonuses: vec![],
    }
}

fn big_max_dist2(n: usize) -> Vec<Vec<i64>> {
    vec![vec![i64::MAX / 4; n]; n]
}

fn l_shape() -> Vec<Point> {
    vec![p(0, 0), p(4, 0), p(4, 2), p(2, 2), p(2, 4), p(0, 4)]
}

fn bad_edge_count(h: &Helper, t: &Task, vs: &[Point]) -> usize {
    t.edges.iter().filter(|e| !h.is_edge_inside(&vs[e.fr], &vs[e.to])).count()
}

#[test]
fn remove_bad_edges_nothing_to_do() {
    let t = task(l_shape(), vec![p(0, 0), p(1, 0)], vec![(0, 1)], 0);
    let h = Helper::create(&t, big_max_dist2(2));
    let mut vs = vec![p(0, 0), p(1, 0)];
    let mut rnd = Random::new(5);
    assert!(try_remove_bad_edges(&mut vs, &mut rnd, &t, &h));
    assert_eq!(vs, vec![p(0, 0), p(1, 0)]);
}

#[test]
fn remove_bad_edges_moves_one_endpoint_inside() {
    let t = task(l_shape(), vec![p(3, 1), p(3, 3)], vec![(0, 1)], 0);
    let h = Helper::create(&t, big_max_dist2(2));
    let mut rnd = Random::new(3342552);
    let mut vs = vec![p(3, 1), p(3, 3)];
    let mut moved = false;
    for _ in 0..50 {
        let before = vs.clone();
        let bad_before = bad_edge_count(&h, &t, &before);
        let r = try_remove_bad_edges(&mut vs, &mut rnd, &t, &h);
        assert_eq!(r, bad_before == 0);
        let changed: Vec<usize> = (0..2).filter(|&i| vs[i] != before[i]).collect();
        assert!(changed.len() <= 1);
        for &i in changed.iter() {
            assert!(h.is_point_inside(&vs[i]));
            moved = true;
        }
        if r {
            assert_eq!(vs, before);
            break;
        }
    }
    assert!(moved);
}

#[test]
fn find_ok_point_keeps_edges_inside() {
    let t = task(l_shape(), vec![p(0, 0), p(1, 0), p(3, 1)], vec![(0, 1), (1, 2)], 0);
    let h = Helper::create(&t, big_max_dist2(3));
    let vs = vec![p(0, 0), p(1, 0), p(3, 1)];
    let mut rnd = Random::new(77);
    for v in 0..3 {
        let q = find_ok_point(&t, &h, &mut rnd, &vs, v);
        if q != vs[v] {
            for e in t.edges.iter() {
                if e.fr == v || e.to == v {
                    let other = e.fr + e.to - v;
                    assert!(h.is_edge_inside(&q, &vs[other]));
                }
            }
        }
    }
}

#[test]
fn not_intersection_placement_is_inside() {
    let t = task(l_shape(), vec![p(0, 0), p(1, 0), p(1, 1)], vec![(0, 1), (1, 2), (2, 0)], 0);
    let h = Helper::create(&t, big_max_dist2(3));
    let mut rnd = Random::new(3342552);
    let vs = not_intersection_placement(&t, &h, &mut rnd).unwrap();
    assert_eq!(vs.len(), 3);
    for q in vs.iter() {
        assert!(h.is_point_inside(q));
    }
}

fn scores(dislikes: i64, crossed_edges: usize, bad_edges: usize, got_bonuses: usize) -> Scores {
    Scores { dislikes, crossed_edges, bad_edges, got_bonuses }
}

#[test]
fn ranking_by_integer_measures() {
    let a = scores(100, 5, 0, 1);
    let b = scores(10, 0, 0, 0);
    // a bonus outweighs everything else
    assert_eq!(a.compare(&b), Order::Less);
    assert_eq!(b.compare(&a), Order::Greater);
    let c = scores(10, 0, 2, 1);
    // then fewer invalid edges
    assert_eq!(a.compare(&c), Order::Less);
    // then fewer dislikes
    let d = scores(50, 9, 0, 1);
    assert_eq!(d.compare(&a), Order::Less);
    assert_eq!(d.compare(&d), Order::Equal);
    // the tolerance order ignores invalid edges
    assert_eq!(c.compare_with_eps(&a), Order::Less);
    // the crossing order looks at crossings before dislikes
    assert_eq!(a.compare_with_edges(&d), Order::Less);
    assert_eq!(d.compare_with_edges(&a), Order::Greater);
    assert_eq!(scores(1, 3, 0, 0).compare_with_edges(&scores(1, 3, 0, 0)), Order::Equal);
}

#[test]
fn ranking_is_antisymmetric_and_transitive() {
    let all = vec![
        scores(0, 0, 0, 0),
        scores(5, 1, 0, 0),
        scores(5, 0, 1, 0),
        scores(-3, 2, 1, 2),
        scores(5, 1, 0, 1),
        scores(7, 0, 0, 0),
    ];
    let flip = |o: Order| match o {
        Order::Less => Order::Greater,
        Order::Greater => Order::Less,
        Order::Equal => Order::Equal,
    };
    for a in all.iter() {
        for b in all.iter() {
            assert_eq!(b.compare(a), flip(a.compare(b)));
            assert_eq!(b.compare_with_eps(a), flip(a.compare_with_eps(b)));
            assert_eq!(b.compare_with_edges(a), flip(a.compare_with_edges(b)));
            for c in all.iter() {
                if a.compare(b) != Order::Greater && b.compare(c) != Order::Greater {
                    assert_ne!(a.compare(c), Order::Greater);
                }
            }
        }
    }
}

#[test]
fn closest_point_on_screen() {
    let vs = vec![p(0, 0), p(5, 5)];
    assert_eq!(closest_point(&vs, 3, 4), Some(0));
    assert_eq!(closest_point(&vs, 52, 49), Some(1));
    assert_eq!(closest_point(&vs, 200, 200), None);
    // exactly a hundred pixels away is too far
    assert_eq!(closest_point(&vs, -100, 0), None);
    assert_eq!(closest_point(&vs, -99, 0), Some(0));
    // the first of two equally near vertices
    assert_eq!(closest_point(&vec![p(1, 0), p(0, 1)], 0, 0), Some(0));
    assert_eq!(closest_point(&vec![], 0, 0), None);
}

#[test]
fn viewer_events_update_state() {
    let mut st = AdditionalState::create();
    assert!(matches!(st.handle(&UserEvent::MouseMoved(7, 8)), Action::Nothing));
    assert_eq!((st.mouse_x, st.mouse_y), (7, 8));
    assert!(matches!(st.handle(&UserEvent::Shift(Shift { dx: 1, dy: 0 })), Action::Nothing));
    assert!(matches!(st.handle(&UserEvent::Selected(3)), Action::Nothing));
    assert_eq!(st.selected, Some(3));
    match st.handle(&UserEvent::Shift(Shift { dx: 0, dy: -1 })) {
        Action::MoveSelected(v, s) => {
            assert_eq!(v, 3);
            assert_eq!(s, Shift { dx: 0, dy: -1 });
        }
        _ => panic!("expected a move"),
    }
    assert!(matches!(st.handle(&UserEvent::IncreaseChangeProb), Action::Nothing));
    assert!(matches!(st.handle(&UserEvent::CloseApp), Action::Close));
}

#[test]
fn move_selected_vertex() {
    let t = task(vec![p(0, 0), p(4, 0), p(4, 4), p(0, 4)], vec![p(0, 0), p(1, 0)], vec![(0, 1)], 0);
    let h = Helper::create(&t, big_max_dist2(2));
    let mut ps = vec![p(0, 0), p(1, 0)];
    assert!(move_selected(&t, &h, &mut ps, 0, &Shift { dx: 0, dy: 1 }));
    assert_eq!(ps[0], p(0, 1));
    assert!(h.is_valid_edge(&t, 0, 1, &ps[0], &ps[1]));
    let before = ps.clone();
    assert!(!move_selected(&t, &h, &mut ps, 0, &Shift { dx: -1, dy: 0 }));
    assert_eq!(ps, before);
}

#[test]
fn globalist_problems_sorted() {
    let b = |name: &str, problem: usize| Bonus { bonus: name.to_string(), problem, position: [0, 0] };
    let bonuses = vec![b("GLOBALIST", 81), b("WALLHACK", 7), b("GLOBALIST", 7), b("GLOBALIST", 81), b("BREAK_A_LEG", 1)];
    assert_eq!(globalist_problems(&bonuses), vec![7, 81, 81]);
    assert_eq!(globalist_problems(&vec![]), Vec::<usize>::new());
}

#[test]
fn not_intersection_placement_depends_only_on_the_seed() {
    let t = task(l_shape(), vec![p(0, 0), p(1, 0), p(1, 1)], vec![(0, 1), (1, 2), (2, 0)], 0);
    let h = Helper::create(&t, big_max_dist2(3));
    let mut a = Random::new(91);
    let mut b = Random::new(91);
    let va = not_intersection_placement(&t, &h, &mut a);
    let vb = not_intersection_placement(&t, &h, &mut b);
    assert_eq!(va, vb);
    assert_eq!(a.next(), b.next());
}

#[test]
fn not_intersection_placement_of_no_vertex_draws_nothing() {
    let t = task(l_shape(), vec![], vec![], 0);
    let h = Helper::create(&t, big_max_dist2(0));
    let mut rnd = Random::new(5);
    assert_eq!(not_intersection_placement(&t, &h, &mut rnd), Some(vec![]));
    assert_eq!(rnd.next(), Random::new(5).next());
}

#[test]
fn find_ok_point_depends_only_on_the_seed() {
    let t = task(l_shape(), vec![p(0, 0), p(1, 0), p(3, 1)], vec![(0, 1), (1, 2)], 0);
    let h = Helper::create(&t, big_max_dist2(3));
    let vs = vec![p(0, 0), p(1, 0), p(3, 1)];
    let mut a = Random::new(31);
    let mut b = Random::new(31);
    for v in 0..3 {
        assert_eq!(find_ok_point(&t, &h, &mut a, &vs, v), find_ok_point(&t, &h, &mut b, &vs, v));
    }
    assert_eq!(a.next(), b.next());
}
