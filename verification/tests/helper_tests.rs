use borys::helper::Helper;
use borys::{conv_input, Bonus, Edge, Figure, Input, Point, Shift, Task};

fn p(x: i32, y: i32) -> Point {
    Point { x, y }
}

fn task(hole: Vec<Point>, fig: Vec<Point>, edges: Vec<(usize, usize)>, epsilon: i64) -> Task {
    Task {
        hole,
        fig,
        edges: edges.into_iter().map(|(fr, to)| Edge { fr, to }).collect(),
        epsilon,
        bonuses: vec![],
    }
}

fn big_max_dist2(n: usize) -> Vec<Vec<i64>> {
    vec![vec![i64::MAX / 4; n]; n]
}

fn square_task() -> Task {
    task(vec![p(0, 0), p(4, 0), p(4, 4), p(0, 4)], vec![p(0, 0), p(1, 0)], vec![(0, 1)], 0)
}

fn l_shape_task() -> Task {
    task(
        vec![p(0, 0), p(4, 0), p(4, 2), p(2, 2), p(2, 4), p(0, 4)],
        vec![p(0, 0), p(1, 0)],
        vec![(0, 1)],
        0,
    )
}

#[test]
fn create_builds_tables() {
    let t = square_task();
    let h = Helper::create(&t, big_max_dist2(2));
    assert_eq!(h.max_c, 5);
    assert_eq!(h.is_inside.len(), 10);
    assert_eq!(h.hole_and_first, vec![p(0, 0), p(4, 0), p(4, 4), p(0, 4), p(0, 0)]);
    assert_eq!(h.shifts_per_edge.len(), 1);
    assert_eq!(
        h.shifts_per_edge[0],
        vec![Shift { dx: -1, dy: 0 }, Shift { dx: 0, dy: -1 }, Shift { dx: 0, dy: 1 }, Shift { dx: 1, dy: 0 }]
    );
}

#[test]
fn shifts_respect_tolerance() {
    // edge of squared length 25, tolerance 10% of it: 22.5 ..= 27.5
    let t = task(vec![p(0, 0), p(9, 0), p(9, 9), p(0, 9)], vec![p(0, 0), p(3, 4)], vec![(0, 1)], 100_000);
    let h = Helper::create(&t, big_max_dist2(2));
    for s in h.shifts_per_edge[0].iter() {
        let d = (s.dx * s.dx + s.dy * s.dy) as i64;
        assert!((d - 25).abs() * 1_000_000 <= 100_000 * 25);
    }
    assert!(h.shifts_per_edge[0].contains(&Shift { dx: 3, dy: 4 }));
    assert!(h.shifts_per_edge[0].contains(&Shift { dx: -5, dy: 0 }));
    assert!(h.shifts_per_edge[0].contains(&Shift { dx: 5, dy: 1 }));
    assert!(!h.shifts_per_edge[0].contains(&Shift { dx: 5, dy: 2 }));
    let list = &h.shifts_per_edge[0];
    for i in 1..list.len() {
        assert!((list[i - 1].dx, list[i - 1].dy) < (list[i].dx, list[i].dy));
    }
}

#[test]
fn shift_range_is_open_at_the_top() {
    let t = task(vec![p(0, 0), p(4, 0), p(4, 4), p(0, 4)], vec![p(0, 0), p(0, 5)], vec![(0, 1)], 0);
    let h = Helper::create(&t, big_max_dist2(2));
    assert_eq!(h.max_c, 5);
    let list = &h.shifts_per_edge[0];
    assert!(list.contains(&Shift { dx: 0, dy: -5 }));
    assert!(list.contains(&Shift { dx: 5, dy: 0 }));
    assert!(list.contains(&Shift { dx: -5, dy: 0 }));
    assert!(list.contains(&Shift { dx: 3, dy: 4 }));
    assert!(!list.contains(&Shift { dx: 0, dy: 5 }));
    assert_eq!(list.len(), 11);
}

#[test]
fn point_inside_square() {
    let h = Helper::create(&square_task(), big_max_dist2(2));
    assert!(h.is_point_inside(&p(2, 2)));
    assert!(h.is_point_inside(&p(0, 0)));
    assert!(h.is_point_inside(&p(4, 4)));
    assert!(h.is_point_inside(&p(2, 0)));
    assert!(!h.is_point_inside(&p(5, 5)));
    assert!(!h.is_point_inside(&p(-1, 0)));
    assert!(!h.is_point_inside(&p(2, 5)));
    assert!(!h.is_point_inside(&p(i32::MAX, 0)));
}

#[test]
fn hole_vertices_are_inside() {
    let t = l_shape_task();
    let h = Helper::create(&t, big_max_dist2(2));
    for q in t.hole.iter() {
        assert!(h.is_point_inside(q));
    }
}

#[test]
fn point_inside_l_shape() {
    let h = Helper::create(&l_shape_task(), big_max_dist2(2));
    assert!(h.is_point_inside(&p(1, 3)));
    assert!(h.is_point_inside(&p(3, 1)));
    assert!(h.is_point_inside(&p(2, 3)));
    assert!(!h.is_point_inside(&p(3, 3)));
    assert!(!h.is_point_inside(&p(4, 4)));
}

#[test]
fn on_edge_table() {
    let h = Helper::create(&l_shape_task(), big_max_dist2(2));
    assert!(h.is_on_edge(&p(2, 0)));
    assert!(h.is_on_edge(&p(2, 3)));
    assert!(h.is_on_edge(&p(3, 2)));
    assert!(!h.is_on_edge(&p(1, 1)));
    assert!(!h.is_on_edge(&p(3, 3)));
}

#[test]
fn edge_inside_l_shape() {
    let h = Helper::create(&l_shape_task(), big_max_dist2(2));
    // passes through the reflex corner and stays inside
    assert!(h.is_edge_inside(&p(1, 3), &p(3, 1)));
    // an endpoint in the notch
    assert!(!h.is_edge_inside(&p(1, 3), &p(3, 3)));
    // crosses a side of the hole
    assert!(!h.is_edge_inside(&p(3, 1), &p(1, 4)));
    // runs along the border
    assert!(h.is_edge_inside(&p(0, 0), &p(4, 0)));
    // a chord that leaves the hole between two border points
    assert!(!h.is_edge_inside(&p(2, 4), &p(4, 2)));
    // a single point
    assert!(h.is_edge_inside(&p(1, 1), &p(1, 1)));
}

#[test]
fn edge_inside_is_symmetric() {
    let h = Helper::create(&l_shape_task(), big_max_dist2(2));
    let pts = [p(0, 0), p(1, 3), p(3, 1), p(2, 2), p(4, 2), p(2, 4), p(0, 4), p(3, 3), p(4, 0)];
    for a in pts.iter() {
        for b in pts.iter() {
            assert_eq!(h.is_edge_inside(a, b), h.is_edge_inside(b, a));
        }
    }
}

#[test]
fn valid_edge_checks_length() {
    let t = square_task();
    let h = Helper::create(&t, big_max_dist2(2));
    assert!(h.is_valid_edge(&t, 0, 1, &p(1, 1), &p(2, 1)));
    assert!(h.is_valid_edge(&t, 0, 1, &p(1, 1), &p(1, 2)));
    assert!(!h.is_valid_edge(&t, 0, 1, &p(1, 1), &p(2, 2)));
    assert!(!h.is_valid_edge(&t, 0, 1, &p(4, 4), &p(5, 4)));
}

#[test]
fn valid_position_checks() {
    let t = square_task();
    let h = Helper::create(&t, big_max_dist2(2));
    let cur = vec![None, Some(p(2, 2))];
    let edges = vec![Edge { fr: 0, to: 1 }];
    assert!(h.is_valid_position(0, &p(2, 3), &edges, &cur, &t));
    assert!(!h.is_valid_position(0, &p(3, 3), &edges, &cur, &t));
    assert!(!h.is_valid_position(0, &p(9, 9), &edges, &cur, &t));
    assert!(h.is_valid_position(0, &p(3, 3), &[], &cur, &t));
    // the distance bound
    let mut tight = big_max_dist2(2);
    tight[0][1] = 1;
    let h2 = Helper::create(&t, tight);
    assert!(!h2.is_valid_position(0, &p(2, 3), &edges, &cur, &t));
}

#[test]
fn bad_edge_is_first_invalid() {
    let t = task(
        vec![p(0, 0), p(4, 0), p(4, 4), p(0, 4)],
        vec![p(0, 0), p(1, 0), p(1, 1)],
        vec![(0, 1), (1, 2), (0, 2)],
        0,
    );
    let h = Helper::create(&t, big_max_dist2(3));
    let good = vec![Some(p(1, 1)), Some(p(2, 1)), Some(p(2, 2))];
    assert_eq!(h.get_bad_edge(&good, &t), None);
    let bad = vec![Some(p(1, 1)), Some(p(2, 1)), Some(p(2, 3))];
    assert_eq!(h.get_bad_edge(&bad, &t), Some(Edge { fr: 1, to: 2 }));
    let outside = vec![Some(p(1, 1)), Some(p(2, 1)), Some(p(6, 3))];
    assert_eq!(h.get_bad_edge(&outside, &t), Some(Edge { fr: 1, to: 2 }));
}

#[test]
fn conv_input_keeps_wanted_bonuses() {
    let input = Input {
        hole: vec![[0, 0], [4, 0], [4, 4]],
        figure: Figure { edges: vec![vec![0, 1], vec![1, 2]], vertices: vec![[1, 1], [2, 1], [2, 2]] },
        epsilon: 150000,
        bonuses: vec![
            Bonus { bonus: "GLOBALIST".to_string(), problem: 81, position: [1, 1] },
            Bonus { bonus: "BREAK_A_LEG".to_string(), problem: 7, position: [2, 2] },
            Bonus { bonus: "GLOBALIST".to_string(), problem: 5, position: [3, 1] },
            Bonus { bonus: "GLOBALIST".to_string(), problem: 60, position: [0, 0] },
        ],
    };
    let t = conv_input(&input);
    assert_eq!(t.hole, vec![p(0, 0), p(4, 0), p(4, 4)]);
    assert_eq!(t.fig, vec![p(1, 1), p(2, 1), p(2, 2)]);
    assert_eq!(t.edges, vec![Edge { fr: 0, to: 1 }, Edge { fr: 1, to: 2 }]);
    assert_eq!(t.epsilon, 150000);
    assert_eq!(t.bonuses.len(), 2);
    assert_eq!(t.bonuses[0].problem, 81);
    assert_eq!(t.bonuses[1].problem, 60);
    assert_eq!(t.bonuses[1].position, [0, 0]);
}

#[test]
fn valid_edge_is_symmetric() {
    let t = task(vec![p(0, 0), p(4, 0), p(4, 4), p(0, 4)], vec![p(0, 0), p(3, 4)], vec![(0, 1)], 0);
    let h = Helper::create(&t, big_max_dist2(2));
    let cases = [(p(0, 0), p(3, 4)), (p(0, 0), p(4, 3)), (p(1, 0), p(4, 4)), (p(0, 0), p(2, 2))];
    for (a, b) in cases.iter() {
        assert_eq!(h.is_valid_edge(&t, 0, 1, a, b), h.is_valid_edge(&t, 1, 0, b, a));
    }
    assert!(h.is_valid_edge(&t, 0, 1, &p(0, 0), &p(4, 3)));
    assert!(!h.is_valid_edge(&t, 0, 1, &p(0, 0), &p(2, 2)));
}
