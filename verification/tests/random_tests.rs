use borys::rand::Random;

#[test]
fn next_is_xorshift() {
    let mut r = Random::new(1);
    assert_eq!(r.next(), 1082269761);
}

#[test]
fn next_in_range_stays_in_range() {
    let mut r = Random::new(1);
    assert_eq!(r.next_in_range(0, 10), 1082269761 % 10);
    let mut r = Random::new(787788);
    for _ in 0..1000 {
        let x = r.next_in_range(5, 12);
        assert!(5 <= x && x < 12);
    }
}

#[test]
fn next_never_zero() {
    let mut r = Random::new(3);
    for _ in 0..10000 {
        assert_ne!(r.next(), 0);
    }
}

#[test]
fn gen_perm_exact_values() {
    let mut r = Random::new(1);
    assert_eq!(r.gen_perm(3), vec![0, 1, 2]);
    let mut r = Random::new(42);
    assert_eq!(r.gen_perm(5), vec![1, 4, 3, 0, 2]);
    let mut r = Random::new(787788);
    assert_eq!(r.gen_perm(6), vec![2, 0, 3, 1, 4, 5]);
}

#[test]
fn gen_perm_is_permutation() {
    let mut r = Random::new(99);
    for n in 0..40 {
        let mut v = r.gen_perm(n);
        assert_eq!(v.len(), n);
        v.sort();
        assert_eq!(v, (0..n).collect::<Vec<_>>());
    }
}

#[test]
fn gen_perm_small() {
    let mut r = Random::new(5);
    assert_eq!(r.gen_perm(0), Vec::<usize>::new());
    assert_eq!(r.gen_perm(1), vec![0]);
}
