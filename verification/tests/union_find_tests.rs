use mindgames::rng::Rng;
use mindgames::union_find::UnionFind;

#[test]
fn singletons_start_apart() {
    let mut uf = UnionFind::new(5);
    assert!(!uf.same_set(0, 1));
    assert!(uf.same_set(3, 3));
}

#[test]
fn union_reports_whether_a_merge_occurred() {
    let mut uf = UnionFind::new(6);
    assert!(uf.union(1, 2));
    assert!(!uf.union(2, 1));
    assert!(uf.union(2, 3));
    assert!(uf.same_set(1, 3));
    assert!(!uf.same_set(0, 1));
    assert!(uf.union(4, 5));
    assert!(!uf.same_set(3, 4));
    assert!(uf.union(1, 5));
    assert!(uf.same_set(3, 4));
}

#[test]
fn merging_everything_leaves_one_set() {
    let n = 40usize;
    let mut uf = UnionFind::new(n);
    for i in 1..n {
        assert!(uf.union(i - 1, i));
    }
    for i in 0..n {
        assert!(uf.same_set(0, i));
    }
}

#[test]
fn rng_draws_stay_in_range_and_repeat_by_seed() {
    let mut a = Rng::seeded(123);
    let mut b = Rng::seeded(123);
    for bound in 1..40usize {
        let x = a.next_below(bound);
        assert!(x < bound);
        assert_eq!(x, b.next_below(bound));
    }
    let mut c = Rng::seeded(9);
    let mut saw_true = false;
    let mut saw_false = false;
    for _ in 0..200 {
        if c.next_bool() {
            saw_true = true;
        } else {
            saw_false = true;
        }
    }
    assert!(saw_true && saw_false);
}
