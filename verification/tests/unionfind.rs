use algokit::data_structure::unionfind::{PotentializedUnionFind, UnionFind};
use algokit::math::algebra::AddOp;

#[test]
fn new_forest_is_all_singletons() {
    for n in [0usize, 1, 2, 7, 64] {
        let mut uf = UnionFind::new(n);
        for i in 0..n {
            assert!(uf.same(i, i));
            assert_eq!(uf.size(i), 1);
            assert_eq!(uf.find(i), i);
        }
        for i in 1..n {
            assert!(!uf.same(0, i));
        }
    }
}

#[test]
fn merge_makes_same() {
    let mut uf = UnionFind::new(6);
    uf.merge(0, 1);
    assert!(uf.same(0, 1));
    assert!(uf.same(1, 0));
    assert!(!uf.same(0, 2));
    uf.merge(2, 3);
    uf.merge(1, 3);
    assert!(uf.same(0, 2));
    assert!(uf.same(0, 3));
    assert!(!uf.same(0, 4));
    assert!(!uf.same(4, 5));
}

#[test]
fn merge_of_one_class_changes_nothing() {
    let mut uf = UnionFind::new(4);
    uf.merge(0, 1);
    let root = uf.find(0);
    uf.merge(1, 0);
    uf.merge(0, 0);
    assert_eq!(uf.find(0), root);
    assert_eq!(uf.find(1), root);
    assert_eq!(uf.size(0), 2);
    assert_eq!(uf.size(2), 1);
}

#[test]
fn tie_puts_second_class_below_first() {
    let mut uf = UnionFind::new(4);
    uf.merge(2, 1);
    assert_eq!(uf.find(1), 2);
    assert_eq!(uf.find(2), 2);
    uf.merge(3, 0);
    assert_eq!(uf.find(0), 3);
    // two classes of two elements: the first argument's representative stays
    uf.merge(0, 1);
    assert_eq!(uf.find(1), 3);
    assert_eq!(uf.find(2), 3);
    assert_eq!(uf.size(2), 4);
}

#[test]
fn larger_class_keeps_its_representative() {
    let mut uf = UnionFind::new(5);
    uf.merge(0, 1);
    uf.merge(0, 2);
    assert_eq!(uf.find(2), 0);
    // the class of 3 has one element, that of 1 has three
    uf.merge(3, 1);
    assert_eq!(uf.find(3), 0);
    assert_eq!(uf.size(3), 4);
    assert_eq!(uf.size(4), 1);
}

#[test]
fn size_counts_the_class() {
    let n = 20;
    let mut uf = UnionFind::new(n);
    let merges = [(0, 5), (5, 9), (1, 2), (9, 1), (10, 11), (12, 13), (13, 10), (19, 19)];
    for (a, b) in merges {
        uf.merge(a, b);
    }
    for x in 0..n {
        let root = uf.find(x);
        let mut count = 0;
        for i in 0..n {
            if uf.find(i) == root {
                count += 1;
            }
        }
        assert_eq!(uf.size(x), count);
        assert_eq!(uf.size(root), count);
    }
    assert_eq!(uf.size(0), 5);
    assert_eq!(uf.size(12), 4);
    assert_eq!(uf.size(19), 1);
}

fn reachable(n: usize, merges: &[(usize, usize)], x: usize) -> Vec<bool> {
    let mut seen = vec![false; n];
    let mut todo = vec![x];
    seen[x] = true;
    while let Some(v) = todo.pop() {
        for &(a, b) in merges {
            let other = if a == v {
                b
            } else if b == v {
                a
            } else {
                continue;
            };
            if !seen[other] {
                seen[other] = true;
                todo.push(other);
            }
        }
    }
    seen
}

#[test]
fn same_agrees_with_reachability() {
    let mut state: u64 = 0x2545_f491_4f6c_dd1d;
    let mut next = move |m: usize| {
        state = state.wrapping_mul(6364136223846793005).wrapping_add(1442695040888963407);
        ((state >> 33) as usize) % m
    };
    for round in 0..30 {
        let n = 1 + next(24);
        let count = next(2 * n + 1);
        let mut merges = Vec::new();
        let mut uf = UnionFind::new(n);
        for _ in 0..count {
            let a = next(n);
            let b = next(n);
            merges.push((a, b));
            uf.merge(a, b);
            assert!(uf.same(a, b));
        }
        for x in 0..n {
            let seen = reachable(n, &merges, x);
            let mut class = 0;
            for y in 0..n {
                assert_eq!(uf.same(x, y), seen[y], "round {round}, n {n}, x {x}, y {y}");
                if seen[y] {
                    class += 1;
                }
            }
            assert_eq!(uf.size(x), class);
        }
    }
}

#[test]
fn find_compresses_long_chain() {
    let n = 2000;
    let mut uf = UnionFind::new(n);
    for i in 1..n {
        uf.merge(i - 1, i);
    }
    let root = uf.find(0);
    for i in 0..n {
        assert_eq!(uf.find(i), root);
    }
    assert_eq!(uf.size(n - 1), n);
}

#[test]
fn potentials_add_up_along_merges() {
    let mut uf = PotentializedUnionFind::<AddOp<i64>>::new(3);
    let (a, b, c) = (0, 1, 2);
    assert!(uf.merge(a, b, 5));
    assert!(uf.merge(b, c, 3));
    assert_eq!(uf.diff(a, c), Some(8));
    assert_eq!(uf.diff(c, a), Some(-8));
    assert_eq!(uf.diff(a, b), Some(5));
    assert_eq!(uf.diff(b, c), Some(3));
    assert_eq!(uf.diff(c, b), Some(-3));
}

#[test]
fn diff_is_unknown_across_classes() {
    let mut uf = PotentializedUnionFind::<AddOp<i32>>::new(4);
    assert_eq!(uf.diff(0, 1), None);
    assert!(uf.merge(0, 1, 7));
    assert_eq!(uf.diff(0, 2), None);
    assert_eq!(uf.diff(2, 1), None);
    assert_eq!(uf.diff(2, 3), None);
    assert!(!uf.same(1, 3));
}

#[test]
fn diff_of_an_element_with_itself_is_the_identity() {
    let mut uf = PotentializedUnionFind::<AddOp<i64>>::new(4);
    for i in 0..4 {
        assert_eq!(uf.diff(i, i), Some(0));
    }
    assert!(uf.merge(0, 1, 11));
    assert!(uf.merge(2, 1, -4));
    for i in 0..4 {
        assert_eq!(uf.diff(i, i), Some(0));
    }
}

#[test]
fn potentialized_new_is_all_singletons() {
    let mut uf = PotentializedUnionFind::<AddOp<i16>>::new(5);
    for i in 0..5 {
        assert!(uf.same(i, i));
        assert_eq!(uf.size(i), 1);
        assert_eq!(uf.find(i), i);
        assert_eq!(uf.weight(i), 0);
    }
}

#[test]
fn merge_of_one_class_reports_false_and_keeps_the_relation() {
    let mut uf = PotentializedUnionFind::<AddOp<i64>>::new(3);
    assert!(uf.merge(0, 1, 5));
    // the relation offered does not agree with the one that is known
    assert!(!uf.merge(0, 1, 9));
    assert!(!uf.merge(1, 0, 2));
    assert!(!uf.merge(1, 1, 2));
    assert_eq!(uf.diff(0, 1), Some(5));
    assert_eq!(uf.size(0), 2);
    assert_eq!(uf.size(2), 1);
}

#[test]
fn weight_is_relative_to_the_representative() {
    let mut uf = PotentializedUnionFind::<AddOp<i64>>::new(4);
    assert!(uf.merge(0, 1, 5));
    // tie: 1's class goes below 0
    assert_eq!(uf.find(1), 0);
    assert_eq!(uf.weight(0), 0);
    assert_eq!(uf.weight(1), 5);
    assert!(uf.merge(1, 2, 3));
    assert_eq!(uf.find(2), 0);
    assert_eq!(uf.weight(2), 8);
    // the smaller class of 3 goes below, though 3 is the first argument
    assert!(uf.merge(3, 0, 10));
    assert_eq!(uf.find(3), 0);
    assert_eq!(uf.weight(3), -10);
    assert_eq!(uf.diff(3, 2), Some(18));
    assert_eq!(uf.size(3), 4);
}

#[test]
fn potentials_survive_path_compression() {
    let n = 200usize;
    let mut uf = PotentializedUnionFind::<AddOp<i64>>::new(n);
    // pairs first, then pairs of pairs, so that the forest gets deep
    let mut step = 1;
    while step < n {
        let mut i = 0;
        while i + step < n {
            assert!(uf.merge(i + step, i, -(step as i64)));
            i += 2 * step;
        }
        step *= 2;
    }
    for i in 0..n {
        for j in [0usize, 1, 17, 128, 199] {
            assert_eq!(uf.diff(i, j), Some(j as i64 - i as i64));
        }
    }
    assert_eq!(uf.size(5), n);
}

#[test]
fn potentials_agree_with_assigned_values() {
    let mut state: u64 = 0x9e37_79b9_7f4a_7c15;
    let mut next = move |m: u64| {
        state = state.wrapping_mul(6364136223846793005).wrapping_add(1442695040888963407);
        (state >> 33) % m
    };
    for _ in 0..20 {
        let n = 2 + next(30) as usize;
        let values: Vec<i64> = (0..n).map(|_| next(2001) as i64 - 1000).collect();
        let mut uf = PotentializedUnionFind::<AddOp<i64>>::new(n);
        let mut plain = algokit::data_structure::unionfind::UnionFind::new(n);
        for _ in 0..n {
            let a = next(n as u64) as usize;
            let b = next(n as u64) as usize;
            let united = uf.merge(a, b, values[b] - values[a]);
            assert_eq!(united, !plain.same(a, b));
            plain.merge(a, b);
        }
        for x in 0..n {
            for y in 0..n {
                if plain.same(x, y) {
                    assert_eq!(uf.diff(x, y), Some(values[y] - values[x]));
                } else {
                    assert_eq!(uf.diff(x, y), None);
                }
                assert_eq!(uf.same(x, y), plain.same(x, y));
            }
            assert_eq!(uf.size(x), plain.size(x));
        }
    }
}

#[test]
fn potentials_wrap_around() {
    let mut uf = PotentializedUnionFind::<AddOp<i8>>::new(3);
    assert!(uf.merge(0, 1, 100));
    assert!(uf.merge(1, 2, 100));
    // 200 modulo 256, as a signed byte
    assert_eq!(uf.diff(0, 2), Some(-56));
    assert_eq!(uf.diff(2, 0), Some(56));
}
