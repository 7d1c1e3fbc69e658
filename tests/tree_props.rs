use rust_bplus_tree::bp_tree::BPTree;

fn scrambled(n: u32, step: u32) -> Vec<u32> {
    // step is coprime with n, so this visits every value below n once
    (0..n).map(|i| (i * step + 7) % n).collect()
}

#[test]
fn empty_tree_has_no_keys() {
    let t = BPTree::<3, u32, u32>::new();
    assert_eq!(t.keys_in_order(), Vec::<u32>::new());
    assert_eq!(t.search(&1), None);
    assert!(!t.contains(&1));
}

#[test]
fn basic_split_chain_in_order() {
    let mut t = BPTree::<3, u32, u32>::new();
    for k in [1, 2, 3, 4, 5] {
        t.insert(k, k);
    }
    assert_eq!(t.keys_in_order(), vec![1, 2, 3, 4, 5]);
    for k in 1..=5 {
        assert_eq!(t.search(&k), Some(k));
    }
    assert_eq!(t.search(&6), None);
}

#[test]
fn reverse_insert_in_order() {
    let mut t = BPTree::<3, u32, u32>::new();
    for k in [4, 3, 2, 1, 0] {
        t.insert(k, k);
    }
    assert_eq!(t.keys_in_order(), vec![0, 1, 2, 3, 4]);
}

#[test]
fn deletion_with_merge() {
    let mut t = BPTree::<3, u32, u32>::new();
    for k in [1, 2, 3, 4, 5] {
        t.insert(k, k);
    }
    t.remove(&2);
    assert_eq!(t.search(&2), None);
    for k in [1, 3, 4, 5] {
        assert_eq!(t.search(&k), Some(k));
    }
    assert_eq!(t.keys_in_order(), vec![1, 3, 4, 5]);
}

#[test]
fn deletion_of_separator_key() {
    let mut t = BPTree::<3, u32, u32>::new();
    for k in [1, 2, 3, 5, 44, 197, 438] {
        t.insert(k, k);
    }
    t.remove(&2);
    assert_eq!(t.search(&2), None);
    assert_eq!(t.keys_in_order(), vec![1, 3, 5, 44, 197, 438]);
    for k in [1, 3, 5, 44, 197, 438] {
        assert_eq!(t.search(&k), Some(k));
    }
}

#[test]
fn sparse_deletion_fanout_six() {
    let mut t = BPTree::<6, u32, u32>::new();
    for k in [1, 2, 3, 5, 44, 197, 438, 50, 60] {
        t.insert(k, k);
    }
    t.remove(&2);
    assert_eq!(t.keys_in_order(), vec![1, 3, 5, 44, 50, 60, 197, 438]);
}

#[test]
fn duplicate_insert_keeps_first_value() {
    let mut t = BPTree::<3, u32, u32>::new();
    t.insert(7, 7);
    let before = format!("{:?}", t);
    t.insert(7, 99);
    assert_eq!(t.search(&7), Some(7));
    assert_eq!(format!("{:?}", t), before);
}

#[test]
fn insert_then_search_finds_value() {
    let mut t = BPTree::<4, u32, u64>::new();
    for k in scrambled(50, 7) {
        t.insert(k, (k as u64) * 10 + 1);
        assert_eq!(t.search(&k), Some((k as u64) * 10 + 1));
    }
    t.insert(3, 5);
    assert_eq!(t.search(&3), Some(31));
}

#[test]
fn remove_then_search_others_kept() {
    let mut t = BPTree::<3, u32, u32>::new();
    for k in scrambled(40, 3) {
        t.insert(k, k + 100);
    }
    t.remove(&17);
    assert_eq!(t.search(&17), None);
    for k in 0..40 {
        if k != 17 {
            assert_eq!(t.search(&k), Some(k + 100));
        }
    }
}

#[test]
fn remove_absent_leaves_tree_unchanged() {
    let mut t = BPTree::<3, u32, u32>::new();
    for k in [10, 20, 30, 40, 50, 60] {
        t.insert(k, k);
    }
    let before = format!("{:?}", t);
    t.remove(&35);
    assert_eq!(format!("{:?}", t), before);
    let before = format!("{:?}", t);
    t.insert(40, 0);
    assert_eq!(format!("{:?}", t), before);
}

#[test]
fn permutations_give_same_order() {
    let mut a = BPTree::<3, u32, u32>::new();
    let mut b = BPTree::<3, u32, u32>::new();
    let mut c = BPTree::<5, u32, u32>::new();
    for k in scrambled(60, 7) {
        a.insert(k, k);
    }
    for k in (0..60).rev() {
        b.insert(k, k);
    }
    for k in scrambled(60, 11) {
        c.insert(k, k);
    }
    let sorted: Vec<u32> = (0..60).collect();
    assert_eq!(a.keys_in_order(), sorted);
    assert_eq!(b.keys_in_order(), sorted);
    assert_eq!(c.keys_in_order(), sorted);
}

#[test]
fn remove_everything_then_reuse() {
    let mut t = BPTree::<3, u32, u32>::new();
    for k in scrambled(30, 7) {
        t.insert(k, k);
    }
    for k in scrambled(30, 11) {
        t.remove(&k);
        assert_eq!(t.search(&k), None);
    }
    assert_eq!(t.keys_in_order(), Vec::<u32>::new());
    t.insert(5, 6);
    assert_eq!(t.search(&5), Some(6));
    assert_eq!(t.keys_in_order(), vec![5]);
}

#[test]
fn mixed_operations_across_fanouts() {
    fn run<const F: usize>() {
        let mut t = BPTree::<F, u32, u32>::new();
        let mut model = std::collections::BTreeMap::new();
        for (n, k) in scrambled(200, 13).into_iter().enumerate() {
            t.insert(k, k * 2);
            model.entry(k).or_insert(k * 2);
            if n % 3 == 0 {
                let r = (k * 7) % 200;
                t.remove(&r);
                model.remove(&r);
            }
        }
        let expected: Vec<u32> = model.keys().copied().collect();
        assert_eq!(t.keys_in_order(), expected);
        for k in 0..200 {
            assert_eq!(t.search(&k), model.get(&k).copied());
        }
    }
    run::<3>();
    run::<4>();
    run::<5>();
    run::<6>();
    run::<9>();
}

#[test]
fn signed_and_wide_keys() {
    let mut t = BPTree::<4, i64, &str>::new();
    t.insert(-5, "a");
    t.insert(10, "b");
    t.insert(-100, "c");
    t.insert(0, "d");
    t.insert(7, "e");
    assert_eq!(t.keys_in_order(), vec![-100, -5, 0, 7, 10]);
    assert_eq!(t.search(&-100), Some("c"));
    t.remove(&0);
    assert_eq!(t.keys_in_order(), vec![-100, -5, 7, 10]);
}

#[test]
fn leaf_chain_links_are_reciprocal() {
    let mut t = BPTree::<3, u32, u32>::new();
    for k in scrambled(40, 7) {
        t.insert(k, k);
    }
    for k in [3, 9, 27, 30, 31, 12] {
        t.remove(&k);
    }
    let links = t.chain_links();
    assert!(links.len() > 1);
    assert_eq!(links[0].1, None);
    assert_eq!(links[links.len() - 1].2, None);
    for j in 0..links.len() - 1 {
        assert_eq!(links[j].2, Some(links[j + 1].0));
        assert_eq!(links[j + 1].1, Some(links[j].0));
    }
}

#[test]
fn basic_split_chain_height_two() {
    let mut t = BPTree::<3, u32, u32>::new();
    assert_eq!(t.height(), 0);
    for k in [1, 2, 3, 4, 5] {
        t.insert(k, k);
    }
    assert_eq!(t.height(), 2);
}

#[test]
fn deletion_with_merge_height_drops_at_most_one() {
    let mut t = BPTree::<3, u32, u32>::new();
    for k in [1, 2, 3, 4, 5] {
        t.insert(k, k);
    }
    let before = t.height();
    t.remove(&2);
    let after = t.height();
    assert!(after <= before && after + 1 >= before);
    assert_eq!(after, 1);
    assert_eq!(t.keys_in_order(), vec![1, 3, 4, 5]);
}
