use std::collections::BTreeMap;

use rbtree::RedBlackTree;

fn build(keys: &[u64]) -> RedBlackTree<u64, u64> {
    let mut m = RedBlackTree::new();
    for &k in keys {
        let (next, was_new) = m.insert(k, k * 10);
        assert!(was_new);
        m = next;
    }
    m
}

fn assert_invariants(m: &RedBlackTree<u64, u64>) {
    assert!(m.persistent_colors());
    assert!(m.balanced());
    assert!(m.no_red_red());
}

fn seven_key_map() -> RedBlackTree<u64, u64> {
    build(&[5, 3, 8, 1, 4, 7, 9])
}

#[test]
fn test_insert_copy() {
    let mut m = RedBlackTree::<u64, u64>::new();
    assert_eq!(m.len(), 0);
    for i in 0..200u64 {
        let key = (i * 37) % 211;
        let (next, was_new) = m.insert(key, key + 1);
        assert!(was_new);
        m = next;
        assert_eq!(m.len(), (i + 1) as usize);
        assert_eq!(m.find(&key), Some(&(key + 1)));
        assert_invariants(&m);
    }
    for i in 0..200u64 {
        let key = (i * 37) % 211;
        assert_eq!(m.find(&key), Some(&(key + 1)));
    }
    assert_eq!(m.find(&1000), None);
}

#[test]
fn test_insert_overwrite_copy() {
    let mut m = RedBlackTree::<u64, u64>::new();
    for key in 0..100u64 {
        m = m.insert(key, key).0;
    }
    assert_eq!(m.len(), 100);
    for key in 0..100u64 {
        let (next, was_new) = m.insert(key, key + 1000);
        assert!(!was_new);
        m = next;
        assert_eq!(m.len(), 100);
        assert_eq!(m.find(&key), Some(&(key + 1000)));
        assert_invariants(&m);
    }
    for key in 0..100u64 {
        assert_eq!(m.find(&key), Some(&(key + 1000)));
    }
}

#[test]
fn test_remove_copy() {
    let mut m = RedBlackTree::<u64, u64>::new();
    for key in 0..150u64 {
        m = m.insert(key, key * 2).0;
    }
    for key in 0..150u64 {
        let (next, was_there) = m.remove(&key);
        assert!(was_there);
        m = next;
        assert_eq!(m.len(), (149 - key) as usize);
        assert_eq!(m.find(&key), None);
        assert_invariants(&m);
        let (again, was_there) = m.clone().remove(&key);
        assert!(!was_there);
        assert_eq!(again.len(), m.len());
    }
    assert_eq!(m.len(), 0);
}

#[test]
fn test_random_copy() {
    let mut state: u64 = 0x2545_f491_4f6c_dd1d;
    let mut step = move || {
        state ^= state << 13;
        state ^= state >> 7;
        state ^= state << 17;
        state
    };
    let mut m = RedBlackTree::<u64, u64>::new();
    let mut model: BTreeMap<u64, u64> = BTreeMap::new();
    for round in 0..4000u64 {
        let key = step() % 300;
        if step() % 3 == 0 {
            let (next, was_there) = m.remove(&key);
            assert_eq!(was_there, model.remove(&key).is_some());
            m = next;
        } else {
            let (next, was_new) = m.insert(key, round);
            assert_eq!(was_new, model.insert(key, round).is_none());
            m = next;
        }
        assert_eq!(m.len(), model.len());
        assert_invariants(&m);
        if round % 97 == 0 {
            for probe in 0..300u64 {
                assert_eq!(m.find(&probe), model.get(&probe));
            }
        }
    }
    for probe in 0..300u64 {
        assert_eq!(m.find(&probe), model.get(&probe));
    }
}

#[test]
fn empty_map_finds_nothing() {
    let m = RedBlackTree::<u64, u64>::new();
    assert_eq!(m.len(), 0);
    assert_eq!(m.find(&0), None);
    assert_eq!(m.find(&u64::MAX), None);
    assert_invariants(&m);
}

#[test]
fn remove_on_empty_map() {
    let m = RedBlackTree::<u64, u64>::new();
    let (after, was_there) = m.remove(&7);
    assert!(!was_there);
    assert_eq!(after.len(), 0);
    assert_eq!(after.find(&7), None);
    assert_invariants(&after);
}

#[test]
fn remove_from_single_element_map() {
    let m = RedBlackTree::<u64, u64>::new().insert(42, 1).0;
    assert_eq!(m.len(), 1);
    let (after, was_there) = m.remove(&42);
    assert!(was_there);
    assert_eq!(after.len(), 0);
    assert_eq!(after.find(&42), None);
    assert_invariants(&after);
}

#[test]
fn repeated_overwrite_keeps_size() {
    let mut m = build(&[2, 1, 3]);
    for round in 0..50u64 {
        let (next, was_new) = m.insert(2, round);
        assert!(!was_new);
        m = next;
        assert_eq!(m.len(), 3);
        assert_eq!(m.find(&2), Some(&round));
    }
    assert_eq!(m.find(&1), Some(&10));
    assert_eq!(m.find(&3), Some(&30));
}

#[test]
fn remove_absent_key_changes_nothing() {
    let m = seven_key_map();
    let (after, was_there) = m.clone().remove(&6);
    assert!(!was_there);
    assert_eq!(after.len(), 7);
    for k in [1u64, 3, 4, 5, 7, 8, 9] {
        assert_eq!(after.find(&k), m.find(&k));
    }
    assert_eq!(after.find(&6), None);
    assert_invariants(&after);
}

#[test]
fn seven_keys_inserted() {
    let m = seven_key_map();
    assert_eq!(m.len(), 7);
    assert_eq!(m.find(&4), Some(&40));
    assert!(m.persistent_colors());
    assert!(m.balanced());
    assert!(m.no_red_red());
    for k in [5u64, 3, 8, 1, 4, 7, 9] {
        assert_eq!(m.find(&k), Some(&(k * 10)));
    }
    for k in [0u64, 2, 6, 10] {
        assert_eq!(m.find(&k), None);
    }
}

#[test]
fn ascending_inserts_stay_balanced() {
    let mut m = RedBlackTree::<u64, u64>::new();
    for k in 1..=16u64 {
        m = m.insert(k, k).0;
        assert!(m.persistent_colors());
        assert!(m.balanced());
        assert!(m.no_red_red());
        assert_eq!(m.len(), k as usize);
    }
    for k in 1..=16u64 {
        assert_eq!(m.find(&k), Some(&k));
    }
}

#[test]
fn descending_inserts_stay_balanced() {
    let mut m = RedBlackTree::<u64, u64>::new();
    for k in (1..=16u64).rev() {
        m = m.insert(k, k).0;
        assert!(m.persistent_colors());
        assert!(m.balanced());
        assert!(m.no_red_red());
        assert_eq!(m.len(), (17 - k) as usize);
    }
    for k in 1..=16u64 {
        assert_eq!(m.find(&k), Some(&k));
    }
}

#[test]
fn remove_the_root_key() {
    let m = seven_key_map();
    let (after, was_there) = m.remove(&5);
    assert!(was_there);
    assert_eq!(after.len(), 6);
    assert_eq!(after.find(&5), None);
    assert_invariants(&after);
    for k in [3u64, 8, 1, 4, 7, 9] {
        assert_eq!(after.find(&k), Some(&(k * 10)));
    }
}

#[test]
fn thousand_keys_then_remove_the_even_ones() {
    let mut m = RedBlackTree::<u64, u64>::new();
    for k in 1..=1000u64 {
        m = m.insert(k, k + 7).0;
    }
    assert_eq!(m.len(), 1000);
    assert_invariants(&m);
    for k in (2..=1000u64).step_by(2) {
        let (next, was_there) = m.remove(&k);
        assert!(was_there);
        m = next;
        assert_invariants(&m);
    }
    assert_eq!(m.len(), 500);
    for k in 1..=1000u64 {
        if k % 2 == 1 {
            assert_eq!(m.find(&k), Some(&(k + 7)));
        } else {
            assert_eq!(m.find(&k), None);
        }
    }
}

#[test]
fn snapshot_survives_insert() {
    let m = seven_key_map();
    let m2 = m.clone().insert(2, 20).0;
    assert_eq!(m.find(&2), None);
    assert_eq!(m2.find(&2), Some(&20));
    assert_eq!(m.len(), 7);
    assert_eq!(m2.len(), 8);
    assert_invariants(&m);
    assert_invariants(&m2);
}

#[test]
fn snapshots_survive_many_updates() {
    let mut versions: Vec<RedBlackTree<u64, u64>> = Vec::new();
    let mut m = RedBlackTree::<u64, u64>::new();
    versions.push(m.clone());
    for k in 0..64u64 {
        m = m.insert(k, k).0;
        versions.push(m.clone());
    }
    for k in 0..64u64 {
        m = m.remove(&k).0;
    }
    assert_eq!(m.len(), 0);
    for (n, version) in versions.iter().enumerate() {
        assert_eq!(version.len(), n);
        assert_invariants(version);
        for k in 0..64u64 {
            if (k as usize) < n {
                assert_eq!(version.find(&k), Some(&k));
            } else {
                assert_eq!(version.find(&k), None);
            }
        }
    }
}

#[test]
fn insert_twice_takes_the_second_value() {
    for start in [vec![], vec![1u64, 2, 3], vec![9u64, 4, 6, 5]] {
        let m = build(&start);
        let before = m.len();
        let fresh = m.find(&5).is_none();
        let (m1, new1) = m.insert(5, 111);
        let (m2, new2) = m1.insert(5, 222);
        assert_eq!(new1, fresh);
        assert!(!new2);
        assert_eq!(m2.find(&5), Some(&222));
        assert_eq!(m2.len(), before + if fresh { 1 } else { 0 });
    }
}

#[test]
fn remove_twice_is_remove_once() {
    let m = seven_key_map();
    let (once, first) = m.remove(&3);
    let (twice, second) = once.clone().remove(&3);
    assert!(first);
    assert!(!second);
    assert_eq!(twice.len(), once.len());
    for k in 0..12u64 {
        assert_eq!(twice.find(&k), once.find(&k));
    }
}

#[test]
fn insert_then_remove_a_fresh_key() {
    let m = seven_key_map();
    let (with, was_new) = m.clone().insert(6, 60);
    assert!(was_new);
    let (without, was_there) = with.remove(&6);
    assert!(was_there);
    assert_eq!(without.len(), m.len());
    for k in 0..12u64 {
        assert_eq!(without.find(&k), m.find(&k));
    }
    assert_invariants(&without);
}

#[test]
fn insertion_order_does_not_show() {
    let orders: [[u64; 5]; 4] = [[1, 2, 3, 4, 5], [5, 4, 3, 2, 1], [3, 1, 5, 2, 4], [2, 5, 1, 4, 3]];
    let first = build(&orders[0]);
    for order in orders.iter() {
        let m = build(order);
        assert_eq!(m.len(), 5);
        for k in 0..8u64 {
            assert_eq!(m.find(&k), first.find(&k));
        }
    }
}

#[test]
fn removal_of_every_key_in_every_position() {
    for n in 1..40u64 {
        let keys: Vec<u64> = (0..n).collect();
        let full = build(&keys);
        for victim in 0..n {
            let (after, was_there) = full.clone().remove(&victim);
            assert!(was_there);
            assert_eq!(after.len(), (n - 1) as usize);
            assert_invariants(&after);
            for k in 0..n {
                if k == victim {
                    assert_eq!(after.find(&k), None);
                } else {
                    assert_eq!(after.find(&k), Some(&(k * 10)));
                }
            }
        }
    }
}

#[test]
fn keys_of_another_ordered_type() {
    let mut m = RedBlackTree::<String, Vec<u8>>::new();
    for word in ["pear", "apple", "quince", "fig", "plum", "apple"] {
        m = m.insert(word.to_string(), word.as_bytes().to_vec()).0;
    }
    assert_eq!(m.len(), 5);
    assert_eq!(m.find(&"fig".to_string()), Some(&b"fig".to_vec()));
    assert_eq!(m.find(&"grape".to_string()), None);
    let (m, was_there) = m.remove(&"pear".to_string());
    assert!(was_there);
    assert_eq!(m.len(), 4);
    assert_eq!(m.find(&"pear".to_string()), None);
    assert!(m.persistent_colors());
    assert!(m.balanced());
    assert!(m.no_red_red());
}
