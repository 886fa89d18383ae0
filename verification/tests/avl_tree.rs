#![allow(non_snake_case)]

use jostletree::avltree::AVLTree;
use std::collections::hash_map::DefaultHasher;
use std::hash::{Hash, Hasher};

fn is_sorted(tree: &AVLTree<u64>) -> bool {
    let mut it = tree.iter();
    let mut prev = match it.next() {
        Some(p) => *p,
        None => return true,
    };
    while let Some(n) = it.next() {
        if !(prev < *n) {
            return false;
        }
        prev = *n;
    }
    true
}

fn collect(tree: &AVLTree<u64>) -> Vec<u64> {
    let mut out = Vec::new();
    let mut it = tree.iter();
    while let Some(x) = it.next() {
        out.push(*x);
    }
    out
}

#[test]
fn AVLTree_many_insert_and_chech_has() {
    let mut candidate: AVLTree<u64> = AVLTree::new();
    candidate.insert(2);
    candidate.insert(3);
    candidate.insert(2);
    candidate.insert(4);
    candidate.insert(5);
    candidate.insert(6);
    candidate.insert(10);
    candidate.insert(11);
    candidate.insert(9);
    println!("{:?}", collect(&candidate));
    assert!(candidate.is_balanced());
    println!("{}", candidate.element_count());
    assert!(candidate.element_count() == 8);
    assert!(!candidate.contains(&1u64));
    assert!(candidate.contains(&5u64));
    assert!(candidate.contains(&9u64));
}

#[test]
fn AVLTree_one_redundancy() {
    let mut candidate = AVLTree::<u64>::new();
    candidate.insert(50);
    candidate.insert(40);
    candidate.insert(45);
    candidate.insert(47);
    candidate.insert(47);
    assert!(candidate.is_balanced());
    assert!(candidate.element_count() == 4);
}

#[test]
fn AVLTree_redundances() {
    let mut candidate = AVLTree::<u64>::new();
    candidate.insert(2);
    candidate.remove(2);
    candidate.remove(2);
    candidate.insert(3);
    candidate.insert(3);
    assert!(candidate.element_count() == 1);
}

#[test]
fn AVLTree_initially_empty() {
    let candidate = AVLTree::<u64>::new();
    assert!(candidate.empty());
}

#[test]
fn iterating_and_sorting() {
    let mut candidate = AVLTree::<u64>::new();
    candidate.insert(5);
    candidate.insert(9);
    candidate.insert(38);
    candidate.insert(32);
    candidate.insert(0);
    candidate.insert(0);
    let expected_ordering: &[u64] = &[0, 5, 9, 32, 38, 666];
    // Pairs up the values with the expected ones, stopping at the shorter.
    let mut it = candidate.iter();
    let mut all_equal = true;
    for b in expected_ordering.iter() {
        match it.next() {
            Some(a) => {
                if a != b {
                    all_equal = false;
                }
            }
            None => break,
        }
    }
    assert!(all_equal);
}

#[test]
fn AVLTree_not_empty_when_given_one() {
    let mut candidate = AVLTree::<u64>::new();
    candidate.insert(1);
    assert!(!candidate.empty());
}

#[test]
fn AVLTree_has_one_when_given_one() {
    let mut candidate = AVLTree::<u64>::new();
    candidate.insert(1);
    assert!(candidate.element_count() == 1);
}

#[test]
fn AVLTree_big_attack() {
    let mut candidate = AVLTree::<u64>::new();
    const SET_SIZE: usize = 700usize;
    const INPUT_SIZE: usize = 1400usize;
    let mut list: Vec<u64> = vec![0; INPUT_SIZE];
    for i in 0usize..SET_SIZE {
        list[i] = i as u64;
    }
    for i in SET_SIZE..INPUT_SIZE {
        list[i] = list[rand::random::<usize>() % SET_SIZE];
    }
    for i in 0usize..INPUT_SIZE - 1 {
        let iplustone = i + 1;
        list.swap(i, iplustone + (rand::random::<usize>() % (INPUT_SIZE - iplustone)));
    }
    //list is now a shuffled list with exactly SET_SIZE unique elements and INPUT_SIZE - SET_SIZE repeats
    for i in list.iter() {
        candidate.insert(*i);
    }
    assert!(candidate.is_balanced());
    assert!(candidate.element_count() == SET_SIZE as u64);
    let removals = 1000u64;
    for i in 0..removals {
        candidate.remove(i);
    }
    assert!(candidate.is_balanced());
    assert!(is_sorted(&candidate));
}

#[test]
fn iteration_gives_values_in_increasing_order() {
    let mut candidate = AVLTree::<u64>::new();
    for v in [40u64, 10, 30, 20, 50, 10, 30] {
        candidate.insert(v);
    }
    assert_eq!(collect(&candidate), vec![10, 20, 30, 40, 50]);
    assert!(is_sorted(&candidate));
}

#[test]
fn remove_takes_out_exactly_one_value() {
    let mut candidate = AVLTree::<u64>::new();
    for v in 0u64..20 {
        candidate.insert(v);
    }
    candidate.remove(7);
    assert_eq!(candidate.element_count(), 19);
    assert!(!candidate.contains(&7));
    let expected: Vec<u64> = (0u64..20).filter(|v| *v != 7).collect();
    assert_eq!(collect(&candidate), expected);
    candidate.remove(100);
    assert_eq!(candidate.element_count(), 19);
    assert!(candidate.is_balanced());
}

#[test]
fn removing_a_node_with_two_children_keeps_the_rest() {
    let mut candidate = AVLTree::<u64>::new();
    for v in [50u64, 30, 70, 20, 40, 60, 80, 35, 45, 65] {
        candidate.insert(v);
    }
    candidate.remove(50);
    candidate.remove(30);
    assert_eq!(collect(&candidate), vec![20, 35, 40, 45, 60, 65, 70, 80]);
    assert_eq!(candidate.element_count(), 8);
    assert!(candidate.is_balanced());
}

#[test]
fn insert_then_contains_and_remove_then_not() {
    let mut candidate = AVLTree::<u64>::new();
    candidate.insert(9);
    assert!(candidate.contains(&9));
    candidate.remove(9);
    assert!(!candidate.contains(&9));
    assert!(candidate.empty());
}

#[test]
fn ascending_inserts_stay_balanced() {
    let mut candidate = AVLTree::<u64>::new();
    for v in 0u64..1000 {
        candidate.insert(v);
    }
    assert!(candidate.is_balanced());
    assert_eq!(candidate.element_count(), 1000);
    for v in (0u64..1000).rev() {
        if v % 3 == 0 {
            candidate.remove(v);
        }
    }
    assert!(candidate.is_balanced());
    assert_eq!(candidate.element_count(), 666);
    assert!(is_sorted(&candidate));
}

#[test]
fn trees_with_the_same_values_compare_equal() {
    let mut a = AVLTree::<u64>::new();
    let mut b = AVLTree::<u64>::new();
    for v in [3u64, 1, 2] {
        a.insert(v);
    }
    for v in [1u64, 2, 3, 2] {
        b.insert(v);
    }
    assert!(a == b);
    b.remove(2);
    b.insert(4);
    assert!(a != b);
}

#[test]
fn equality_compares_up_to_the_smaller_tree() {
    let mut a = AVLTree::<u64>::new();
    let mut b = AVLTree::<u64>::new();
    a.insert(1);
    b.insert(1);
    b.insert(2);
    assert!(a == b);
}

#[test]
fn hashing_feeds_values_in_pre_order() {
    let mut t = AVLTree::<u64>::new();
    t.insert(2);
    t.insert(1);
    t.insert(3);
    let mut a = DefaultHasher::new();
    t.hash(&mut a);
    let mut b = DefaultHasher::new();
    for v in [2u64, 1, 3] {
        v.hash(&mut b);
    }
    assert_eq!(a.finish(), b.finish());
}
