use jostletree::jostletree::JostleTree;
use rand::{Rng, SeedableRng};
use std::collections::hash_map::DefaultHasher;
use std::hash::{Hash, Hasher};

fn sequence_equal(v: &JostleTree<usize, char>, t: &[char]) -> bool {
    if v.len() != t.len() {
        return false;
    }
    let mut it = v.slot_iter();
    for i in t.iter() {
        match it.next() {
            Some(a) => {
                if a.v != *i {
                    return false;
                }
            }
            None => break,
        }
    }
    true
}

fn simple_insertions() -> JostleTree<usize, char> {
    let mut candidate = JostleTree::<usize, char>::new();
    candidate.insert_back(3, 'a');
    candidate.insert_back(3, 'b');
    candidate.insert_back(3, 'c');
    candidate.insert_back(3, 'd');
    candidate
}

fn slots(t: &JostleTree<usize, char>) -> Vec<(usize, char)> {
    let mut out = Vec::new();
    let mut it = t.slot_iter();
    while let Some(b) = it.next() {
        out.push((b.get_span(), *b.element()));
    }
    out
}

#[test]
fn readme_test() {
    let mut candidate = JostleTree::<usize, char>::new();
    candidate.insert_back(1, 'a');
    candidate.insert_back(9, 'b');
    candidate.insert_back(1, 'c');
    candidate.insert_back(1, 'd');
    assert_eq!(candidate.get_item(5).unwrap(), &'b');
    assert_eq!(candidate.get_item(10).unwrap(), &'c');
    assert_eq!(candidate.get_item(11).unwrap(), &'d');

    candidate.insert_at(5, 1, 'e');
    assert_eq!(candidate.get_item(1).unwrap(), &'e');
}

#[test]
fn basic_tests() {
    let candidate = simple_insertions();
    assert!(candidate.is_balanced());
    assert!(candidate.len() == 4);
    assert_eq!(candidate.total_span(), 3 * 4);
}

#[test]
fn iteration_and_order() {
    let tree = simple_insertions();
    let mut it = tree.slot_iter();
    for i in ['a', 'b', 'c'].iter() {
        let sl = it.next().unwrap();
        assert_eq!(&sl.v, i);
    }
}

fn hash_of<T: Hash>(v: &T) -> u64 {
    let mut s = DefaultHasher::new();
    v.hash(&mut s);
    s.finish()
}

#[test]
fn hashes() {
    let c1 = simple_insertions();
    let mut c2 = simple_insertions();
    c2.insert_at(7, 7, 'a');
    assert!(hash_of(&c1) != hash_of(&c2));
    let c3 = simple_insertions();
    assert!(hash_of(&c1) == hash_of(&c3));
}

#[test]
fn removal() {
    let mut candidate = simple_insertions();
    {
        let c = candidate.get_slot_mut(4).unwrap();
        c.remove();
    }
    assert!(sequence_equal(&candidate, &['a', 'c', 'd']));
}

fn ease_in_out(v: f32) -> f32 {
    if v < 0.5 {
        v * v
    } else {
        let vso = v - 1.;
        1. - vso * vso
    }
}

#[test]
fn jostletree_big_attack() {
    let mut candidate = JostleTree::<usize, u64>::new();
    let seed: u64 = rand::random();
    println!("using rng seed: {}.", seed);
    let mut katy = rand::rngs::StdRng::seed_from_u64(seed);
    let mut rand_unit = || katy.gen::<f32>();
    let cycles: usize = 30;
    let cyclesize: usize = 300;
    let input_size: usize = 1000;
    let mut i: usize = 0;
    loop {
        let o = (candidate.total_span() as f32 * rand_unit()).floor() as usize;
        let rspan = 80. * ease_in_out(rand_unit());
        candidate.insert_at(o, (rspan * rspan) as usize, i as u64);
        i += 1;
        if i >= input_size {
            break;
        }
    }
    for _ in 0..cycles {
        for _ in 0..cyclesize {
            let pos = (candidate.total_span() as f32 * rand_unit()).floor() as usize;
            candidate.remove_at(pos);
        }
        for _ in 0..cyclesize {
            let o = candidate.total_span() as f32 * rand_unit();
            let rspan = 80. * ease_in_out(rand_unit());
            candidate.insert_at((o * rspan * rspan).floor() as usize, 0, i as u64);
            i += 1;
        }
    }

    assert_eq!(candidate.len(), input_size as usize);
    assert!(candidate.is_balanced());
    assert_eq!(candidate.sum_of_spans(), candidate.total_span());
}

#[test]
fn insert_front_and_back_order() {
    let mut t = JostleTree::<usize, char>::new();
    t.insert_back(2, 'b');
    t.insert_front(1, 'a');
    t.insert_back(3, 'c');
    assert_eq!(slots(&t), vec![(1, 'a'), (2, 'b'), (3, 'c')]);
    assert_eq!(t.total_span(), 6);
    assert!(!t.is_empty());
}

#[test]
fn item_found_at_every_offset_is_the_one_covering_it() {
    let t = simple_insertions();
    let expected = ['a', 'a', 'a', 'b', 'b', 'b', 'c', 'c', 'c', 'd', 'd', 'd'];
    for (o, e) in expected.iter().enumerate() {
        assert_eq!(t.get_item(o).unwrap(), e);
    }
    // Beyond the end: the last item.
    assert_eq!(t.get_item(12).unwrap(), &'d');
    assert_eq!(t.get_item(1000).unwrap(), &'d');
}

#[test]
fn empty_tree_answers_none() {
    let mut t = JostleTree::<usize, char>::new();
    assert!(t.is_empty());
    assert_eq!(t.len(), 0);
    assert_eq!(t.total_span(), 0);
    assert!(t.get_item(0).is_none());
    assert!(t.get_slot_mut(3).is_none());
    assert!(t.remove_at(3).is_none());
}

#[test]
fn insert_at_goes_before_what_covers_the_offset() {
    let mut t = simple_insertions();
    {
        let h = t.insert_at(4, 2, 'x');
        assert_eq!(h.index, 1);
        assert_eq!(h.offset(), 3);
        assert_eq!(*h.element(), 'x');
    }
    assert_eq!(slots(&t), vec![(3, 'a'), (2, 'x'), (3, 'b'), (3, 'c'), (3, 'd')]);
    // An offset at an item's end goes after it.
    let h = t.insert_at(3, 1, 'y');
    assert_eq!(h.index, 1);
}

#[test]
fn set_span_jostles_the_items_after() {
    let mut t = simple_insertions();
    {
        let mut h = t.get_slot_mut(4).unwrap();
        assert_eq!(h.get_span(), 3);
        assert_eq!(h.offset(), 3);
        h.set_span(1);
        assert_eq!(h.get_span(), 1);
    }
    assert_eq!(t.total_span(), 10);
    assert_eq!(t.get_item(4).unwrap(), &'c');
    {
        let mut h = t.get_slot_mut(4).unwrap();
        assert_eq!(*h.element(), 'c');
        assert_eq!(h.offset(), 4);
        h.set_span(10);
    }
    assert_eq!(t.total_span(), 17);
    assert_eq!(t.sum_of_spans(), 17);
    assert_eq!(t.get_item(13).unwrap(), &'c');
    assert_eq!(t.get_item(14).unwrap(), &'d');
}

#[test]
fn slot_handle_walks_and_edits() {
    let mut t = simple_insertions();
    {
        let mut h = t.get_slot_mut(0).unwrap();
        *h.element_mut() = 'z';
        let mut h = h.next().unwrap();
        assert_eq!(*h.element(), 'b');
        *h.element_mut() = 'y';
        let h = h.next().unwrap().next().unwrap();
        assert_eq!(*h.element(), 'd');
        assert!(h.next().is_none());
    }
    assert_eq!(slots(&t), vec![(3, 'z'), (3, 'y'), (3, 'c'), (3, 'd')]);
}

#[test]
fn remove_at_returns_the_item_and_closes_the_gap() {
    let mut t = simple_insertions();
    assert_eq!(t.remove_at(7), Some('c'));
    assert_eq!(slots(&t), vec![(3, 'a'), (3, 'b'), (3, 'd')]);
    assert_eq!(t.get_item(6).unwrap(), &'d');
    assert_eq!(t.total_span(), 9);
    assert_eq!(t.remove_at(100), Some('d'));
    t.clear();
    assert!(t.is_empty());
}

#[test]
fn from_vec_keeps_order() {
    let t = JostleTree::from_vec(vec![(1usize, 'p'), (0, 'q'), (5, 'r')]);
    assert_eq!(slots(&t), vec![(1, 'p'), (0, 'q'), (5, 'r')]);
    assert_eq!(t.get_item(1).unwrap(), &'r');
    assert!(t.is_balanced());
}

#[test]
fn many_removals_by_index_stay_balanced() {
    let mut t = JostleTree::<u32, u32>::new();
    for i in 0..500u32 {
        t.insert_back(i % 7, i);
    }
    assert!(t.is_balanced());
    while t.len() > 100 {
        let mid = t.total_span() / 2;
        t.remove_at(mid);
        assert!(t.is_balanced());
    }
    assert_eq!(t.sum_of_spans(), t.total_span());
}

#[test]
fn trees_with_the_same_slots_compare_equal() {
    let a = simple_insertions();
    let mut b = JostleTree::<usize, char>::new();
    b.insert_front(3, 'd');
    b.insert_front(3, 'c');
    b.insert_front(3, 'b');
    b.insert_front(3, 'a');
    assert!(a == b);
    {
        let mut h = b.get_slot_mut(0).unwrap();
        h.set_span(2);
    }
    assert!(a != b);
    let mut c = simple_insertions();
    {
        let mut h = c.get_slot_mut(11).unwrap();
        *h.element_mut() = 'e';
    }
    assert!(a != c);
}

#[test]
fn removing_through_the_insert_handle_gives_back_the_slots() {
    let mut t = simple_insertions();
    let before = slots(&t);
    let h = t.insert_at(5, 4, 'n');
    assert_eq!(*h.element(), 'n');
    assert_eq!(h.remove(), 'n');
    assert_eq!(slots(&t), before);
}

#[test]
fn read_after_insert_finds_the_new_item() {
    let mut t = simple_insertions();
    let start = {
        let h = t.insert_at(8, 2, 'n');
        h.offset()
    };
    assert_eq!(start, 6);
    assert_eq!(t.get_item(start).unwrap(), &'n');
    assert_eq!(t.get_item(start + 1).unwrap(), &'n');
    assert_eq!(t.get_item(start + 2).unwrap(), &'c');
}

#[test]
fn iteration_gives_each_slot_its_offset() {
    let mut t = JostleTree::<usize, char>::new();
    t.insert_back(2, 'a');
    t.insert_back(0, 'b');
    t.insert_back(5, 'c');
    t.insert_back(1, 'd');
    let mut it = t.slot_iter();
    let mut seen = Vec::new();
    while let Some((o, b)) = it.next_with_offset() {
        seen.push((o, b.get_span(), *b.element()));
    }
    assert_eq!(seen, vec![(0, 2, 'a'), (2, 0, 'b'), (2, 5, 'c'), (7, 1, 'd')]);
    assert!(it.next().is_none());
}

#[test]
fn hashing_follows_the_slots_not_the_shape() {
    let front_built = {
        let mut b = JostleTree::<usize, char>::new();
        b.insert_front(3, 'd');
        b.insert_front(3, 'c');
        b.insert_front(3, 'b');
        b.insert_front(3, 'a');
        b
    };
    assert_eq!(hash_of(&simple_insertions()), hash_of(&front_built));
    let mut manual = DefaultHasher::new();
    for (s, c) in [(3usize, 'a'), (3, 'b'), (3, 'c'), (3, 'd')] {
        s.hash(&mut manual);
        c.hash(&mut manual);
    }
    assert_eq!(hash_of(&simple_insertions()), manual.finish());
}

#[test]
fn signed_spans_and_negative_offsets() {
    let mut t = JostleTree::<i64, char>::new();
    t.insert_back(2, 'x');
    t.insert_back(2, 'y');
    let e = JostleTree::<i64, char>::new();
    assert_eq!(t.get_item(-5), Some(&'x'));
    assert_eq!(t.get_item(3), Some(&'y'));
    assert_eq!(t.get_item(100), Some(&'y'));
    assert_eq!(e.get_item(0), None);
    {
        let h = t.insert_at(-3, 1, 'w');
        assert_eq!(h.index, 0);
    }
    let mut it = t.slot_iter();
    let mut seen = Vec::new();
    while let Some((o, b)) = it.next_with_offset() {
        seen.push((o, *b.element()));
    }
    assert_eq!(seen, vec![(0, 'w'), (1, 'x'), (3, 'y')]);
    assert_eq!(t.remove_at(-1), Some('w'));
    assert_eq!(t.total_span(), 4);
}

#[test]
fn insert_at_beyond_the_end_appends_like_insert_back() {
    let mut t1 = simple_insertions();
    let mut t2 = simple_insertions();
    let end = t1.total_span();
    t1.insert_at(end, 4, 'z');
    t2.insert_back(4, 'z');
    assert_eq!(slots(&t1), slots(&t2));
    let mut t3 = simple_insertions();
    t3.insert_at(end + 50, 4, 'z');
    assert_eq!(slots(&t3), slots(&t2));
    assert_eq!(slots(&t3).last(), Some(&(4, 'z')));
}

#[test]
fn iterator_keeps_the_running_offset() {
    let t = simple_insertions();
    let mut it = t.slot_iter();
    assert_eq!(it.offset(), 0);
    let mut count = 0;
    while let Some(b) = it.next() {
        count += 1;
        assert_eq!(it.offset(), 3 * count);
        assert_eq!(b.get_span(), 3);
    }
    assert_eq!(count, 4);
    assert_eq!(it.offset(), t.total_span());
}
