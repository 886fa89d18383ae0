use vstd::prelude::*;
use vstd::arithmetic::power2::{lemma2_to64, lemma_pow2_strictly_increases, lemma_pow2_unfold, pow2};
use vstd::std_specs::cmp::{PartialEqSpec, PartialEqSpecImpl};
use core::hash::{Hash, Hasher};
use crate::hashing::hash_value;
use crate::branch::max2;
use crate::order::{
    lemma_contains_three, lemma_order, lemma_sorted_join, lemma_sorted_remove,
    lemma_sorted_split, lemma_sorted_unique, less, strictly_sorted, total_order_laws,
};

verus! {

/// A node of an AVL tree: a value, the subtrees of the values before and
/// after it, and the height of the subtree that it roots.
#[derive(Debug)]
pub(crate) struct Node<T> {
    v: T,
    deepness: u64,
    left: Option<Box<Node<T>>>,
    right: Option<Box<Node<T>>>,
}

/// The values of a subtree, in order.
spec fn node_seq<T>(l: Option<Box<Node<T>>>) -> Seq<T>
    decreases l,
{
    match l {
        None => Seq::empty(),
        Some(b) => node_seq(b.left) + seq![b.v] + node_seq(b.right),
    }
}

/// The height of a subtree: zero for an empty one.
spec fn node_height<T>(l: Option<Box<Node<T>>>) -> int
    decreases l,
{
    match l {
        None => 0,
        Some(b) => 1 + max2(node_height(b.left), node_height(b.right)),
    }
}

/// Every node records the true height of its subtree, and the heights of
/// its two subtrees differ by at most one.
spec fn shape_wf<T>(l: Option<Box<Node<T>>>) -> bool
    decreases l,
{
    match l {
        None => true,
        Some(b) => {
            &&& shape_wf(b.left)
            &&& shape_wf(b.right)
            &&& b.deepness == node_height(l)
            &&& -1 <= node_height(b.left) - node_height(b.right) <= 1
        },
    }
}

/// The height that a subtree's root records.
spec fn recorded_height<T>(l: Option<Box<Node<T>>>) -> int {
    match l {
        None => 0,
        Some(b) => b.deepness as int,
    }
}

/// Every node's recorded heights of its two subtrees differ by at most one.
spec fn recorded_balanced<T>(l: Option<Box<Node<T>>>) -> bool
    decreases l,
{
    match l {
        None => true,
        Some(b) => {
            &&& -1 <= recorded_height(b.left) - recorded_height(b.right) <= 1
            &&& recorded_balanced(b.left)
            &&& recorded_balanced(b.right)
        },
    }
}

proof fn lemma_height_bound<T>(l: Option<Box<Node<T>>>)
    ensures
        0 <= node_height(l) <= node_seq(l).len(),
    decreases l,
{
    if let Some(b) = l {
        lemma_height_bound(b.left);
        lemma_height_bound(b.right);
    }
}

proof fn lemma_wf_recorded_balanced<T>(l: Option<Box<Node<T>>>)
    requires
        shape_wf(l),
    ensures
        recorded_balanced(l),
    decreases l,
{
    if let Some(b) = l {
        lemma_wf_recorded_balanced(b.left);
        lemma_wf_recorded_balanced(b.right);
        lemma_wf_recorded_height(b.left);
        lemma_wf_recorded_height(b.right);
    }
}

proof fn lemma_wf_recorded_height<T>(l: Option<Box<Node<T>>>)
    requires
        shape_wf(l),
    ensures
        recorded_height(l) == node_height(l),
{
}

/// A subtree of height `h` holds at least `2^(h/2) - 1` values.
proof fn lemma_height_logarithmic<T>(l: Option<Box<Node<T>>>)
    requires
        shape_wf(l),
    ensures
        pow2((node_height(l) / 2) as nat) <= node_seq(l).len() + 1,
    decreases l,
{
    lemma_height_bound(l);
    lemma2_to64();
    if let Some(b) = l {
        lemma_height_bound(b.left);
        lemma_height_bound(b.right);
        lemma_height_logarithmic(b.left);
        lemma_height_logarithmic(b.right);
        let h = node_height(l);
        if h >= 2 {
            let e = ((h - 2) / 2) as nat;
            let el = (node_height(b.left) / 2) as nat;
            let er = (node_height(b.right) / 2) as nat;
            if el > e {
                lemma_pow2_strictly_increases(e, el);
            }
            if er > e {
                lemma_pow2_strictly_increases(e, er);
            }
            lemma_pow2_unfold(e + 1);
            assert(e + 1 == (h / 2) as nat);
        }
    }
}

fn height_of<T>(l: &Option<Box<Node<T>>>) -> (r: u64)
    requires
        shape_wf(*l),
    ensures
        r == node_height(*l),
{
    match l {
        None => 0,
        Some(b) => b.deepness,
    }
}

/// A node above two subtrees whose heights differ by at most one.
fn make_node<T>(left: Option<Box<Node<T>>>, v: T, right: Option<Box<Node<T>>>) -> (r: Box<Node<T>>)
    requires
        shape_wf(left),
        shape_wf(right),
        node_seq(left).len() + 1 + node_seq(right).len() <= u64::MAX,
        -1 <= node_height(left) - node_height(right) <= 1,
    ensures
        shape_wf(Some(r)),
        node_seq(Some(r)) == node_seq(left) + seq![v] + node_seq(right),
        node_height(Some(r)) == 1 + max2(node_height(left), node_height(right)),
{
    let hl = height_of(&left);
    let hr = height_of(&right);
    proof {
        lemma_height_bound(left);
        lemma_height_bound(right);
    }
    let h = if hl >= hr {
        hl + 1
    } else {
        hr + 1
    };
    Box::new(Node { v, deepness: h, left, right })
}

/// A node above a left subtree two levels taller than the right one, rotated
/// to the right (once, or twice where the left subtree leans right).
fn fix_left_heavy<T>(left: Option<Box<Node<T>>>, v: T, right: Option<Box<Node<T>>>) -> (r: Box<
    Node<T>,
>)
    requires
        shape_wf(left),
        shape_wf(right),
        node_seq(left).len() + 1 + node_seq(right).len() <= u64::MAX,
        node_height(left) == node_height(right) + 2,
    ensures
        shape_wf(Some(r)),
        node_seq(Some(r)) == node_seq(left) + seq![v] + node_seq(right),
        node_height(left) <= node_height(Some(r)) <= 1 + node_height(left),
{
    let lb = left.unwrap();
    let Node { v: lv, left: ll, right: lr, .. } = *lb;
    let hll = height_of(&ll);
    let hlr = height_of(&lr);
    if hll >= hlr {
        let nr = make_node(lr, v, right);
        let r = make_node(ll, lv, Some(nr));
        proof {
            assert(node_seq(Some(r)) =~= node_seq(left) + seq![v] + node_seq(right));
        }
        r
    } else {
        let lrb = lr.unwrap();
        proof {
            reveal_with_fuel(shape_wf, 2);
            reveal_with_fuel(node_height, 2);
        }
        let Node { v: lrv, left: lrl, right: lrr, .. } = *lrb;
        let a = make_node(ll, lv, lrl);
        let c = make_node(lrr, v, right);
        let r = make_node(Some(a), lrv, Some(c));
        proof {
            assert(node_seq(Some(r)) =~= node_seq(left) + seq![v] + node_seq(right));
        }
        r
    }
}

/// A node above a right subtree two levels taller than the left one, rotated
/// to the left (once, or twice where the right subtree leans left).
fn fix_right_heavy<T>(left: Option<Box<Node<T>>>, v: T, right: Option<Box<Node<T>>>) -> (r: Box<
    Node<T>,
>)
    requires
        shape_wf(left),
        shape_wf(right),
        node_seq(left).len() + 1 + node_seq(right).len() <= u64::MAX,
        node_height(right) == node_height(left) + 2,
    ensures
        shape_wf(Some(r)),
        node_seq(Some(r)) == node_seq(left) + seq![v] + node_seq(right),
        node_height(right) <= node_height(Some(r)) <= 1 + node_height(right),
{
    let rb = right.unwrap();
    let Node { v: rv, left: rl, right: rr, .. } = *rb;
    let hrl = height_of(&rl);
    let hrr = height_of(&rr);
    if hrr >= hrl {
        let nl = make_node(left, v, rl);
        let r = make_node(Some(nl), rv, rr);
        proof {
            assert(node_seq(Some(r)) =~= node_seq(left) + seq![v] + node_seq(right));
        }
        r
    } else {
        let rlb = rl.unwrap();
        proof {
            reveal_with_fuel(shape_wf, 2);
            reveal_with_fuel(node_height, 2);
        }
        let Node { v: rlv, left: rll, right: rlr, .. } = *rlb;
        let a = make_node(left, v, rll);
        let c = make_node(rlr, rv, rr);
        let r = make_node(Some(a), rlv, Some(c));
        proof {
            assert(node_seq(Some(r)) =~= node_seq(left) + seq![v] + node_seq(right));
        }
        r
    }
}

/// A node above two subtrees whose heights differ by at most two, rotated so
/// that the result is balanced.
fn rebalance<T>(left: Option<Box<Node<T>>>, v: T, right: Option<Box<Node<T>>>) -> (r: Box<Node<T>>)
    requires
        shape_wf(left),
        shape_wf(right),
        node_seq(left).len() + 1 + node_seq(right).len() <= u64::MAX,
        -2 <= node_height(left) - node_height(right) <= 2,
    ensures
        shape_wf(Some(r)),
        node_seq(Some(r)) == node_seq(left) + seq![v] + node_seq(right),
        -1 <= node_height(left) - node_height(right) <= 1 ==> node_height(Some(r)) == 1 + max2(
            node_height(left),
            node_height(right),
        ),
        max2(node_height(left), node_height(right)) <= node_height(Some(r)) <= 1 + max2(
            node_height(left),
            node_height(right),
        ),
{
    let hl = height_of(&left);
    let hr = height_of(&right);
    if hl > hr && hl - hr > 1 {
        fix_left_heavy(left, v, right)
    } else if hr > hl && hr - hl > 1 {
        fix_right_heavy(left, v, right)
    } else {
        make_node(left, v, right)
    }
}

/// What lies in a node's sequence: what lies in either subtree, and its
/// value.
proof fn lemma_node_contains<T>(a: Seq<T>, x: T, b: Seq<T>)
    ensures
        forall|y: T| #[trigger]
            (a + seq![x] + b).contains(y) <==> (a.contains(y) || y == x || b.contains(y)),
{
    assert forall|y: T| #[trigger]
        (a + seq![x] + b).contains(y) <==> (a.contains(y) || y == x || b.contains(y)) by {
        lemma_contains_three(a, x, b, y);
    }
}

/// Adds `v` to a subtree unless it is there already; says whether it added.
fn insert_node<T: Ord>(l: Option<Box<Node<T>>>, v: T) -> (r: (Box<Node<T>>, bool))
    requires
        total_order_laws::<T>(),
        shape_wf(l),
        strictly_sorted(node_seq(l)),
        node_seq(l).len() < u64::MAX,
    ensures
        shape_wf(Some(r.0)),
        strictly_sorted(node_seq(Some(r.0))),
        r.1 == !node_seq(l).contains(v),
        forall|y: T| #[trigger]
            node_seq(Some(r.0)).contains(y) <==> (node_seq(l).contains(y) || y == v),
        node_seq(Some(r.0)).len() == node_seq(l).len() + (if r.1 {
            1int
        } else {
            0int
        }),
        node_height(l) <= node_height(Some(r.0)) <= node_height(l) + 1,
    decreases l,
{
    proof {
        lemma_order::<T>();
    }
    match l {
        None => {
            let r = make_node(None, v, None);
            proof {
                assert(!node_seq(l).contains(v));
                assert(node_seq(Some(r)) =~= seq![v]);
                lemma_node_contains(Seq::<T>::empty(), v, Seq::<T>::empty());
                assert(Seq::<T>::empty() + seq![v] + Seq::<T>::empty() =~= seq![v]);
            }
            (r, true)
        },
        Some(b) => {
            let ghost sl = node_seq(b.left);
            let ghost sr = node_seq(b.right);
            let ghost x = b.v;
            proof {
                lemma_sorted_split(sl, x, sr);
                lemma_node_contains(sl, x, sr);
            }
            let Node { v: bv, left, right, .. } = *b;
            if v < bv {
                let (nl, added) = insert_node(left, v);
                let ghost snl = node_seq(Some(nl));
                proof {
                    assert(v != bv);
                    if sr.contains(v) {
                        assert(less(bv, v));
                    }
                    assert(node_seq(l).contains(v) == sl.contains(v));
                    lemma_sorted_join(snl, bv, sr);
                    lemma_node_contains(snl, bv, sr);
                }
                let r = rebalance(Some(nl), bv, right);
                (r, added)
            } else if v > bv {
                let (nr, added) = insert_node(right, v);
                let ghost snr = node_seq(Some(nr));
                proof {
                    assert(crate::order::greater(v, bv));
                    assert(v != bv);
                    if sl.contains(v) {
                        assert(less(v, bv));
                    }
                    assert(node_seq(l).contains(v) == sr.contains(v));
                    lemma_sorted_join(sl, bv, snr);
                    lemma_node_contains(sl, bv, snr);
                }
                let r = rebalance(left, bv, Some(nr));
                (r, added)
            } else {
                proof {
                    assert(!crate::order::greater(v, bv));
                    assert(less(v, bv) || v == bv || less(bv, v));
                }
                let r = make_node(left, bv, right);
                (r, false)
            }
        },
    }
}

/// Removes the last value of a subtree, returning what remains and the
/// value.
fn remove_last_node<T>(l: Option<Box<Node<T>>>) -> (r: (Option<Box<Node<T>>>, T))
    requires
        shape_wf(l),
        node_seq(l).len() > 0,
        node_seq(l).len() <= u64::MAX,
    ensures
        shape_wf(r.0),
        node_seq(r.0) == node_seq(l).drop_last(),
        r.1 == node_seq(l).last(),
        node_height(l) - 1 <= node_height(r.0) <= node_height(l),
    decreases l,
{
    let b = l.unwrap();
    let Node { v: bv, left, right, .. } = *b;
    proof {
        lemma_height_bound(left);
        lemma_height_bound(right);
    }
    match right {
        None => {
            proof {
                assert(node_seq(l) =~= node_seq(left).push(bv));
            }
            (left, bv)
        },
        Some(_) => {
            let ghost sr = node_seq(right);
            let (nr, m) = remove_last_node(right);
            let r = rebalance(left, bv, nr);
            proof {
                assert(node_seq(Some(r)) =~= node_seq(l).drop_last());
                assert(node_seq(l).last() == sr.last());
            }
            (Some(r), m)
        },
    }
}

/// The values of two subtrees, with nothing between them: what remains of a
/// node that is removed. Where both are non-empty, the last value of the left
/// one moves up.
fn join_nodes<T>(left: Option<Box<Node<T>>>, right: Option<Box<Node<T>>>) -> (r: Option<
    Box<Node<T>>,
>)
    requires
        shape_wf(left),
        shape_wf(right),
        node_seq(left).len() + node_seq(right).len() < u64::MAX,
        -1 <= node_height(left) - node_height(right) <= 1,
    ensures
        shape_wf(r),
        node_seq(r) == node_seq(left) + node_seq(right),
        max2(node_height(left), node_height(right)) <= node_height(r) <= 1 + max2(
            node_height(left),
            node_height(right),
        ),
{
    proof {
        lemma_height_bound(left);
        lemma_height_bound(right);
    }
    match left {
        None => {
            proof {
                assert(node_seq(left) + node_seq(right) =~= node_seq(right));
            }
            right
        },
        Some(_) => {
            match right {
                None => {
                    proof {
                        assert(node_seq(left) + node_seq(right) =~= node_seq(left));
                    }
                    left
                },
                Some(_) => {
                    let ghost sl = node_seq(left);
                    let (nl, m) = remove_last_node(left);
                    let r = rebalance(nl, m, right);
                    proof {
                        assert(node_seq(Some(r)) =~= sl + node_seq(right));
                    }
                    Some(r)
                },
            }
        },
    }
}

/// Removes `v` from a subtree where it is there; says whether it was.
fn remove_node<T: Ord>(l: Option<Box<Node<T>>>, v: T) -> (r: (Option<Box<Node<T>>>, bool))
    requires
        total_order_laws::<T>(),
        shape_wf(l),
        strictly_sorted(node_seq(l)),
        node_seq(l).len() <= u64::MAX,
    ensures
        shape_wf(r.0),
        r.1 == node_seq(l).contains(v),
        r.1 ==> exists|k: int|
            0 <= k < node_seq(l).len() && node_seq(l)[k] == v && node_seq(r.0) == node_seq(
                l,
            ).remove(k),
        !r.1 ==> node_seq(r.0) == node_seq(l),
        node_height(l) - 1 <= node_height(r.0) <= node_height(l),
    decreases l,
{
    proof {
        lemma_order::<T>();
    }
    match l {
        None => (None, false),
        Some(b) => {
            let ghost sl = node_seq(b.left);
            let ghost sr = node_seq(b.right);
            let ghost x = b.v;
            let ghost s = node_seq(l);
            proof {
                lemma_sorted_split(sl, x, sr);
                lemma_node_contains(sl, x, sr);
            }
            let Node { v: bv, left, right, .. } = *b;
            proof {
                lemma_height_bound(left);
                lemma_height_bound(right);
            }
            if v == bv {
                let r = join_nodes(left, right);
                proof {
                    let k = sl.len() as int;
                    assert(s[k] == v);
                    assert(node_seq(r) =~= s.remove(k));
                }
                (r, true)
            } else if v < bv {
                let (nl, removed) = remove_node(left, v);
                let r = rebalance(nl, bv, right);
                proof {
                    if removed {
                        let k = choose|k: int|
                            0 <= k < sl.len() && sl[k] == v && node_seq(nl) == sl.remove(k);
                        assert(s[k] == v);
                        assert(node_seq(Some(r)) =~= s.remove(k));
                    } else {
                        assert(node_seq(Some(r)) =~= s);
                    }
                }
                (Some(r), removed)
            } else {
                proof {
                    assert(less(v, bv) || v == bv || less(bv, v));
                }
                let (nr, removed) = remove_node(right, v);
                let r = rebalance(left, bv, nr);
                proof {
                    if removed {
                        let k = choose|k: int|
                            0 <= k < sr.len() && sr[k] == v && node_seq(nr) == sr.remove(k);
                        let k2 = sl.len() + 1 + k;
                        assert(s[k2] == v);
                        assert(node_seq(Some(r)) =~= s.remove(k2));
                    } else {
                        assert(node_seq(Some(r)) =~= s);
                    }
                }
                (Some(r), removed)
            }
        },
    }
}

/// Whether `v` lies in a subtree.
fn contains_node<T: Ord>(l: &Option<Box<Node<T>>>, v: &T) -> (r: bool)
    requires
        total_order_laws::<T>(),
        strictly_sorted(node_seq(*l)),
    ensures
        r == node_seq(*l).contains(*v),
    decreases *l,
{
    proof {
        lemma_order::<T>();
    }
    match l {
        None => false,
        Some(b) => {
            proof {
                lemma_sorted_split(node_seq(b.left), b.v, node_seq(b.right));
                lemma_node_contains(node_seq(b.left), b.v, node_seq(b.right));
            }
            if b.v == *v {
                true
            } else if *v < b.v {
                contains_node(&b.left, v)
            } else {
                proof {
                    assert(less(*v, b.v) || *v == b.v || less(b.v, *v));
                }
                contains_node(&b.right, v)
            }
        },
    }
}

/// An ordered set kept in a balanced binary search tree.
#[derive(Debug)]
pub struct AVLTree<T: Ord> {
    head_node: Option<Box<Node<T>>>,
    count: u64,
}

impl<T: Ord> View for AVLTree<T> {
    type V = Seq<T>;

    /// The values in increasing order.
    closed spec fn view(&self) -> Seq<T> {
        node_seq(self.head_node)
    }
}

impl<T: PartialEq + Ord> AVLTree<T> {
    /// Every node records the true height of its subtree, the tree is
    /// balanced, its values are in increasing order, and the count is the
    /// number of values.
    pub closed spec fn wf(&self) -> bool {
        &&& shape_wf(self.head_node)
        &&& strictly_sorted(node_seq(self.head_node))
        &&& self.count == node_seq(self.head_node).len()
    }

    /// Every node's recorded heights of its two subtrees differ by at most
    /// one.
    pub closed spec fn balanced(&self) -> bool {
        recorded_balanced(self.head_node)
    }

    /// The height of the tree.
    pub closed spec fn height(&self) -> int {
        node_height(self.head_node)
    }

    /// The values of every tree that the operations build are in strictly
    /// increasing order, and the tree is balanced: `is_balanced` answers true
    /// of it.
    pub proof fn lemma_wf_sorted_balanced(t: &AVLTree<T>)
        requires
            t.wf(),
        ensures
            strictly_sorted(t@),
            t.balanced(),
    {
        lemma_wf_recorded_balanced(t.head_node);
    }

    /// The height of a tree is at most about twice the logarithm of the
    /// number of values: a tree of height `h` holds at least `2^(h/2) - 1`
    /// values.
    pub proof fn lemma_height_logarithmic(t: &AVLTree<T>)
        requires
            t.wf(),
        ensures
            pow2((t.height() / 2) as nat) <= t@.len() + 1,
    {
        lemma_height_logarithmic(t.head_node);
    }

    /// After `insert(v)`, `contains(v)` answers true, every other value is
    /// contained exactly when it was before, and the values come out of
    /// `iter` in the one increasing order that they have.
    pub proof fn lemma_insert_then_contains(before: &AVLTree<T>, after: &AVLTree<T>, v: T, w: Seq<T>)
        requires
            total_order_laws::<T>(),
            after.wf(),
            after@.to_set() == before@.to_set().insert(v),
            strictly_sorted(w),
            w.to_set() == after@.to_set(),
        ensures
            after@.contains(v),
            forall|y: T| y != v ==> (after@.contains(y) <==> before@.contains(y)),
            after@ == w,
    {
        assert(after@.to_set().contains(v));
        assert forall|y: T| y != v implies (after@.contains(y) <==> before@.contains(y)) by {
            assert(after@.to_set().contains(y) == before@.to_set().contains(y));
        }
        assert forall|y: T| after@.contains(y) <==> w.contains(y) by {
            assert(after@.to_set().contains(y) == w.to_set().contains(y));
            assert(after@.to_set().contains(y) == after@.contains(y));
            assert(w.to_set().contains(y) == w.contains(y));
        }
        lemma_sorted_unique(after@, w);
    }

    /// After `remove(v)`, `contains(v)` answers false, and every other value
    /// is contained exactly when it was before.
    pub proof fn lemma_remove_then_contains(before: &AVLTree<T>, after: &AVLTree<T>, v: T)
        requires
            after@.to_set() == before@.to_set().remove(v),
        ensures
            !after@.contains(v),
            forall|y: T| y != v ==> (after@.contains(y) <==> before@.contains(y)),
    {
        assert(!after@.to_set().contains(v));
        assert forall|y: T| y != v implies (after@.contains(y) <==> before@.contains(y)) by {
            assert(after@.to_set().contains(y) == before@.to_set().contains(y));
        }
    }

    /// An empty set.
    pub fn new() -> (r: AVLTree<T>)
        ensures
            r.wf(),
            r@ == Seq::<T>::empty(),
    {
        AVLTree { head_node: None, count: 0 }
    }

    /// Whether the set holds no values.
    pub fn empty(&self) -> (r: bool)
        ensures
            r == (self@.len() == 0),
    {
        match &self.head_node {
            None => true,
            Some(_) => false,
        }
    }

    /// The number of values.
    pub fn element_count(&self) -> (r: u64)
        requires
            self.wf(),
        ensures
            r == self@.len(),
    {
        self.count
    }

    /// Whether every node's recorded heights of its two subtrees differ by
    /// at most one.
    pub fn is_balanced(&self) -> (r: bool)
        ensures
            r == self.balanced(),
    {
        is_balanced_node(&self.head_node)
    }

    /// Adds `v` unless it is there already.
    pub fn insert(&mut self, v: T)
        requires
            total_order_laws::<T>(),
            old(self).wf(),
            old(self)@.len() < u64::MAX,
        ensures
            final(self).wf(),
            strictly_sorted(final(self)@),
            final(self)@.to_set() == old(self)@.to_set().insert(v),
            final(self)@.len() == old(self)@.len() + (if old(self)@.contains(v) {
                0int
            } else {
                1int
            }),
    {
        let head = self.head_node.take();
        let (b, added) = insert_node(head, v);
        self.head_node = Some(b);
        if added {
            self.count = self.count + 1;
        }
        proof {
            assert(self@.to_set() =~= old(self)@.to_set().insert(v));
        }
    }

    /// Removes `v` where it is there.
    pub fn remove(&mut self, v: T)
        requires
            total_order_laws::<T>(),
            old(self).wf(),
        ensures
            final(self).wf(),
            strictly_sorted(final(self)@),
            final(self)@.to_set() == old(self)@.to_set().remove(v),
            final(self)@.len() == old(self)@.len() - (if old(self)@.contains(v) {
                1int
            } else {
                0int
            }),
    {
        proof {
            lemma_order::<T>();
        }
        let head = self.head_node.take();
        let ghost s = node_seq(head);
        let (rest, removed) = remove_node(head, v);
        self.head_node = rest;
        if removed {
            self.count = self.count - 1;
        }
        proof {
            if removed {
                let k = choose|k: int| 0 <= k < s.len() && s[k] == v && node_seq(rest) == s.remove(k);
                lemma_sorted_remove(s, k);
                assert forall|y: T| s.remove(k).contains(y) <==> (s.contains(y) && y != v) by {
                    if s.remove(k).contains(y) {
                        let j = choose|j: int| 0 <= j < s.len() - 1 && s.remove(k)[j] == y;
                        let j2 = if j < k { j } else { j + 1 };
                        assert(s[j2] == y);
                        assert(less(s[j2], s[k]) || less(s[k], s[j2]));
                    }
                    if s.contains(y) && y != v {
                        let j = choose|j: int| 0 <= j < s.len() && s[j] == y;
                        let j2 = if j < k { j } else { j - 1 };
                        assert(s.remove(k)[j2] == y);
                    }
                }
            }
            assert(self@.to_set() =~= old(self)@.to_set().remove(v));
        }
    }

    /// Whether `v` is in the set.
    pub fn contains(&self, v: &T) -> (r: bool)
        requires
            total_order_laws::<T>(),
            self.wf(),
        ensures
            r == self@.contains(*v),
    {
        contains_node(&self.head_node, v)
    }

    /// An iterator over the values, in increasing order.
    pub fn iter<'a>(&'a self) -> (r: AVLTreeIter<'a, T>)
        ensures
            r.remaining() == self@,
    {
        let mut it = AVLTreeIter { stack: Vec::new() };
        proof {
            assert(pending(it.stack@) =~= Seq::<T>::empty());
        }
        it.push_left(&self.head_node);
        proof {
            assert(node_seq(self.head_node) + Seq::<T>::empty() =~= node_seq(self.head_node));
        }
        it
    }
}

/// Whether every node's recorded heights of its two subtrees differ by at
/// most one.
fn is_balanced_node<T>(l: &Option<Box<Node<T>>>) -> (r: bool)
    ensures
        r == recorded_balanced(*l),
    decreases *l,
{
    match l {
        None => true,
        Some(b) => {
            let hl = match &b.left {
                None => 0,
                Some(c) => c.deepness,
            };
            let hr = match &b.right {
                None => 0,
                Some(c) => c.deepness,
            };
            let close = if hl >= hr {
                hl - hr <= 1
            } else {
                hr - hl <= 1
            };
            close && is_balanced_node(&b.left) && is_balanced_node(&b.right)
        },
    }
}

/// What is left to hand out from a stack of nodes: each node's value and
/// then the values of its right subtree, from the top of the stack down.
spec fn pending<T>(st: Seq<&Node<T>>) -> Seq<T>
    decreases st.len(),
{
    if st.len() == 0 {
        Seq::empty()
    } else {
        let top = st.last();
        seq![top.v] + node_seq(top.right) + pending(st.drop_last())
    }
}

/// An iterator over the values of an [`AVLTree`], in increasing order.
pub struct AVLTreeIter<'a, T> {
    stack: Vec<&'a Node<T>>,
}

impl<'a, T> AVLTreeIter<'a, T> {
    /// The values still to be handed out, in order.
    pub closed spec fn remaining(&self) -> Seq<T> {
        pending(self.stack@)
    }

    /// Stacks the nodes along the leftmost path of a subtree.
    fn push_left(&mut self, link: &'a Option<Box<Node<T>>>)
        ensures
            final(self).remaining() == node_seq(*link) + old(self).remaining(),
        decreases *link,
    {
        match link {
            None => {
                proof {
                    assert(node_seq(*link) + old(self).remaining() =~= old(self).remaining());
                }
            },
            Some(b) => {
                let n: &'a Node<T> = &**b;
                self.stack.push(n);
                proof {
                    assert(self.stack@.drop_last() =~= old(self).stack@);
                }
                self.push_left(&n.left);
                proof {
                    assert(final(self).remaining() =~= node_seq(*link) + old(self).remaining());
                }
            },
        }
    }

    /// The next value, or `None` after the last one.
    pub fn next(&mut self) -> (r: Option<&'a T>)
        ensures
            match r {
                Some(x) => {
                    &&& old(self).remaining().len() > 0
                    &&& *x == old(self).remaining()[0]
                    &&& final(self).remaining() == old(self).remaining().drop_first()
                },
                None => old(self).remaining().len() == 0 && final(self).remaining() == old(
                    self,
                ).remaining(),
            },
    {
        match self.stack.pop() {
            Some(n) => {
                proof {
                    assert(old(self).remaining() =~= seq![n.v] + node_seq(n.right) + self.remaining());
                }
                self.push_left(&n.right);
                proof {
                    assert(final(self).remaining() =~= old(self).remaining().drop_first());
                }
                Some(&n.v)
            },
            None => {
                proof {
                    assert(old(self).stack@.len() == 0);
                }
                None
            },
        }
    }
}

/// Pairs up the values of two sequences, stopping at the shorter one: every
/// pair is equal.
pub open spec fn prefix_equal<T: PartialEq>(a: Seq<T>, b: Seq<T>) -> bool {
    forall|i: int| 0 <= i < a.len() && i < b.len() ==> #[trigger] a[i].eq_spec(&b[i])
}

impl<T: PartialEq + Ord> PartialEq for AVLTree<T> {
    /// Compares the two sets value by value in increasing order, stopping at
    /// the end of the smaller one.
    fn eq(&self, other: &AVLTree<T>) -> (r: bool) {
        let mut a = self.iter();
        let mut b = other.iter();
        let ghost mut k: int = 0;
        loop
            invariant
                0 <= k <= self@.len(),
                k <= other@.len(),
                a.remaining() == self@.skip(k),
                b.remaining() == other@.skip(k),
                T::obeys_eq_spec() ==> forall|i: int|
                    0 <= i < k ==> #[trigger] self@[i].eq_spec(&other@[i]),
            decreases self@.len() - k,
        {
            let x = a.next();
            let y = b.next();
            match (x, y) {
                (Some(x), Some(y)) => {
                    proof {
                        assert(self@.skip(k)[0] == self@[k]);
                        assert(other@.skip(k)[0] == other@[k]);
                    }
                    if !(*x == *y) {
                        return false;
                    }
                    proof {
                        assert(self@.skip(k).drop_first() =~= self@.skip(k + 1));
                        assert(other@.skip(k).drop_first() =~= other@.skip(k + 1));
                        k = k + 1;
                    }
                },
                _ => {
                    return true;
                },
            }
        }
    }
}

/// A set declares `Eq` where its values do.
impl<T: Eq + Ord> Eq for AVLTree<T> {

}

impl<T: PartialEq + Ord> PartialEqSpecImpl for AVLTree<T> {
    open spec fn obeys_eq_spec() -> bool {
        T::obeys_eq_spec()
    }

    open spec fn eq_spec(&self, other: &AVLTree<T>) -> bool {
        prefix_equal(self@, other@)
    }
}

/// The values of a subtree in pre-order: a node's value, then its left
/// subtree, then its right one.
spec fn node_preorder<T>(l: Option<Box<Node<T>>>) -> Seq<T>
    decreases l,
{
    match l {
        None => Seq::empty(),
        Some(b) => seq![b.v] + node_preorder(b.left) + node_preorder(b.right),
    }
}

/// Appends the values of a subtree, in pre-order, to `out`.
fn collect_preorder<'a, T>(l: &'a Option<Box<Node<T>>>, out: &mut Vec<&'a T>)
    ensures
        final(out)@.len() == old(out)@.len() + node_preorder(*l).len(),
        forall|i: int| 0 <= i < old(out)@.len() ==> final(out)@[i] == old(out)@[i],
        forall|i: int|
            0 <= i < node_preorder(*l).len() ==> *#[trigger] final(out)@[old(out)@.len() + i]
                == node_preorder(*l)[i],
    decreases *l,
{
    match l {
        None => {},
        Some(b) => {
            let ghost n0 = out@.len();
            out.push(&b.v);
            collect_preorder(&b.left, out);
            let ghost n1 = out@.len();
            collect_preorder(&b.right, out);
            proof {
                let pl = node_preorder(b.left);
                let pr = node_preorder(b.right);
                assert forall|i: int| 0 <= i < node_preorder(*l).len() implies *#[trigger] out@[n0 + i]
                    == node_preorder(*l)[i] by {
                    if i == 0 {
                    } else if i <= pl.len() {
                        assert(out@[n0 + i] == out@[n0 + 1 + (i - 1)]);
                    } else {
                        assert(n0 + i == n1 + (i - 1 - pl.len()));
                    }
                }
            }
        },
    }
}

impl<T: Hash + Ord> Hash for AVLTree<T> {
    /// Feeds the values to the hasher in pre-order: a node's value, then its
    /// left subtree, then its right one.
    fn hash<H: Hasher>(&self, state: &mut H) {
        let mut values: Vec<&T> = Vec::new();
        collect_preorder(&self.head_node, &mut values);
        let mut i: usize = 0;
        while i < values.len()
            invariant
                i <= values@.len(),
            decreases values@.len() - i,
        {
            hash_value(values[i], state);
            i = i + 1;
        }
    }
}

/// What `==` on two sets answers, where the values' `==` follows its spec:
/// true exactly when the values at every position below both sizes, the
/// smallest included, are equal. The smaller set's end stops the comparison.
pub proof fn lemma_eq_compares_values<T: PartialEq + Ord>(a: &AVLTree<T>, b: &AVLTree<T>)
    ensures
        <AVLTree<T> as PartialEqSpec>::obeys_eq_spec() == T::obeys_eq_spec(),
        PartialEqSpec::eq_spec(a, b) <==> (forall|i: int|
            0 <= i < a@.len() && i < b@.len() ==> #[trigger] a@[i].eq_spec(&b@[i])),
{
}

/// For a lawful order, `==` on two sets is true exactly when they hold the
/// same value at every position below both sizes; in particular their
/// smallest values are the same.
pub proof fn lemma_eq_same_values<T: PartialEq + Ord>(a: &AVLTree<T>, b: &AVLTree<T>)
    requires
        total_order_laws::<T>(),
    ensures
        T::obeys_eq_spec(),
        PartialEqSpec::eq_spec(a, b) <==> (forall|i: int|
            0 <= i < a@.len() && i < b@.len() ==> #[trigger] a@[i] == b@[i]),
        PartialEqSpec::eq_spec(a, b) && a@.len() > 0 && b@.len() > 0 ==> a@[0] == b@[0],
{
    lemma_order::<T>();
    lemma_eq_compares_values(a, b);
    assert forall|i: int| 0 <= i < a@.len() && i < b@.len() implies (a@[i].eq_spec(&b@[i]) <==> a@[i] == b@[i]) by {
    }
}

} // verus!
