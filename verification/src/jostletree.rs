use vstd::prelude::*;
use crate::branch::{
    element_mut_index, height, insert_at_offset, insert_edge, link_count, link_recorded_balanced,
    link_seq, link_sum_of_spans, link_total, link_wf, offset_index, offset_insertion_index,
    recorded_balanced, remove_index, set_span_index, start_offset, Branch, branch_at_index,
    lemma_wf_recorded_balanced, collect_slots,
};
use vstd::arithmetic::power2::pow2;
use vstd::std_specs::cmp::{PartialEqSpec, PartialEqSpecImpl};
use core::hash::{Hash, Hasher};
use crate::hashing::hash_value;
use crate::numeric::Numeric;
use crate::spans::{insertion_index, slot_index, span_sum, spans_nonneg, start_of};

verus! {

/// The JostleTree models a sequence of items of varying widths ("spans"),
/// packed end to end with no gaps. It allows
///
/// * jumping to an offset and getting whatever item is there,
/// * resizing an item, which moves every item after it,
/// * inserting and removing anywhere.
///
/// Operations take time logarithmic in the number of items.
#[derive(Debug)]
pub struct JostleTree<N, T> {
    head_node: Option<Box<Branch<N, T>>>,
}

impl<N: Numeric, T> View for JostleTree<N, T> {
    type V = Seq<(N, T)>;

    /// The slots in order, each a span and an item.
    closed spec fn view(&self) -> Seq<(N, T)> {
        link_seq(self.head_node)
    }
}

impl<N: Numeric, T> JostleTree<N, T> {
    /// Every node holds the true count, span sum and height of the subtree
    /// below it, and the tree is balanced.
    pub closed spec fn wf(&self) -> bool {
        link_wf(self.head_node)
    }

    /// Every node's recorded heights of its two subtrees differ by at most
    /// one.
    pub closed spec fn balanced(&self) -> bool {
        recorded_balanced(self.head_node)
    }

    /// The height of the tree.
    pub closed spec fn height(&self) -> int {
        height(self.head_node)
    }

    /// Every tree that the operations build is balanced: `is_balanced`
    /// answers true of it.
    pub proof fn lemma_wf_balanced(t: &JostleTree<N, T>)
        requires
            t.wf(),
        ensures
            t.balanced(),
    {
        lemma_wf_recorded_balanced(t.head_node);
    }

    /// No span in a tree that the operations build is negative.
    pub proof fn lemma_wf_spans_nonneg(t: &JostleTree<N, T>)
        requires
            t.wf(),
        ensures
            spans_nonneg(t@),
    {
        crate::branch::lemma_link_nonneg(t.head_node);
    }

    /// The height of a tree is at most about twice the logarithm of the
    /// number of items: a tree of height `h` holds at least `2^(h/2) - 1`
    /// items. Every operation walks one path from the root, so it takes
    /// logarithmic time.
    pub proof fn lemma_height_logarithmic(t: &JostleTree<N, T>)
        requires
            t.wf(),
        ensures
            pow2((t.height() / 2) as nat) <= t@.len() + 1,
    {
        crate::branch::lemma_height_logarithmic(t.head_node);
    }

    /// An empty tree.
    pub fn new() -> (r: JostleTree<N, T>)
        ensures
            r.wf(),
            r@ == Seq::<(N, T)>::empty(),
    {
        JostleTree { head_node: None }
    }

    /// Whether the tree holds no items.
    pub fn is_empty(&self) -> (r: bool)
        ensures
            r == (self@.len() == 0),
    {
        match &self.head_node {
            None => true,
            Some(_) => false,
        }
    }

    /// The number of items.
    pub fn len(&self) -> (r: usize)
        requires
            self.wf(),
        ensures
            r == self@.len(),
    {
        link_count(&self.head_node)
    }

    /// The sum of the spans of all of the items (logarithmic runtime).
    pub fn total_span(&self) -> (r: N)
        requires
            self.wf(),
        ensures
            r.as_int() == span_sum(self@),
    {
        link_total(&self.head_node)
    }

    /// Inserts an item at or before whatever is at `at_offset`: before the
    /// first item that ends after `at_offset`. Returns a handle on the new
    /// slot.
    pub fn insert_at<'a>(&'a mut self, at_offset: N, span: N, v: T) -> (h: SlotHandle<'a, N, T>)
        requires
            span.as_int() >= 0,
            old(self).wf(),
            span_sum(old(self)@) + span.as_int() <= N::max_value(),
            old(self)@.len() < usize::MAX,
        ensures
            h.wf(),
            h.index() == insertion_index(old(self)@, at_offset.as_int()),
            h.tree()@ == old(self)@.insert(h.index(), (span, v)),
            *final(self) == *final(h.tree),
    {
        let i = offset_insertion_index(&self.head_node, at_offset);
        proof {
            crate::spans::lemma_insertion_index_range(self@, at_offset.as_int());
        }
        let head = self.head_node.take();
        let b = insert_at_offset(head, at_offset, span, v);
        self.head_node = Some(b);
        SlotHandle { tree: self, index: i }
    }

    /// Inserts an item before all others (`front`) or after all others.
    fn insert_where<'a>(&'a mut self, span: N, v: T, front: bool) -> (h: SlotHandle<'a, N, T>)
        requires
            span.as_int() >= 0,
            old(self).wf(),
            span_sum(old(self)@) + span.as_int() <= N::max_value(),
            old(self)@.len() < usize::MAX,
        ensures
            h.wf(),
            h.index() == (if front {
                0
            } else {
                old(self)@.len()
            }),
            h.tree()@ == old(self)@.insert(h.index(), (span, v)),
            *final(self) == *final(h.tree),
    {
        let n = link_count(&self.head_node);
        let head = self.head_node.take();
        let b = insert_edge(head, front, span, v);
        self.head_node = Some(b);
        let i = if front {
            0
        } else {
            n
        };
        proof {
            assert(self@ =~= old(self)@.insert(i as int, (span, v)));
        }
        SlotHandle { tree: self, index: i }
    }

    /// Inserts an item at the back. Returns a handle on the new slot.
    pub fn insert_back<'a>(&'a mut self, span: N, v: T) -> (h: SlotHandle<'a, N, T>)
        requires
            span.as_int() >= 0,
            old(self).wf(),
            span_sum(old(self)@) + span.as_int() <= N::max_value(),
            old(self)@.len() < usize::MAX,
        ensures
            h.wf(),
            h.index() == old(self)@.len(),
            h.tree()@ == old(self)@.push((span, v)),
            *final(self) == *final(h.tree),
    {
        let h = self.insert_where(span, v, false);
        proof {
            assert(h.tree()@ =~= old(self)@.push((span, v)));
        }
        h
    }

    /// Inserts an item at the front. Returns a handle on the new slot.
    pub fn insert_front<'a>(&'a mut self, span: N, v: T) -> (h: SlotHandle<'a, N, T>)
        requires
            span.as_int() >= 0,
            old(self).wf(),
            span_sum(old(self)@) + span.as_int() <= N::max_value(),
            old(self)@.len() < usize::MAX,
        ensures
            h.wf(),
            h.index() == 0,
            h.tree()@ == seq![(span, v)] + old(self)@,
            *final(self) == *final(h.tree),
    {
        let h = self.insert_where(span, v, true);
        proof {
            assert(h.tree()@ =~= seq![(span, v)] + old(self)@);
        }
        h
    }

    /// A handle on the slot at offset `o`: the one that covers `o`, or the
    /// last one where `o` lies beyond the end. `None` where the tree is
    /// empty.
    pub fn get_slot_mut<'a>(&'a mut self, o: N) -> (r: Option<SlotHandle<'a, N, T>>)
        requires
            old(self).wf(),
        ensures
            match r {
                Some(h) => {
                    &&& old(self)@.len() > 0
                    &&& h.wf()
                    &&& h.tree() == *old(self)
                    &&& h.index() == slot_index(old(self)@, o.as_int())
                    &&& *final(self) == *final(h.tree)
                },
                None => old(self)@.len() == 0 && *final(self) == *old(self),
            },
    {
        if self.is_empty() {
            None
        } else {
            let i = offset_index(&self.head_node, o);
            Some(SlotHandle { tree: self, index: i })
        }
    }

    /// The item at offset `o`: the one that covers `o`, or the last one where
    /// `o` lies beyond the end. `None` where the tree is empty.
    pub fn get_item(&self, o: N) -> (r: Option<&T>)
        requires
            self.wf(),
        ensures
            match r {
                Some(x) => self@.len() > 0 && *x == self@[slot_index(self@, o.as_int())].1,
                None => self@.len() == 0,
            },
    {
        if self.is_empty() {
            None
        } else {
            let i = offset_index(&self.head_node, o);
            let b = branch_at_index(&self.head_node, i);
            Some(&b.v)
        }
    }

    /// Removes the item at offset `o`: the one that covers `o`, or the last
    /// one where `o` lies beyond the end. `None` where the tree is empty.
    pub fn remove_at(&mut self, o: N) -> (r: Option<T>)
        requires
            old(self).wf(),
        ensures
            final(self).wf(),
            match r {
                Some(x) => {
                    let i = slot_index(old(self)@, o.as_int());
                    &&& old(self)@.len() > 0
                    &&& x == old(self)@[i].1
                    &&& final(self)@ == old(self)@.remove(i)
                },
                None => old(self)@.len() == 0 && final(self)@ == old(self)@,
            },
    {
        match self.get_slot_mut(o) {
            Some(h) => Some(h.remove()),
            None => None,
        }
    }

    /// Removes every item.
    pub fn clear(&mut self)
        ensures
            final(self).wf(),
            final(self)@ == Seq::<(N, T)>::empty(),
    {
        self.head_node = None;
    }

    /// An iterator over the slots, in order.
    pub fn slot_iter<'a>(&'a self) -> (r: JostleTreeIter<'a, N, T>)
        requires
            self.wf(),
        ensures
            r.wf(),
            r.tree() == *self,
            r.position() == 0,
    {
        proof {
            assert(self@.take(0) =~= Seq::<(N, T)>::empty());
        }
        JostleTreeIter { tree: self, index: 0, offset: N::zero() }
    }

    /// Whether every node's recorded heights of its two subtrees differ by at
    /// most one.
    pub fn is_balanced(&self) -> (r: bool)
        ensures
            r == self.balanced(),
    {
        link_recorded_balanced(&self.head_node)
    }

    /// The sum of the spans of the items, added up item by item (linear
    /// runtime).
    pub fn sum_of_spans(&self) -> (r: N)
        requires
            self.wf(),
        ensures
            r.as_int() == span_sum(self@),
    {
        link_sum_of_spans(&self.head_node)
    }

    /// A tree that holds the given slots, in order.
    pub fn from_vec(items: Vec<(N, T)>) -> (r: JostleTree<N, T>)
        requires
            spans_nonneg(items@),
            span_sum(items@) <= N::max_value(),
            items@.len() < usize::MAX,
        ensures
            r.wf(),
            r@ == items@,
    {
        let ghost all = items@;
        let mut items = items;
        let mut tree = JostleTree::new();
        while items.len() > 0
            invariant
                tree.wf(),
                spans_nonneg(all),
                all == items@ + tree@,
                span_sum(all) <= N::max_value(),
                all.len() < usize::MAX,
            decreases items.len(),
        {
            let ghost prev = items@;
            let (span, v) = items.pop().unwrap();
            proof {
                crate::spans::lemma_nonneg_subrange(all, 0, prev.len() as int);
                assert(prev == all.take(prev.len() as int));
                assert(prev[prev.len() - 1] == (span, v));
                crate::spans::lemma_nonneg_subrange(prev, 0, items@.len() as int);
                assert(items@ == prev.take(items@.len() as int));
                assert(prev =~= items@ + seq![(span, v)]);
                crate::spans::lemma_span_sum_concat(prev, tree@);
                crate::spans::lemma_span_sum_concat(items@, seq![(span, v)]);
                crate::spans::lemma_span_sum_single((span, v));
                crate::spans::lemma_span_sum_nonneg(items@);
            }
            tree.insert_front(span, v);
            proof {
                assert(all =~= items@ + tree@);
            }
        }
        proof {
            assert(all =~= tree@);
        }
        tree
    }
}

/// A handle on one slot of a tree, through which the slot can be read,
/// changed or removed. The fields are public so that contracts can speak of
/// the tree as it stands once the handle is let go (`*final(h.tree)`).
pub struct SlotHandle<'a, N, T> {
    /// The tree that holds the slot.
    pub tree: &'a mut JostleTree<N, T>,
    /// The index of the slot.
    pub index: usize,
}

impl<'a, N: Numeric, T> SlotHandle<'a, N, T> {
    /// The tree as it stands now.
    pub open spec fn tree(&self) -> JostleTree<N, T> {
        *self.tree
    }

    /// The index of the slot.
    pub open spec fn index(&self) -> int {
        self.index as int
    }

    /// The tree is well formed and the slot lies in it.
    pub open spec fn wf(&self) -> bool {
        self.tree.wf() && self.index < self.tree@.len()
    }

    /// Removes the slot, returning its item.
    pub fn remove(self) -> (r: T)
        requires
            self.wf(),
        ensures
            r == self.tree()@[self.index()].1,
            (*final(self.tree)).wf(),
            (*final(self.tree))@ == self.tree()@.remove(self.index()),
    {
        let SlotHandle { tree, index } = self;
        let head = tree.head_node.take();
        let (rest, _span, v) = remove_index(head, index);
        tree.head_node = rest;
        v
    }

    /// A handle on the next slot, or `None` where this is the last one.
    pub fn next(self) -> (r: Option<Self>)
        requires
            self.wf(),
        ensures
            match r {
                Some(h) => {
                    &&& h.wf()
                    &&& h.tree() == self.tree()
                    &&& h.index() == self.index() + 1
                    &&& *final(h.tree) == *final(self.tree)
                },
                None => self.index() + 1 == self.tree()@.len() && *final(self.tree)
                    == self.tree(),
            },
    {
        let SlotHandle { tree, index } = self;
        let n = tree.len();
        if index + 1 < n {
            Some(SlotHandle { tree, index: index + 1 })
        } else {
            None
        }
    }

    /// The item in the slot, to change in place.
    pub fn element_mut(&mut self) -> (r: &mut T)
        requires
            old(self).wf(),
        ensures
            *r == old(self).tree()@[old(self).index()].1,
            final(self).wf(),
            final(self).index() == old(self).index(),
            final(self).tree()@ == old(self).tree()@.update(
                old(self).index(),
                (old(self).tree()@[old(self).index()].0, *final(r)),
            ),
            *final(final(self).tree) == *final(old(self).tree),
    {
        element_mut_index(&mut self.tree.head_node, self.index)
    }

    /// The item in the slot.
    pub fn element(&self) -> (r: &T)
        requires
            self.wf(),
        ensures
            *r == self.tree()@[self.index()].1,
    {
        let b = branch_at_index(&self.tree.head_node, self.index);
        &b.v
    }

    /// The span of the slot.
    pub fn get_span(&self) -> (r: N)
        requires
            self.wf(),
        ensures
            r == self.tree()@[self.index()].0,
    {
        let b = branch_at_index(&self.tree.head_node, self.index);
        b.span
    }

    /// Resizes the slot; every slot after it moves by the difference.
    pub fn set_span(&mut self, v: N)
        requires
            v.as_int() >= 0,
            old(self).wf(),
            span_sum(old(self).tree()@) - old(self).tree()@[old(self).index()].0.as_int()
                + v.as_int() <= N::max_value(),
        ensures
            final(self).wf(),
            final(self).index() == old(self).index(),
            final(self).tree()@ == old(self).tree()@.update(
                old(self).index(),
                (v, old(self).tree()@[old(self).index()].1),
            ),
            *final(final(self).tree) == *final(old(self).tree),
    {
        set_span_index(&mut self.tree.head_node, self.index, v);
    }

    /// The offset at which the slot starts: the sum of the spans before it.
    pub fn offset(&self) -> (r: N)
        requires
            self.wf(),
        ensures
            r.as_int() == start_of(self.tree()@, self.index()),
    {
        start_offset(&self.tree.head_node, self.index)
    }
}

/// An iterator over the slots of a tree, in order. It keeps the offset at
/// which the next slot starts, adding each slot's span as it goes.
pub struct JostleTreeIter<'a, N, T> {
    tree: &'a JostleTree<N, T>,
    index: usize,
    offset: N,
}

impl<'a, N: Numeric, T> JostleTreeIter<'a, N, T> {
    /// The tree being walked.
    pub closed spec fn tree(&self) -> JostleTree<N, T> {
        *self.tree
    }

    /// The index of the next slot to be handed out.
    pub closed spec fn position(&self) -> int {
        self.index as int
    }

    /// The tree is well formed, the position lies in it, and the kept offset
    /// is where the next slot starts.
    pub closed spec fn wf(&self) -> bool {
        &&& self.tree.wf()
        &&& self.index <= self.tree@.len()
        &&& self.offset.as_int() == start_of(self.tree@, self.index as int)
    }

    /// The offset at which the next slot starts: the sum of the spans of the
    /// slots handed out so far.
    pub fn offset(&self) -> (r: N)
        requires
            self.wf(),
        ensures
            r.as_int() == start_of(self.tree()@, self.position()),
    {
        self.offset
    }

    /// The next slot together with the offset at which it starts (the sum of
    /// the spans before it), or `None` after the last one.
    pub fn next_with_offset(&mut self) -> (r: Option<(N, &'a Branch<N, T>)>)
        requires
            old(self).wf(),
        ensures
            final(self).wf(),
            final(self).tree() == old(self).tree(),
            match r {
                Some((o, b)) => {
                    let i = old(self).position();
                    &&& i < old(self).tree()@.len()
                    &&& o.as_int() == start_of(old(self).tree()@, i)
                    &&& b.span_of() == old(self).tree()@[i].0
                    &&& b.element_of() == old(self).tree()@[i].1
                    &&& final(self).position() == i + 1
                },
                None => old(self).position() == old(self).tree()@.len() && final(self).position()
                    == old(self).position(),
            },
    {
        let n = self.tree.len();
        if self.index < n {
            let b = branch_at_index(&self.tree.head_node, self.index);
            let o = self.offset;
            proof {
                let s = self.tree@;
                let i = self.index as int;
                crate::spans::lemma_start_of_next(s, i);
                crate::branch::lemma_link_nonneg(self.tree.head_node);
                crate::spans::lemma_start_of_monotonic(s, i + 1, s.len() as int);
                assert(s.take(s.len() as int) =~= s);
                crate::branch::lemma_link_sum_bound(self.tree.head_node);
                crate::spans::lemma_nonneg_subrange(s, 0, i);
                crate::spans::lemma_span_sum_nonneg(s.take(i));
            }
            self.offset = o.plus(b.span);
            self.index = self.index + 1;
            Some((o, b))
        } else {
            None
        }
    }

    /// The next slot, or `None` after the last one.
    pub fn next(&mut self) -> (r: Option<&'a Branch<N, T>>)
        requires
            old(self).wf(),
        ensures
            final(self).wf(),
            final(self).tree() == old(self).tree(),
            match r {
                Some(b) => {
                    let i = old(self).position();
                    &&& i < old(self).tree()@.len()
                    &&& b.span_of() == old(self).tree()@[i].0
                    &&& b.element_of() == old(self).tree()@[i].1
                    &&& final(self).position() == i + 1
                },
                None => old(self).position() == old(self).tree()@.len() && final(self).position()
                    == old(self).position(),
            },
    {
        match self.next_with_offset() {
            Some((_, b)) => Some(b),
            None => None,
        }
    }
}

/// Pairs up the slots of two sequences, stopping at the shorter one: every
/// pair has equal spans and equal items.
pub open spec fn slots_prefix_equal<N: Numeric, T: PartialEq>(a: Seq<(N, T)>, b: Seq<(N, T)>) -> bool {
    forall|i: int|
        0 <= i < a.len() && i < b.len() ==> a[i].0.as_int() == b[i].0.as_int()
            && #[trigger] a[i].1.eq_spec(&b[i].1)
}

impl<N: Numeric, T: PartialEq> PartialEq for JostleTree<N, T> {
    /// Compares the two trees slot by slot, spans and items, stopping at the
    /// end of the shorter one.
    fn eq(&self, other: &JostleTree<N, T>) -> (r: bool) {
        let mut a: Vec<&Branch<N, T>> = Vec::new();
        collect_slots(&self.head_node, &mut a);
        let mut b: Vec<&Branch<N, T>> = Vec::new();
        collect_slots(&other.head_node, &mut b);
        let n = if a.len() < b.len() {
            a.len()
        } else {
            b.len()
        };
        let mut i: usize = 0;
        proof {
            assert forall|j: int| 0 <= j < self@.len() implies (#[trigger] a@[j].span, a@[j].v) == self@[j] by {
                assert(a@[0 + j] == a@[j]);
            }
            assert forall|j: int| 0 <= j < other@.len() implies (#[trigger] b@[j].span, b@[j].v) == other@[j] by {
                assert(b@[0 + j] == b@[j]);
            }
        }
        while i < n
            invariant
                n <= a@.len(),
                n <= b@.len(),
                a@.len() == self@.len(),
                b@.len() == other@.len(),
                n == a@.len() || n == b@.len(),
                i <= n,
                forall|j: int| 0 <= j < self@.len() ==> (#[trigger] a@[j].span, a@[j].v) == self@[j],
                forall|j: int| 0 <= j < other@.len() ==> (#[trigger] b@[j].span, b@[j].v) == other@[j],
                forall|j: int| 0 <= j < i ==> #[trigger] self@[j].0.as_int() == other@[j].0.as_int(),
                T::obeys_eq_spec() ==> forall|j: int| 0 <= j < i ==> #[trigger] self@[j].1.eq_spec(&other@[j].1),
            decreases n - i,
        {
            let x = a[i];
            let y = b[i];
            proof {
                assert((a@[i as int].span, a@[i as int].v) == self@[i as int]);
                assert((b@[i as int].span, b@[i as int].v) == other@[i as int]);
            }
            if x.span.less_than(y.span) || y.span.less_than(x.span) {
                proof {
                    assert(self@[i as int].0.as_int() != other@[i as int].0.as_int());
                    if slots_prefix_equal(self@, other@) {
                        assert(self@[i as int].1.eq_spec(&other@[i as int].1));
                    }
                }
                return false;
            }
            if !(x.v == y.v) {
                proof {
                    if T::obeys_eq_spec() {
                        assert(!self@[i as int].1.eq_spec(&other@[i as int].1));
                    }
                }
                return false;
            }
            i = i + 1;
        }
        true
    }
}

impl<N: Numeric, T: PartialEq> PartialEqSpecImpl for JostleTree<N, T> {
    open spec fn obeys_eq_spec() -> bool {
        T::obeys_eq_spec()
    }

    open spec fn eq_spec(&self, other: &JostleTree<N, T>) -> bool {
        slots_prefix_equal(self@, other@)
    }
}

impl<N: Numeric + Hash, T: Hash> Hash for JostleTree<N, T> {
    /// Feeds the slots to the hasher in order, each its span and then its
    /// item, so that trees with the same slots hash alike whatever their
    /// shape.
    fn hash<H: Hasher>(&self, state: &mut H) {
        let mut slots: Vec<&Branch<N, T>> = Vec::new();
        collect_slots(&self.head_node, &mut slots);
        let mut i: usize = 0;
        while i < slots.len()
            invariant
                i <= slots@.len(),
            decreases slots@.len() - i,
        {
            let b = slots[i];
            hash_value(&b.span, state);
            hash_value(&b.v, state);
            i = i + 1;
        }
    }
}

/// What `==` on two trees answers, where the items' `==` follows its spec:
/// true exactly when, at every index below both lengths, the two slots have
/// equal spans and equal items. The shorter tree's end stops the comparison.
pub proof fn lemma_eq_compares_slots<N: Numeric, T: PartialEq>(
    a: &JostleTree<N, T>,
    b: &JostleTree<N, T>,
)
    ensures
        <JostleTree<N, T> as PartialEqSpec>::obeys_eq_spec() == T::obeys_eq_spec(),
        PartialEqSpec::eq_spec(a, b) <==> (forall|i: int|
            #![trigger a@[i], b@[i]]
            0 <= i < a@.len() && i < b@.len() ==> a@[i].0.as_int() == b@[i].0.as_int()
                && a@[i].1.eq_spec(&b@[i].1)),
{
    assert(PartialEqSpec::eq_spec(a, b) == slots_prefix_equal(a@, b@));
    if PartialEqSpec::eq_spec(a, b) {
        assert forall|i: int|
            #![trigger a@[i], b@[i]]
            0 <= i < a@.len() && i < b@.len() implies a@[i].0.as_int() == b@[i].0.as_int()
                && a@[i].1.eq_spec(&b@[i].1) by {
            assert(a@[i].1.eq_spec(&b@[i].1));
        }
    }
}

/// Two trees that `==` finds equal have equal spans at every index below
/// both lengths, the first one included, and equal items there.
pub proof fn lemma_eq_slots_equal<N: Numeric, T: PartialEq>(
    a: &JostleTree<N, T>,
    b: &JostleTree<N, T>,
    i: int,
)
    requires
        PartialEqSpec::eq_spec(a, b),
        0 <= i < a@.len(),
        i < b@.len(),
    ensures
        a@[i].0.as_int() == b@[i].0.as_int(),
        a@[i].1.eq_spec(&b@[i].1),
{
    lemma_eq_compares_slots(a, b);
}

/// `==` on trees is symmetric where `==` on the items is: `a == b` exactly
/// when `b == a`.
pub proof fn lemma_eq_symmetric<N: Numeric, T: PartialEq>(a: &JostleTree<N, T>, b: &JostleTree<N, T>)
    requires
        forall|x: T, y: T| #[trigger] x.eq_spec(&y) <==> y.eq_spec(&x),
    ensures
        PartialEqSpec::eq_spec(a, b) <==> PartialEqSpec::eq_spec(b, a),
{
    lemma_eq_compares_slots(a, b);
    lemma_eq_compares_slots(b, a);
    if PartialEqSpec::eq_spec(a, b) {
        assert forall|i: int| 0 <= i < b@.len() && i < a@.len() implies b@[i].0.as_int() == a@[i].0.as_int()
            && #[trigger] b@[i].1.eq_spec(&a@[i].1) by {
            lemma_eq_slots_equal(a, b, i);
        }
    }
    if PartialEqSpec::eq_spec(b, a) {
        assert forall|i: int| 0 <= i < a@.len() && i < b@.len() implies a@[i].0.as_int() == b@[i].0.as_int()
            && #[trigger] a@[i].1.eq_spec(&b@[i].1) by {
            lemma_eq_slots_equal(b, a, i);
        }
    }
}

} // verus!
