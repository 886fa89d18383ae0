use vstd::prelude::*;
use vstd::arithmetic::power2::{lemma2_to64, lemma_pow2_strictly_increases, lemma_pow2_unfold, pow2};
use crate::numeric::Numeric;
use crate::spans::{
    insertion_index, lemma_insertion_index_range, lemma_insertion_index_three,
    lemma_span_sum_insert, lemma_span_sum_nonneg, lemma_span_sum_remove, lemma_span_sum_three,
    lemma_span_sum_update, lemma_start_of_three, slot_index, span_sum, spans_nonneg, start_of,
};

verus! {

/// A slot of a jostle tree: an item, its span, and the subtrees of the slots
/// before and after it, with the number of slots, the sum of the spans and
/// the height of the subtree that it roots.
#[derive(Debug)]
pub struct Branch<N, T> {
    pub(crate) left: Option<Box<Branch<N, T>>>,
    pub(crate) right: Option<Box<Branch<N, T>>>,
    pub v: T,
    pub(crate) deepness: usize,
    pub(crate) count: usize,
    pub(crate) span: N,
    pub(crate) total_span: N,
}

/// The larger of two integers.
pub open spec fn max2(a: int, b: int) -> int {
    if a >= b {
        a
    } else {
        b
    }
}

/// The slots of a subtree, in order.
pub(crate) open spec fn link_seq<N, T>(l: Option<Box<Branch<N, T>>>) -> Seq<(N, T)>
    decreases l,
{
    match l {
        None => Seq::empty(),
        Some(b) => link_seq(b.left) + seq![(b.span, b.v)] + link_seq(b.right),
    }
}

/// The height of a subtree: zero for an empty one.
pub(crate) open spec fn height<N, T>(l: Option<Box<Branch<N, T>>>) -> int
    decreases l,
{
    match l {
        None => 0,
        Some(b) => 1 + max2(height(b.left), height(b.right)),
    }
}

/// A subtree is well formed: no span is negative, every slot holds the true
/// count, span sum and height of the subtree below it, and the heights of its
/// two subtrees differ by at most one.
pub(crate) open spec fn link_wf<N: Numeric, T>(l: Option<Box<Branch<N, T>>>) -> bool
    decreases l,
{
    match l {
        None => true,
        Some(b) => {
            &&& link_wf(b.left)
            &&& link_wf(b.right)
            &&& b.count == link_seq(b.left).len() + 1 + link_seq(b.right).len()
            &&& b.total_span.as_int() == span_sum(link_seq(b.left)) + b.span.as_int() + span_sum(
                link_seq(b.right),
            )
            &&& b.span.as_int() >= 0
            &&& b.deepness == height(l)
            &&& -1 <= height(b.left) - height(b.right) <= 1
        },
    }
}

/// Every slot's recorded heights of its two subtrees differ by at most one.
pub(crate) open spec fn recorded_balanced<N, T>(l: Option<Box<Branch<N, T>>>) -> bool
    decreases l,
{
    match l {
        None => true,
        Some(b) => {
            &&& -1 <= recorded_height(b.left) - recorded_height(b.right) <= 1
            &&& recorded_balanced(b.left)
            &&& recorded_balanced(b.right)
        },
    }
}

/// The height that a subtree's root records.
pub(crate) open spec fn recorded_height<N, T>(l: Option<Box<Branch<N, T>>>) -> int {
    match l {
        None => 0,
        Some(b) => b.deepness as int,
    }
}

/// A height never exceeds the number of slots.
pub(crate) proof fn lemma_height_bound<N, T>(l: Option<Box<Branch<N, T>>>)
    ensures
        0 <= height(l) <= link_seq(l).len(),
    decreases l,
{
    if let Some(b) = l {
        lemma_height_bound(b.left);
        lemma_height_bound(b.right);
    }
}

/// In a well-formed subtree the recorded heights are the true ones, so it is
/// balanced as recorded.
pub(crate) proof fn lemma_wf_recorded_balanced<N: Numeric, T>(l: Option<Box<Branch<N, T>>>)
    requires
        link_wf(l),
    ensures
        recorded_balanced(l),
    decreases l,
{
    if let Some(b) = l {
        lemma_wf_recorded_balanced(b.left);
        lemma_wf_recorded_balanced(b.right);
        lemma_wf_recorded_height(b.left);
        lemma_wf_recorded_height(b.right);
    }
}

/// In a well-formed subtree the root records the true height.
pub(crate) proof fn lemma_wf_recorded_height<N: Numeric, T>(l: Option<Box<Branch<N, T>>>)
    requires
        link_wf(l),
    ensures
        recorded_height(l) == height(l),
{
}

/// The span sum of a well-formed subtree fits in the span type.
pub(crate) proof fn lemma_link_sum_bound<N: Numeric, T>(l: Option<Box<Branch<N, T>>>)
    requires
        link_wf(l),
    ensures
        0 <= span_sum(link_seq(l)) <= N::max_value(),
        N::min_value() <= 0 <= N::max_value(),
    decreases l,
{
    N::lemma_range(vstd::pervasive::arbitrary());
    match l {
        None => {
            assert(span_sum(link_seq(l)) == 0);
        },
        Some(b) => {
            lemma_link_sum_bound(b.left);
            lemma_link_sum_bound(b.right);
            lemma_span_sum_three(link_seq(b.left), (b.span, b.v), link_seq(b.right));
            N::lemma_range(b.total_span);
        },
    }
}

/// No span in a well-formed subtree is negative.
pub(crate) proof fn lemma_link_nonneg<N: Numeric, T>(l: Option<Box<Branch<N, T>>>)
    requires
        link_wf(l),
    ensures
        spans_nonneg(link_seq(l)),
    decreases l,
{
    if let Some(b) = l {
        lemma_link_nonneg(b.left);
        lemma_link_nonneg(b.right);
        let sl = link_seq(b.left);
        let sr = link_seq(b.right);
        let s = link_seq(l);
        assert forall|k: int| 0 <= k < s.len() implies #[trigger] s[k].0.as_int() >= 0 by {
            if k < sl.len() {
                assert(s[k] == sl[k]);
            } else if k > sl.len() {
                assert(s[k] == sr[k - sl.len() - 1]);
            }
        }
    }
}

/// The number of slots of a well-formed subtree.
pub(crate) fn link_count<N: Numeric, T>(l: &Option<Box<Branch<N, T>>>) -> (r: usize)
    requires
        link_wf(*l),
    ensures
        r == link_seq(*l).len(),
{
    match l {
        None => 0,
        Some(b) => b.count,
    }
}

/// The span sum of a well-formed subtree.
pub(crate) fn link_total<N: Numeric, T>(l: &Option<Box<Branch<N, T>>>) -> (r: N)
    requires
        link_wf(*l),
    ensures
        r.as_int() == span_sum(link_seq(*l)),
{
    match l {
        None => N::zero(),
        Some(b) => {
            proof {
                lemma_span_sum_three(link_seq(b.left), (b.span, b.v), link_seq(b.right));
            }
            b.total_span
        },
    }
}

/// The height of a well-formed subtree.
pub(crate) fn link_height<N: Numeric, T>(l: &Option<Box<Branch<N, T>>>) -> (r: usize)
    requires
        link_wf(*l),
    ensures
        r == height(*l),
{
    match l {
        None => 0,
        Some(b) => b.deepness,
    }
}

/// A slot above two subtrees whose heights differ by at most one.
pub(crate) fn make_node<N: Numeric, T>(
    left: Option<Box<Branch<N, T>>>,
    v: T,
    span: N,
    right: Option<Box<Branch<N, T>>>,
) -> (r: Box<Branch<N, T>>)
    requires
        span.as_int() >= 0,
        link_wf(left),
        link_wf(right),
        span_sum(link_seq(left)) + span.as_int() + span_sum(link_seq(right)) <= N::max_value(),
        link_seq(left).len() + 1 + link_seq(right).len() <= usize::MAX,
        -1 <= height(left) - height(right) <= 1,
    ensures
        link_wf(Some(r)),
        link_seq(Some(r)) == link_seq(left) + seq![(span, v)] + link_seq(right),
        height(Some(r)) == 1 + max2(height(left), height(right)),
{
    let cl = link_count(&left);
    let cr = link_count(&right);
    let tl = link_total(&left);
    let tr = link_total(&right);
    let hl = link_height(&left);
    let hr = link_height(&right);
    proof {
        lemma_height_bound(left);
        lemma_height_bound(right);
        lemma_link_sum_bound(left);
        lemma_link_sum_bound(right);
    }
    let h = if hl >= hr {
        hl + 1
    } else {
        hr + 1
    };
    let total = tl.plus(span).plus(tr);
    Box::new(Branch { left, right, v, deepness: h, count: cl + 1 + cr, span, total_span: total })
}

/// A slot above a left subtree two levels taller than the right one, rotated
/// to the right (once, or twice where the left subtree leans right).
#[verifier::rlimit(40)]
fn fix_left_heavy<N: Numeric, T>(
    left: Option<Box<Branch<N, T>>>,
    v: T,
    span: N,
    right: Option<Box<Branch<N, T>>>,
) -> (r: Box<Branch<N, T>>)
    requires
        span.as_int() >= 0,
        link_wf(left),
        link_wf(right),
        span_sum(link_seq(left)) + span.as_int() + span_sum(link_seq(right)) <= N::max_value(),
        link_seq(left).len() + 1 + link_seq(right).len() <= usize::MAX,
        height(left) == height(right) + 2,
    ensures
        link_wf(Some(r)),
        link_seq(Some(r)) == link_seq(left) + seq![(span, v)] + link_seq(right),
        height(left) <= height(Some(r)) <= 1 + height(left),
{
    proof {
        lemma_link_sum_bound(left);
        lemma_link_sum_bound(right);
        N::lemma_range(span);
    }
    let lb = left.unwrap();
    let ghost sl = link_seq(lb.left);
    let ghost sr = link_seq(lb.right);
    let ghost x = (lb.span, lb.v);
    let Branch { left: ll, right: lr, v: lv, span: lspan, .. } = *lb;
    proof {
        lemma_span_sum_three(sl, x, sr);
        lemma_link_sum_bound(ll);
        lemma_link_sum_bound(lr);
    }
    let hll = link_height(&ll);
    let hlr = link_height(&lr);
    if hll >= hlr {
        let nr = make_node(lr, v, span, right);
        proof {
            lemma_span_sum_three(sr, (span, v), link_seq(right));
        }
        let r = make_node(ll, lv, lspan, Some(nr));
        proof {
            assert(link_seq(Some(r)) =~= link_seq(left) + seq![(span, v)] + link_seq(right));
        }
        r
    } else {
        let lrb = lr.unwrap();
        proof {
            reveal_with_fuel(link_wf, 2);
            reveal_with_fuel(height, 2);
        }
        let ghost s2l = link_seq(lrb.left);
        let ghost s2r = link_seq(lrb.right);
        let ghost y = (lrb.span, lrb.v);
        let Branch { left: lrl, right: lrr, v: lrv, span: lrspan, .. } = *lrb;
        proof {
            lemma_span_sum_three(s2l, y, s2r);
            lemma_link_sum_bound(lrl);
            lemma_link_sum_bound(lrr);
        }
        let a = make_node(ll, lv, lspan, lrl);
        let c = make_node(lrr, v, span, right);
        proof {
            lemma_span_sum_three(sl, x, s2l);
            lemma_span_sum_three(s2r, (span, v), link_seq(right));
        }
        let r = make_node(Some(a), lrv, lrspan, Some(c));
        proof {
            assert(link_seq(Some(r)) =~= link_seq(left) + seq![(span, v)] + link_seq(right));
        }
        r
    }
}

/// A slot above a right subtree two levels taller than the left one, rotated
/// to the left (once, or twice where the right subtree leans left).
#[verifier::rlimit(40)]
fn fix_right_heavy<N: Numeric, T>(
    left: Option<Box<Branch<N, T>>>,
    v: T,
    span: N,
    right: Option<Box<Branch<N, T>>>,
) -> (r: Box<Branch<N, T>>)
    requires
        span.as_int() >= 0,
        link_wf(left),
        link_wf(right),
        span_sum(link_seq(left)) + span.as_int() + span_sum(link_seq(right)) <= N::max_value(),
        link_seq(left).len() + 1 + link_seq(right).len() <= usize::MAX,
        height(right) == height(left) + 2,
    ensures
        link_wf(Some(r)),
        link_seq(Some(r)) == link_seq(left) + seq![(span, v)] + link_seq(right),
        height(right) <= height(Some(r)) <= 1 + height(right),
{
    proof {
        lemma_link_sum_bound(left);
        lemma_link_sum_bound(right);
        N::lemma_range(span);
    }
    let rb = right.unwrap();
    let ghost sl = link_seq(rb.left);
    let ghost sr = link_seq(rb.right);
    let ghost x = (rb.span, rb.v);
    let Branch { left: rl, right: rr, v: rv, span: rspan, .. } = *rb;
    proof {
        lemma_span_sum_three(sl, x, sr);
        lemma_link_sum_bound(rl);
        lemma_link_sum_bound(rr);
    }
    let hrl = link_height(&rl);
    let hrr = link_height(&rr);
    if hrr >= hrl {
        let nl = make_node(left, v, span, rl);
        proof {
            lemma_span_sum_three(link_seq(left), (span, v), sl);
        }
        let r = make_node(Some(nl), rv, rspan, rr);
        proof {
            assert(link_seq(Some(r)) =~= link_seq(left) + seq![(span, v)] + link_seq(right));
        }
        r
    } else {
        let rlb = rl.unwrap();
        proof {
            reveal_with_fuel(link_wf, 2);
            reveal_with_fuel(height, 2);
        }
        let ghost s2l = link_seq(rlb.left);
        let ghost s2r = link_seq(rlb.right);
        let ghost y = (rlb.span, rlb.v);
        let Branch { left: rll, right: rlr, v: rlv, span: rlspan, .. } = *rlb;
        proof {
            lemma_span_sum_three(s2l, y, s2r);
            lemma_link_sum_bound(rll);
            lemma_link_sum_bound(rlr);
        }
        let a = make_node(left, v, span, rll);
        let c = make_node(rlr, rv, rspan, rr);
        proof {
            lemma_span_sum_three(link_seq(left), (span, v), s2l);
            lemma_span_sum_three(s2r, x, sr);
        }
        let r = make_node(Some(a), rlv, rlspan, Some(c));
        proof {
            assert(link_seq(Some(r)) =~= link_seq(left) + seq![(span, v)] + link_seq(right));
        }
        r
    }
}

/// A slot above two subtrees whose heights differ by at most two, rotated so
/// that the result is balanced.
pub(crate) fn rebalance<N: Numeric, T>(
    left: Option<Box<Branch<N, T>>>,
    v: T,
    span: N,
    right: Option<Box<Branch<N, T>>>,
) -> (r: Box<Branch<N, T>>)
    requires
        span.as_int() >= 0,
        link_wf(left),
        link_wf(right),
        span_sum(link_seq(left)) + span.as_int() + span_sum(link_seq(right)) <= N::max_value(),
        link_seq(left).len() + 1 + link_seq(right).len() <= usize::MAX,
        -2 <= height(left) - height(right) <= 2,
    ensures
        link_wf(Some(r)),
        link_seq(Some(r)) == link_seq(left) + seq![(span, v)] + link_seq(right),
        -1 <= height(left) - height(right) <= 1 ==> height(Some(r)) == 1 + max2(
            height(left),
            height(right),
        ),
        max2(height(left), height(right)) <= height(Some(r)) <= 1 + max2(
            height(left),
            height(right),
        ),
{
    let hl = link_height(&left);
    let hr = link_height(&right);
    if hl > hr && hl - hr > 1 {
        fix_left_heavy(left, v, span, right)
    } else if hr > hl && hr - hl > 1 {
        fix_right_heavy(left, v, span, right)
    } else {
        make_node(left, v, span, right)
    }
}

/// Inserts a slot where an insertion at offset `o` goes: before the first
/// slot that ends after `o`.
pub(crate) fn insert_at_offset<N: Numeric, T>(
    l: Option<Box<Branch<N, T>>>,
    o: N,
    span: N,
    v: T,
) -> (r: Box<Branch<N, T>>)
    requires
        span.as_int() >= 0,
        link_wf(l),
        span_sum(link_seq(l)) + span.as_int() <= N::max_value(),
        link_seq(l).len() < usize::MAX,
    ensures
        link_wf(Some(r)),
        link_seq(Some(r)) == link_seq(l).insert(
            insertion_index(link_seq(l), o.as_int()),
            (span, v),
        ),
        height(l) <= height(Some(r)) <= height(l) + 1,
    decreases l,
{
    proof {
        N::lemma_range(o);
        lemma_insertion_index_range(link_seq(l), o.as_int());
        lemma_link_sum_bound(l);
    }
    match l {
        None => {
            proof {
                assert(span_sum(link_seq(l)) == 0);
            }
            let r = make_node(None, v, span, None);
            proof {
                assert(link_seq(Some(r)) =~= link_seq(l).insert(0, (span, v)));
            }
            r
        },
        Some(b) => {
            let ghost sl = link_seq(b.left);
            let ghost sr = link_seq(b.right);
            let ghost x = (b.span, b.v);
            let Branch { left, right, v: bv, span: bs, .. } = *b;
            proof {
                lemma_span_sum_three(sl, x, sr);
                lemma_link_sum_bound(left);
                lemma_link_sum_bound(right);
                lemma_link_nonneg(left);
                lemma_link_nonneg(right);
                lemma_insertion_index_three(sl, x, sr, o.as_int());
            }
            let lt = link_total(&left);
            let end = lt.plus(bs);
            if o.less_than(end) {
                let ghost p = insertion_index(sl, o.as_int());
                proof {
                    lemma_insertion_index_range(sl, o.as_int());
                }
                let nl = insert_at_offset(left, o, span, v);
                proof {
                    lemma_span_sum_insert(sl, p, (span, v));
                }
                let r = rebalance(Some(nl), bv, bs, right);
                proof {
                    assert(link_seq(Some(r)) =~= link_seq(l).insert(
                        insertion_index(link_seq(l), o.as_int()),
                        (span, v),
                    ));
                }
                r
            } else {
                let o2 = o.minus(end);
                let ghost q = insertion_index(sr, o2.as_int());
                proof {
                    lemma_insertion_index_range(sr, o2.as_int());
                }
                let nr = insert_at_offset(right, o2, span, v);
                proof {
                    lemma_span_sum_insert(sr, q, (span, v));
                }
                let r = rebalance(left, bv, bs, Some(nr));
                proof {
                    assert(link_seq(Some(r)) =~= link_seq(l).insert(
                        insertion_index(link_seq(l), o.as_int()),
                        (span, v),
                    ));
                }
                r
            }
        },
    }
}

/// Inserts a slot before all others (`front`) or after all others.
pub(crate) fn insert_edge<N: Numeric, T>(
    l: Option<Box<Branch<N, T>>>,
    front: bool,
    span: N,
    v: T,
) -> (r: Box<Branch<N, T>>)
    requires
        span.as_int() >= 0,
        link_wf(l),
        span_sum(link_seq(l)) + span.as_int() <= N::max_value(),
        link_seq(l).len() < usize::MAX,
    ensures
        link_wf(Some(r)),
        link_seq(Some(r)) == (if front {
            seq![(span, v)] + link_seq(l)
        } else {
            link_seq(l).push((span, v))
        }),
        height(l) <= height(Some(r)) <= height(l) + 1,
    decreases l,
{
    proof {
        lemma_link_sum_bound(l);
    }
    match l {
        None => {
            proof {
                assert(span_sum(link_seq(l)) == 0);
            }
            let r = make_node(None, v, span, None);
            proof {
                assert(link_seq(Some(r)) =~= seq![(span, v)]);
                assert(link_seq(Some(r)) =~= link_seq(l).push((span, v)));
            }
            r
        },
        Some(b) => {
            let ghost sl = link_seq(b.left);
            let ghost sr = link_seq(b.right);
            let ghost x = (b.span, b.v);
            let Branch { left, right, v: bv, span: bs, .. } = *b;
            proof {
                lemma_span_sum_three(sl, x, sr);
                lemma_link_sum_bound(left);
                lemma_link_sum_bound(right);
                lemma_link_nonneg(left);
                lemma_link_nonneg(right);
            }
            if front {
                let nl = insert_edge(left, front, span, v);
                proof {
                    lemma_span_sum_insert(sl, 0, (span, v));
                    assert(seq![(span, v)] + sl =~= sl.insert(0, (span, v)));
                }
                let r = rebalance(Some(nl), bv, bs, right);
                proof {
                    assert(link_seq(Some(r)) =~= seq![(span, v)] + link_seq(l));
                }
                r
            } else {
                let nr = insert_edge(right, front, span, v);
                proof {
                    lemma_span_sum_insert(sr, sr.len() as int, (span, v));
                    assert(sr.push((span, v)) =~= sr.insert(sr.len() as int, (span, v)));
                }
                let r = rebalance(left, bv, bs, Some(nr));
                proof {
                    assert(link_seq(Some(r)) =~= link_seq(l).push((span, v)));
                }
                r
            }
        },
    }
}

/// The index of the slot found at offset `o`: the one that covers `o`, or
/// the last one where `o` lies beyond the end.
pub(crate) fn offset_index<N: Numeric, T>(l: &Option<Box<Branch<N, T>>>, o: N) -> (r: usize)
    requires
        link_wf(*l),
        link_seq(*l).len() > 0,
    ensures
        r == slot_index(link_seq(*l), o.as_int()),
    decreases *l,
{
    proof {
        N::lemma_range(o);
    }
    match l {
        None => 0,
        Some(b) => {
            let ghost sl = link_seq(b.left);
            let ghost sr = link_seq(b.right);
            let ghost x = (b.span, b.v);
            proof {
                lemma_span_sum_three(sl, x, sr);
                lemma_link_sum_bound(b.left);
                lemma_link_sum_bound(b.right);
                lemma_link_nonneg(b.left);
                lemma_insertion_index_three(sl, x, sr, o.as_int());
                lemma_insertion_index_range(link_seq(*l), o.as_int());
                lemma_link_sum_bound(*l);
            }
            let lt = link_total(&b.left);
            if o.less_than(lt) {
                proof {
                    lemma_insertion_index_range(sl, o.as_int());
                }
                match &b.left {
                    None => 0,
                    Some(_) => offset_index(&b.left, o),
                }
            } else {
                let end = lt.plus(b.span);
                let cl = link_count(&b.left);
                if o.less_than(end) {
                    cl
                } else {
                    match &b.right {
                        None => cl,
                        Some(_) => {
                            let o2 = o.minus(end);
                            proof {
                                lemma_insertion_index_range(sr, o2.as_int());
                            }
                            let i = offset_index(&b.right, o2);
                            cl + 1 + i
                        },
                    }
                }
            }
        },
    }
}

/// The slot at index `i`.
pub(crate) fn branch_at_index<'a, N: Numeric, T>(l: &'a Option<Box<Branch<N, T>>>, i: usize) -> (r:
    &'a Branch<N, T>)
    requires
        link_wf(*l),
        i < link_seq(*l).len(),
    ensures
        (r.span, r.v) == link_seq(*l)[i as int],
        (r.span_of(), r.element_of()) == link_seq(*l)[i as int],
    decreases *l,
{
    match l {
        None => {
            proof {
                assert(false);
            }
            branch_at_index(l, i)
        },
        Some(b) => {
            let cl = link_count(&b.left);
            if i < cl {
                branch_at_index(&b.left, i)
            } else if i == cl {
                b
            } else {
                branch_at_index(&b.right, i - cl - 1)
            }
        },
    }
}

/// The offset at which slot `i` starts.
pub(crate) fn start_offset<N: Numeric, T>(l: &Option<Box<Branch<N, T>>>, i: usize) -> (r: N)
    requires
        link_wf(*l),
        i <= link_seq(*l).len(),
    ensures
        r.as_int() == start_of(link_seq(*l), i as int),
    decreases *l,
{
    match l {
        None => {
            proof {
                assert(link_seq(*l).take(0) =~= Seq::<(N, T)>::empty());
            }
            N::zero()
        },
        Some(b) => {
            let ghost sl = link_seq(b.left);
            let ghost sr = link_seq(b.right);
            let ghost x = (b.span, b.v);
            proof {
                lemma_start_of_three(sl, x, sr, i as int);
                lemma_span_sum_three(sl, x, sr);
                lemma_link_sum_bound(*l);
                lemma_link_sum_bound(b.left);
                lemma_link_sum_bound(b.right);
                lemma_link_nonneg(b.right);
            }
            let cl = link_count(&b.left);
            if i <= cl {
                start_offset(&b.left, i)
            } else {
                let lt = link_total(&b.left);
                let rest = start_offset(&b.right, i - cl - 1);
                proof {
                    assert(sr =~= sr.take((i - cl - 1) as int) + sr.skip((i - cl - 1) as int));
                    crate::spans::lemma_span_sum_concat(sr.take((i - cl - 1) as int), sr.skip((i - cl - 1) as int));
                    crate::spans::lemma_nonneg_subrange(sr, (i - cl - 1) as int, sr.len() as int);
                    lemma_span_sum_nonneg(sr.skip((i - cl - 1) as int));
                    crate::spans::lemma_nonneg_subrange(sr, 0, (i - cl - 1) as int);
                    lemma_span_sum_nonneg(sr.take((i - cl - 1) as int));
                }
                lt.plus(b.span).plus(rest)
            }
        },
    }
}

/// Removes the last slot, returning what remains, the slot's span and its
/// item.
pub(crate) fn remove_last<N: Numeric, T>(l: Option<Box<Branch<N, T>>>) -> (r: (
    Option<Box<Branch<N, T>>>,
    N,
    T,
))
    requires
        link_wf(l),
        link_seq(l).len() > 0,
    ensures
        link_wf(r.0),
        link_seq(r.0) == link_seq(l).drop_last(),
        (r.1, r.2) == link_seq(l).last(),
        height(l) - 1 <= height(r.0) <= height(l),
    decreases l,
{
    let b = l.unwrap();
    let ghost sl = link_seq(b.left);
    let ghost sr = link_seq(b.right);
    let ghost x = (b.span, b.v);
    let Branch { left, right, v: bv, span: bs, .. } = *b;
    proof {
        lemma_span_sum_three(sl, x, sr);
        lemma_link_sum_bound(left);
        lemma_link_sum_bound(right);
        lemma_link_nonneg(left);
        lemma_link_nonneg(right);
        lemma_link_sum_bound(l);
        lemma_height_bound(left);
        lemma_height_bound(right);
    }
    match right {
        None => {
            proof {
                assert(link_seq(l) =~= sl.push(x));
            }
            (left, bs, bv)
        },
        Some(_) => {
            let (nr, ms, mv) = remove_last(right);
            proof {
                N::lemma_range(ms);
                lemma_span_sum_remove(sr, sr.len() - 1);
                assert(sr.drop_last() =~= sr.remove(sr.len() - 1));
            }
            let r = rebalance(left, bv, bs, nr);
            proof {
                assert(link_seq(Some(r)) =~= link_seq(l).drop_last());
            }
            (Some(r), ms, mv)
        },
    }
}

/// The slots of two subtrees, with nothing between them: what remains of a
/// slot that is removed. Where both are non-empty, the last slot of the left
/// one moves up.
fn join_subtrees<N: Numeric, T>(
    left: Option<Box<Branch<N, T>>>,
    right: Option<Box<Branch<N, T>>>,
) -> (r: Option<Box<Branch<N, T>>>)
    requires
        link_wf(left),
        link_wf(right),
        span_sum(link_seq(left)) + span_sum(link_seq(right)) <= N::max_value(),
        link_seq(left).len() + link_seq(right).len() < usize::MAX,
        -1 <= height(left) - height(right) <= 1,
    ensures
        link_wf(r),
        link_seq(r) == link_seq(left) + link_seq(right),
        max2(height(left), height(right)) <= height(r) <= 1 + max2(height(left), height(right)),
{
    proof {
        lemma_link_nonneg(left);
        lemma_link_sum_bound(left);
        lemma_link_sum_bound(right);
        lemma_height_bound(left);
        lemma_height_bound(right);
    }
    match left {
        None => {
            proof {
                assert(link_seq(left) + link_seq(right) =~= link_seq(right));
            }
            right
        },
        Some(_) => {
            match right {
                None => {
                    proof {
                        assert(link_seq(left) + link_seq(right) =~= link_seq(left));
                    }
                    left
                },
                Some(_) => {
                    let ghost sl = link_seq(left);
                    let (nl, ms, mv) = remove_last(left);
                    proof {
                        lemma_span_sum_remove(sl, sl.len() - 1);
                        assert(sl.drop_last() =~= sl.remove(sl.len() - 1));
                        N::lemma_range(ms);
                    }
                    let r = rebalance(nl, mv, ms, right);
                    proof {
                        assert(link_seq(Some(r)) =~= sl + link_seq(right));
                    }
                    Some(r)
                },
            }
        },
    }
}

/// Removes slot `i`, returning what remains, the slot's span and its item.
/// A slot with two subtrees takes the place of the last slot before it.
pub(crate) fn remove_index<N: Numeric, T>(l: Option<Box<Branch<N, T>>>, i: usize) -> (r: (
    Option<Box<Branch<N, T>>>,
    N,
    T,
))
    requires
        link_wf(l),
        i < link_seq(l).len(),
    ensures
        link_wf(r.0),
        link_seq(r.0) == link_seq(l).remove(i as int),
        (r.1, r.2) == link_seq(l)[i as int],
        height(l) - 1 <= height(r.0) <= height(l),
    decreases l,
{
    let b = l.unwrap();
    let ghost sl = link_seq(b.left);
    let ghost sr = link_seq(b.right);
    let ghost x = (b.span, b.v);
    let Branch { left, right, v: bv, span: bs, .. } = *b;
    proof {
        lemma_span_sum_three(sl, x, sr);
        lemma_link_sum_bound(left);
        lemma_link_sum_bound(right);
        lemma_link_nonneg(left);
        lemma_link_nonneg(right);
        lemma_link_sum_bound(l);
        lemma_height_bound(left);
        lemma_height_bound(right);
    }
    let cl = link_count(&left);
    if i < cl {
        let (nl, s, t) = remove_index(left, i);
        proof {
            N::lemma_range(s);
            lemma_span_sum_remove(sl, i as int);
        }
        let r = rebalance(nl, bv, bs, right);
        proof {
            assert(link_seq(Some(r)) =~= link_seq(l).remove(i as int));
        }
        (Some(r), s, t)
    } else if i == cl {
        let joined = join_subtrees(left, right);
        proof {
            assert(link_seq(joined) =~= link_seq(l).remove(i as int));
        }
        (joined, bs, bv)
    } else {
        let (nr, s, t) = remove_index(right, i - cl - 1);
        proof {
            N::lemma_range(s);
            lemma_span_sum_remove(sr, i - cl - 1);
        }
        let r = rebalance(left, bv, bs, nr);
        proof {
            assert(link_seq(Some(r)) =~= link_seq(l).remove(i as int));
        }
        (Some(r), s, t)
    }
}

/// Gives slot `i` a new span, updating the span sums above it.
pub(crate) fn set_span_index<N: Numeric, T>(l: &mut Option<Box<Branch<N, T>>>, i: usize, span: N)
    requires
        span.as_int() >= 0,
        link_wf(*old(l)),
        i < link_seq(*old(l)).len(),
        span_sum(link_seq(*old(l))) - link_seq(*old(l))[i as int].0.as_int() + span.as_int()
            <= N::max_value(),
    ensures
        link_wf(*final(l)),
        link_seq(*final(l)) == link_seq(*old(l)).update(
            i as int,
            (span, link_seq(*old(l))[i as int].1),
        ),
        height(*final(l)) == height(*old(l)),
    decreases *old(l),
{
    match l {
        None => {
        },
        Some(b) => {
            let ghost sl = link_seq(b.left);
            let ghost sr = link_seq(b.right);
            let ghost x = (b.span, b.v);
            proof {
                lemma_span_sum_three(sl, x, sr);
                N::lemma_range(span);
                lemma_link_sum_bound(b.left);
                lemma_link_sum_bound(b.right);
                lemma_link_nonneg(b.left);
                lemma_link_nonneg(b.right);
            }
            let cl = link_count(&b.left);
            if i < cl {
                proof {
                    N::lemma_range(sl[i as int].0);
                }
                set_span_index(&mut b.left, i, span);
                proof {
                    lemma_span_sum_update(sl, i as int, (span, sl[i as int].1));
                }
            } else if i == cl {
                b.span = span;
            } else {
                proof {
                    N::lemma_range(sr[i - cl - 1].0);
                }
                set_span_index(&mut b.right, i - cl - 1, span);
                proof {
                    lemma_span_sum_update(sr, i - cl - 1, (span, sr[i - cl - 1].1));
                }
            }
            proof {
                lemma_link_sum_bound(b.left);
                lemma_link_sum_bound(b.right);
                N::lemma_range(b.span);
                assert(link_seq(*old(l)) =~= sl + seq![x] + sr);
            }
            let lt = link_total(&b.left);
            let rt = link_total(&b.right);
            b.total_span = lt.plus(b.span).plus(rt);
            proof {
                assert(link_seq(*l) =~= link_seq(*old(l)).update(
                    i as int,
                    (span, link_seq(*old(l))[i as int].1),
                ));
            }
        },
    }
}

/// The item of slot `i`, to change in place.
pub(crate) fn element_mut_index<'a, N: Numeric, T>(
    l: &'a mut Option<Box<Branch<N, T>>>,
    i: usize,
) -> (r: &'a mut T)
    requires
        link_wf(*old(l)),
        i < link_seq(*old(l)).len(),
    ensures
        *r == link_seq(*old(l))[i as int].1,
        link_wf(*final(l)),
        link_seq(*final(l)) == link_seq(*old(l)).update(
            i as int,
            (link_seq(*old(l))[i as int].0, *final(r)),
        ),
        height(*final(l)) == height(*old(l)),
    decreases *old(l),
{
    match l {
        None => {
            proof {
                assert(false);
            }
            element_mut_index(l, i)
        },
        Some(b) => {
            let cl = link_count(&b.left);
            if i < cl {
                let ghost sl = link_seq(b.left);
                let r = element_mut_index(&mut b.left, i);
                proof {
                    lemma_span_sum_update(sl, i as int, (sl[i as int].0, *final(r)));
                }
                r
            } else if i == cl {
                &mut b.v
            } else {
                let ghost sr = link_seq(b.right);
                let r = element_mut_index(&mut b.right, i - cl - 1);
                proof {
                    lemma_span_sum_update(sr, i - cl - 1, (sr[i - cl - 1].0, *final(r)));
                }
                r
            }
        },
    }
}

/// The sum of the spans of a subtree, added up slot by slot.
pub(crate) fn link_sum_of_spans<N: Numeric, T>(l: &Option<Box<Branch<N, T>>>) -> (r: N)
    requires
        link_wf(*l),
    ensures
        r.as_int() == span_sum(link_seq(*l)),
    decreases *l,
{
    match l {
        None => {
            proof {
                assert(span_sum(link_seq(*l)) == 0);
            }
            N::zero()
        },
        Some(b) => {
            proof {
                lemma_span_sum_three(link_seq(b.left), (b.span, b.v), link_seq(b.right));
                lemma_link_sum_bound(*l);
                lemma_link_sum_bound(b.left);
                lemma_link_sum_bound(b.right);
            }
            let sl = link_sum_of_spans(&b.left);
            let sr = link_sum_of_spans(&b.right);
            sl.plus(b.span).plus(sr)
        },
    }
}

/// The height that a subtree's root records, zero for an empty one.
fn recorded_height_of<N, T>(l: &Option<Box<Branch<N, T>>>) -> (r: usize)
    ensures
        r == recorded_height(*l),
{
    match l {
        None => 0,
        Some(b) => b.deepness,
    }
}

/// Whether every slot's recorded heights of its two subtrees differ by at
/// most one.
pub(crate) fn link_recorded_balanced<N, T>(l: &Option<Box<Branch<N, T>>>) -> (r: bool)
    ensures
        r == recorded_balanced(*l),
    decreases *l,
{
    match l {
        None => true,
        Some(b) => {
            let hl = recorded_height_of(&b.left);
            let hr = recorded_height_of(&b.right);
            let close = if hl >= hr {
                hl - hr <= 1
            } else {
                hr - hl <= 1
            };
            close && link_recorded_balanced(&b.left) && link_recorded_balanced(&b.right)
        },
    }
}

/// Where an insertion at offset `o` goes: the number of leading slots that
/// end at or before `o`.
pub(crate) fn offset_insertion_index<N: Numeric, T>(l: &Option<Box<Branch<N, T>>>, o: N) -> (r:
    usize)
    requires
        link_wf(*l),
    ensures
        r == insertion_index(link_seq(*l), o.as_int()),
    decreases *l,
{
    proof {
        N::lemma_range(o);
        lemma_insertion_index_range(link_seq(*l), o.as_int());
    }
    match l {
        None => 0,
        Some(b) => {
            let ghost sl = link_seq(b.left);
            let ghost sr = link_seq(b.right);
            let ghost x = (b.span, b.v);
            proof {
                lemma_span_sum_three(sl, x, sr);
                lemma_link_sum_bound(b.left);
                lemma_link_sum_bound(b.right);
                lemma_link_nonneg(b.left);
                lemma_insertion_index_three(sl, x, sr, o.as_int());
                lemma_link_sum_bound(*l);
            }
            let lt = link_total(&b.left);
            let end = lt.plus(b.span);
            if o.less_than(end) {
                offset_insertion_index(&b.left, o)
            } else {
                let cl = link_count(&b.left);
                let o2 = o.minus(end);
                proof {
                    lemma_insertion_index_range(sr, o2.as_int());
                }
                let i = offset_insertion_index(&b.right, o2);
                cl + 1 + i
            }
        },
    }
}

impl<N: Numeric, T> Branch<N, T> {
    /// The span of this slot.
    pub closed spec fn span_of(&self) -> N {
        self.span
    }

    /// The item in this slot.
    pub closed spec fn element_of(&self) -> T {
        self.v
    }

    /// This slot with another item in it.
    pub closed spec fn with_element(self, v: T) -> Self {
        Branch { v, ..self }
    }

    /// The item in this slot.
    pub fn element(&self) -> (r: &T)
        ensures
            *r == self.element_of(),
    {
        &self.v
    }

    /// The item in this slot, to change in place.
    pub fn element_mut(&mut self) -> (r: &mut T)
        ensures
            *r == old(self).element_of(),
            *final(self) == old(self).with_element(*final(r)),
    {
        &mut self.v
    }

    /// The span of this slot.
    pub fn get_span(&self) -> (r: N)
        ensures
            r == self.span_of(),
    {
        self.span
    }
}

/// A subtree of height `h` holds at least `2^(h/2) - 1` slots, so its height
/// is at most about twice the logarithm of its size.
pub(crate) proof fn lemma_height_logarithmic<N: Numeric, T>(l: Option<Box<Branch<N, T>>>)
    requires
        link_wf(l),
    ensures
        pow2((height(l) / 2) as nat) <= link_seq(l).len() + 1,
    decreases l,
{
    lemma_height_bound(l);
    lemma2_to64();
    if let Some(b) = l {
        lemma_height_bound(b.left);
        lemma_height_bound(b.right);
        lemma_height_logarithmic(b.left);
        lemma_height_logarithmic(b.right);
        let h = height(l);
        if h >= 2 {
            let e = ((h - 2) / 2) as nat;
            let el = (height(b.left) / 2) as nat;
            let er = (height(b.right) / 2) as nat;
            if el > e {
                lemma_pow2_strictly_increases(e, el);
            }
            if er > e {
                lemma_pow2_strictly_increases(e, er);
            }
            lemma_pow2_unfold(e + 1);
            assert(e + 1 == (h / 2) as nat);
        }
    }
}

/// Appends the slots of a subtree, in order, to `out`.
pub(crate) fn collect_slots<'a, N, T>(l: &'a Option<Box<Branch<N, T>>>, out: &mut Vec<&'a Branch<N, T>>)
    ensures
        final(out)@.len() == old(out)@.len() + link_seq(*l).len(),
        forall|i: int| 0 <= i < old(out)@.len() ==> final(out)@[i] == old(out)@[i],
        forall|i: int|
            0 <= i < link_seq(*l).len() ==> (#[trigger] final(out)@[old(out)@.len() + i].span,
                final(out)@[old(out)@.len() + i].v) == link_seq(*l)[i],
    decreases *l,
{
    match l {
        None => {},
        Some(b) => {
            let ghost n0 = out@.len();
            collect_slots(&b.left, out);
            let ghost n1 = out@.len();
            out.push(&**b);
            collect_slots(&b.right, out);
            proof {
                let sl = link_seq(b.left);
                let sr = link_seq(b.right);
                assert forall|i: int| 0 <= i < link_seq(*l).len() implies (#[trigger] out@[n0 + i].span, out@[n0 + i].v) == link_seq(*l)[i] by {
                    if i < sl.len() {
                        assert(out@[n0 + i] == out@[n0 + i]);
                    } else if i == sl.len() {
                    } else {
                        let j = i - sl.len() - 1;
                        assert(n0 + i == n1 + 1 + j);
                    }
                }
            }
        },
    }
}

} // verus!
