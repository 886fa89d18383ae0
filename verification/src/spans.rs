use vstd::prelude::*;
use crate::numeric::Numeric;

verus! {

/// The sum of the spans of a sequence of slots.
pub open spec fn span_sum<N: Numeric, T>(s: Seq<(N, T)>) -> int
    decreases s.len(),
{
    if s.len() == 0 {
        0
    } else {
        s[0].0.as_int() + span_sum(s.drop_first())
    }
}

/// Where an item inserted at offset `o` goes: the number of leading slots
/// that end at or before `o`.
pub open spec fn insertion_index<N: Numeric, T>(s: Seq<(N, T)>, o: int) -> int
    decreases s.len(),
{
    if s.len() == 0 {
        0
    } else if o < s[0].0.as_int() {
        0
    } else {
        1 + insertion_index(s.drop_first(), o - s[0].0.as_int())
    }
}

/// The slot found at offset `o` of a non-empty sequence: the one that covers
/// `o`, or the last slot where `o` lies beyond the end.
pub open spec fn slot_index<N: Numeric, T>(s: Seq<(N, T)>, o: int) -> int {
    let p = insertion_index(s, o);
    if p < s.len() {
        p
    } else {
        s.len() - 1
    }
}

/// No slot has a negative span.
pub open spec fn spans_nonneg<N: Numeric, T>(s: Seq<(N, T)>) -> bool {
    forall|i: int| 0 <= i < s.len() ==> #[trigger] s[i].0.as_int() >= 0
}

/// No slot of a part of a sequence without negative spans has a negative
/// span.
pub proof fn lemma_nonneg_subrange<N: Numeric, T>(s: Seq<(N, T)>, i: int, j: int)
    requires
        spans_nonneg(s),
        0 <= i <= j <= s.len(),
    ensures
        spans_nonneg(s.subrange(i, j)),
        spans_nonneg(s.take(j)),
        spans_nonneg(s.skip(i)),
        i < s.len() ==> spans_nonneg(s.drop_first()),
{
    assert forall|k: int| 0 <= k < s.subrange(i, j).len() implies #[trigger] s.subrange(i, j)[k].0.as_int() >= 0 by {
        assert(s.subrange(i, j)[k] == s[i + k]);
    }
    assert forall|k: int| 0 <= k < s.take(j).len() implies #[trigger] s.take(j)[k].0.as_int() >= 0 by {
        assert(s.take(j)[k] == s[k]);
    }
    assert forall|k: int| 0 <= k < s.skip(i).len() implies #[trigger] s.skip(i)[k].0.as_int() >= 0 by {
        assert(s.skip(i)[k] == s[i + k]);
    }
    if i < s.len() {
        assert forall|k: int| 0 <= k < s.drop_first().len() implies #[trigger] s.drop_first()[k].0.as_int() >= 0 by {
            assert(s.drop_first()[k] == s[k + 1]);
        }
    }
}

/// Inserting a slot without a negative span keeps a sequence without negative
/// spans.
pub proof fn lemma_nonneg_insert<N: Numeric, T>(s: Seq<(N, T)>, p: int, x: (N, T))
    requires
        spans_nonneg(s),
        0 <= p <= s.len(),
        x.0.as_int() >= 0,
    ensures
        spans_nonneg(s.insert(p, x)),
{
    assert forall|k: int| 0 <= k < s.insert(p, x).len() implies #[trigger] s.insert(p, x)[k].0.as_int() >= 0 by {
        if k < p {
            assert(s.insert(p, x)[k] == s[k]);
        } else if k > p {
            assert(s.insert(p, x)[k] == s[k - 1]);
        }
    }
}

/// The offset at which slot `i` starts: the sum of the spans before it.
pub open spec fn start_of<N: Numeric, T>(s: Seq<(N, T)>, i: int) -> int {
    span_sum(s.take(i))
}

/// No span sum is negative.
pub proof fn lemma_span_sum_nonneg<N: Numeric, T>(s: Seq<(N, T)>)
    requires
        spans_nonneg(s),
    ensures
        span_sum(s) >= 0,
    decreases s.len(),
{
    if s.len() > 0 {
        assert(s[0].0.as_int() >= 0);
        assert forall|i: int| 0 <= i < s.drop_first().len() implies #[trigger] s.drop_first()[i].0.as_int() >= 0 by {
            assert(s.drop_first()[i] == s[i + 1]);
        }
        lemma_span_sum_nonneg(s.drop_first());
    }
}

/// The span sum of a concatenation is the sum of the span sums.
pub proof fn lemma_span_sum_concat<N: Numeric, T>(a: Seq<(N, T)>, b: Seq<(N, T)>)
    ensures
        span_sum(a + b) == span_sum(a) + span_sum(b),
    decreases a.len(),
{
    if a.len() > 0 {
        assert((a + b).drop_first() =~= a.drop_first() + b);
        lemma_span_sum_concat(a.drop_first(), b);
    } else {
        assert(a + b =~= b);
    }
}

/// The span sum of a single slot is its span.
pub proof fn lemma_span_sum_single<N: Numeric, T>(x: (N, T))
    ensures
        span_sum(seq![x]) == x.0.as_int(),
{
    assert(seq![x].drop_first() =~= Seq::<(N, T)>::empty());
    assert(span_sum(Seq::<(N, T)>::empty()) == 0);
    assert(seq![x][0] == x);
}

/// The span sum of a left part, a slot and a right part.
pub proof fn lemma_span_sum_three<N: Numeric, T>(a: Seq<(N, T)>, x: (N, T), b: Seq<(N, T)>)
    ensures
        span_sum(a + seq![x] + b) == span_sum(a) + x.0.as_int() + span_sum(b),
{
    lemma_span_sum_concat(a + seq![x], b);
    lemma_span_sum_concat(a, seq![x]);
    lemma_span_sum_single(x);
}

/// Replacing one slot changes the span sum by the difference of the spans.
pub proof fn lemma_span_sum_update<N: Numeric, T>(s: Seq<(N, T)>, i: int, x: (N, T))
    requires
        0 <= i < s.len(),
    ensures
        span_sum(s.update(i, x)) == span_sum(s) - s[i].0.as_int() + x.0.as_int(),
    decreases s.len(),
{
    if i > 0 {
        assert(s.update(i, x).drop_first() =~= s.drop_first().update(i - 1, x));
        lemma_span_sum_update(s.drop_first(), i - 1, x);
    } else {
        assert(s.update(i, x).drop_first() =~= s.drop_first());
    }
}

/// Where an insertion at offset `o` goes in a concatenation: into the first
/// part where some slot of it ends after `o`, else after the first part.
pub proof fn lemma_insertion_index_concat<N: Numeric, T>(a: Seq<(N, T)>, b: Seq<(N, T)>, o: int)
    requires
        spans_nonneg(a),
    ensures
        insertion_index(a, o) < a.len() <==> (a.len() > 0 && o < span_sum(a)),
        insertion_index(a, o) < a.len() ==> insertion_index(a + b, o) == insertion_index(a, o),
        insertion_index(a, o) >= a.len() ==> insertion_index(a, o) == a.len() && insertion_index(
            a + b,
            o,
        ) == a.len() + insertion_index(b, o - span_sum(a)),
    decreases a.len(),
{
    lemma_insertion_index_range(a, o);
    if a.len() > 0 {
        let t = a.drop_first();
        assert((a + b).drop_first() =~= t + b);
        assert((a + b)[0] == a[0]);
        assert(a[0].0.as_int() >= 0);
        assert forall|i: int| 0 <= i < t.len() implies #[trigger] t[i].0.as_int() >= 0 by {
            assert(t[i] == a[i + 1]);
        }
        lemma_span_sum_nonneg(t);
        if o >= a[0].0.as_int() {
            lemma_insertion_index_concat(t, b, o - a[0].0.as_int());
        }
    } else {
        assert(a + b =~= b);
    }
}

/// An insertion index lies between zero and the length.
pub proof fn lemma_insertion_index_range<N: Numeric, T>(s: Seq<(N, T)>, o: int)
    ensures
        0 <= insertion_index(s, o) <= s.len(),
    decreases s.len(),
{
    if s.len() > 0 {
        lemma_insertion_index_range(s.drop_first(), o - s[0].0.as_int());
    }
}

/// Where an insertion at offset `o` goes among a left part, a slot and a
/// right part, by where `o` falls.
pub proof fn lemma_insertion_index_three<N: Numeric, T>(
    a: Seq<(N, T)>,
    x: (N, T),
    b: Seq<(N, T)>,
    o: int,
)
    requires
        spans_nonneg(a),
        x.0.as_int() >= 0,
    ensures
        o < span_sum(a) + x.0.as_int() ==> insertion_index(a + seq![x] + b, o)
            == insertion_index(a, o),
        o >= span_sum(a) + x.0.as_int() ==> insertion_index(a + seq![x] + b, o) == a.len() + 1
            + insertion_index(b, o - span_sum(a) - x.0.as_int()),
        a.len() > 0 && o < span_sum(a) ==> insertion_index(a, o) < a.len(),
        o >= span_sum(a) ==> insertion_index(a, o) == a.len(),
        0 <= insertion_index(a, o) <= a.len(),
{
    let s = a + seq![x] + b;
    assert(s =~= a + (seq![x] + b));
    lemma_insertion_index_range(a, o);
    lemma_span_sum_nonneg(a);
    lemma_insertion_index_concat(a, seq![x] + b, o);
    if insertion_index(a, o) >= a.len() {
        let o2 = o - span_sum(a);
        lemma_span_sum_single(x);
        assert forall|i: int| 0 <= i < seq![x].len() implies #[trigger] seq![x][i].0.as_int() >= 0 by {
            assert(seq![x][i] == x);
        }
        lemma_insertion_index_concat(seq![x], b, o2);
        assert(insertion_index(s, o) == a.len() + insertion_index(seq![x] + b, o2));
        if o2 >= x.0.as_int() {
            assert(insertion_index(seq![x] + b, o2) == 1 + insertion_index(b, o2 - x.0.as_int()));
        } else {
            assert(insertion_index(seq![x] + b, o2) == 0);
        }
    }
}

/// The start of a slot among a left part, a slot and a right part.
pub proof fn lemma_start_of_three<N: Numeric, T>(a: Seq<(N, T)>, x: (N, T), b: Seq<(N, T)>, i: int)
    requires
        0 <= i <= a.len() + 1 + b.len(),
    ensures
        i <= a.len() ==> start_of(a + seq![x] + b, i) == start_of(a, i),
        i > a.len() ==> start_of(a + seq![x] + b, i) == span_sum(a) + x.0.as_int() + start_of(
            b,
            i - a.len() - 1,
        ),
{
    let s = a + seq![x] + b;
    if i <= a.len() {
        assert(s.take(i) =~= a.take(i));
    } else {
        let j = i - a.len() - 1;
        assert(s.take(i) =~= a + seq![x] + b.take(j));
        lemma_span_sum_three(a, x, b.take(j));
    }
}

/// Inserting a slot adds its span to the span sum.
pub proof fn lemma_span_sum_insert<N: Numeric, T>(s: Seq<(N, T)>, i: int, x: (N, T))
    requires
        0 <= i <= s.len(),
    ensures
        span_sum(s.insert(i, x)) == span_sum(s) + x.0.as_int(),
{
    let a = s.subrange(0, i);
    let b = s.subrange(i, s.len() as int);
    assert(s.insert(i, x) =~= a + seq![x] + b);
    assert(s =~= a + b);
    lemma_span_sum_three(a, x, b);
    lemma_span_sum_concat(a, b);
}

/// Removing a slot takes its span from the span sum.
pub proof fn lemma_span_sum_remove<N: Numeric, T>(s: Seq<(N, T)>, i: int)
    requires
        0 <= i < s.len(),
    ensures
        span_sum(s.remove(i)) == span_sum(s) - s[i].0.as_int(),
{
    let a = s.subrange(0, i);
    let b = s.subrange(i + 1, s.len() as int);
    assert(s =~= a + seq![s[i]] + b);
    assert(s.remove(i) =~= a + b);
    lemma_span_sum_three(a, s[i], b);
    lemma_span_sum_concat(a, b);
}

/// Starts grow along the sequence: a slot starts where the one before it
/// ends.
pub proof fn lemma_start_of_next<N: Numeric, T>(s: Seq<(N, T)>, i: int)
    requires
        0 <= i < s.len(),
    ensures
        start_of(s, i + 1) == start_of(s, i) + s[i].0.as_int(),
{
    assert(s.take(i + 1) =~= s.take(i) + seq![s[i]]);
    lemma_span_sum_concat(s.take(i), seq![s[i]]);
    lemma_span_sum_single(s[i]);
}

/// Starts never decrease along the sequence.
pub proof fn lemma_start_of_monotonic<N: Numeric, T>(s: Seq<(N, T)>, i: int, j: int)
    requires
        spans_nonneg(s),
        0 <= i <= j <= s.len(),
    ensures
        start_of(s, i) <= start_of(s, j),
    decreases j - i,
{
    if i < j {
        lemma_start_of_monotonic(s, i, j - 1);
        lemma_start_of_next(s, j - 1);
        assert(s[j - 1].0.as_int() >= 0);
    }
}

/// Where an insertion at offset `o` goes, counted by starts: every slot
/// before it ends at or before `o`, and the slot it goes before ends after
/// `o`.
proof fn lemma_insertion_index_ends<N: Numeric, T>(s: Seq<(N, T)>, o: int)
    requires
        spans_nonneg(s),
        o >= 0,
    ensures
        0 <= insertion_index(s, o) <= s.len(),
        start_of(s, insertion_index(s, o)) <= o,
        insertion_index(s, o) < s.len() ==> o < start_of(s, insertion_index(s, o) + 1),
    decreases s.len(),
{
    lemma_insertion_index_range(s, o);
    if s.len() > 0 {
        let t = s.drop_first();
        let x = s[0];
        assert(x.0.as_int() >= 0);
        lemma_nonneg_subrange(s, 0, s.len() as int);
        assert(s =~= seq![x] + t);
        if o < x.0.as_int() {
            assert(s.take(0) =~= Seq::<(N, T)>::empty());
            assert(s.take(1) =~= seq![x]);
            lemma_span_sum_single(x);
        } else {
            let o2 = o - x.0.as_int();
            lemma_insertion_index_ends(t, o2);
            let q = insertion_index(t, o2);
            assert(s.take(q + 1) =~= seq![x] + t.take(q));
            lemma_span_sum_concat(seq![x], t.take(q));
            lemma_span_sum_single(x);
            if q < t.len() {
                assert(s.take(q + 2) =~= seq![x] + t.take(q + 1));
                lemma_span_sum_concat(seq![x], t.take(q + 1));
            }
        }
    } else {
        assert(s.take(0) =~= Seq::<(N, T)>::empty());
    }
}

/// Items are packed end to end: the slot found at an offset is the slot that
/// covers it.
pub proof fn lemma_slot_covers_offset<N: Numeric, T>(s: Seq<(N, T)>, i: int, o: int)
    requires
        spans_nonneg(s),
        0 <= i < s.len(),
        start_of(s, i) <= o < start_of(s, i) + s[i].0.as_int(),
    ensures
        slot_index(s, o) == i,
{
    lemma_nonneg_subrange(s, 0, i);
    lemma_span_sum_nonneg(s.take(i));
    lemma_insertion_index_ends(s, o);
    lemma_start_of_next(s, i);
    let p = insertion_index(s, o);
    if p < i {
        lemma_start_of_monotonic(s, p + 1, i);
    } else if p > i {
        lemma_start_of_monotonic(s, i + 1, p);
    }
}

/// An offset at or beyond the end finds the last slot.
pub proof fn lemma_slot_beyond_end<N: Numeric, T>(s: Seq<(N, T)>, o: int)
    requires
        spans_nonneg(s),
        s.len() > 0,
        o >= span_sum(s),
    ensures
        slot_index(s, o) == s.len() - 1,
{
    lemma_span_sum_nonneg(s);
    lemma_insertion_index_ends(s, o);
    let p = insertion_index(s, o);
    if p < s.len() - 1 {
        lemma_start_of_monotonic(s, p + 1, s.len() as int);
        assert(s.take(s.len() as int) =~= s);
    }
}

/// An item inserted at offset `o` goes at or before whatever is at `o`: it
/// starts where the slots before it end, at or before `o`, and the slot it
/// goes before covers `o`.
pub proof fn lemma_insertion_lands<N: Numeric, T>(s: Seq<(N, T)>, o: int, x: (N, T))
    requires
        spans_nonneg(s),
        o >= 0,
    ensures
        ({
            let p = insertion_index(s, o);
            &&& start_of(s.insert(p, x), p) == start_of(s, p)
            &&& start_of(s, p) <= o
            &&& p < s.len() ==> o < start_of(s, p) + s[p].0.as_int()
        }),
{
    lemma_insertion_index_ends(s, o);
    let p = insertion_index(s, o);
    assert(s.insert(p, x).take(p) =~= s.take(p));
    if p < s.len() {
        lemma_start_of_next(s, p);
    }
}

/// Resizing a slot moves every slot after it by the difference and leaves
/// the slots before it in place.
pub proof fn lemma_resize_jostles<N: Numeric, T>(s: Seq<(N, T)>, i: int, x: (N, T), j: int)
    requires
        0 <= i < s.len(),
        0 <= j <= s.len(),
    ensures
        j <= i ==> start_of(s.update(i, x), j) == start_of(s, j),
        j > i ==> start_of(s.update(i, x), j) == start_of(s, j) - s[i].0.as_int() + x.0.as_int(),
{
    let t = s.update(i, x);
    if j <= i {
        assert(t.take(j) =~= s.take(j));
    } else {
        assert(t.take(j) =~= s.take(j).update(i, x));
        lemma_span_sum_update(s.take(j), i, x);
    }
}

/// Inserting a slot moves every slot after it by the new slot's span.
pub proof fn lemma_insert_jostles<N: Numeric, T>(s: Seq<(N, T)>, p: int, x: (N, T), j: int)
    requires
        0 <= p <= j <= s.len(),
    ensures
        start_of(s.insert(p, x), j + 1) == start_of(s, j) + x.0.as_int(),
        start_of(s.insert(p, x), p) == start_of(s, p),
{
    let t = s.insert(p, x);
    assert(t.take(j + 1) =~= s.take(j).insert(p, x));
    lemma_span_sum_insert(s.take(j), p, x);
    assert(t.take(p) =~= s.take(p));
}

/// Removing a slot moves every slot after it back by the removed span.
pub proof fn lemma_remove_jostles<N: Numeric, T>(s: Seq<(N, T)>, p: int, j: int)
    requires
        0 <= p < j <= s.len(),
    ensures
        start_of(s.remove(p), j - 1) == start_of(s, j) - s[p].0.as_int(),
{
    let t = s.remove(p);
    assert(t.take(j - 1) =~= s.take(j).remove(p));
    lemma_span_sum_remove(s.take(j), p);
}

/// What a read gives back of an insertion: after an item with a non-zero
/// span is inserted at offset `o` (any offset, negative ones too), the item
/// found at the offset where the new slot starts is the new item.
pub proof fn lemma_read_after_insert<N: Numeric, T>(s: Seq<(N, T)>, o: int, x: (N, T))
    requires
        spans_nonneg(s),
        x.0.as_int() > 0,
    ensures
        ({
            let p = insertion_index(s, o);
            let t = s.insert(p, x);
            slot_index(t, start_of(t, p)) == p && t[p] == x
        }),
{
    lemma_insertion_index_range(s, o);
    let p = insertion_index(s, o);
    let t = s.insert(p, x);
    lemma_nonneg_insert(s, p, x);
    lemma_nonneg_subrange(t, 0, p);
    lemma_span_sum_nonneg(t.take(p));
    lemma_slot_covers_offset(t, p, start_of(t, p));
}

/// Removing the slot that an insertion made gives back the slots as they
/// were.
pub proof fn lemma_remove_undoes_insert<N: Numeric, T>(s: Seq<(N, T)>, p: int, x: (N, T))
    requires
        0 <= p <= s.len(),
    ensures
        s.insert(p, x).remove(p) == s,
        s.insert(p, x)[p] == x,
{
    assert(s.insert(p, x).remove(p) =~= s);
}

/// A negative offset inserts at the front and finds the first slot.
pub proof fn lemma_negative_offset_front<N: Numeric, T>(s: Seq<(N, T)>, o: int)
    requires
        spans_nonneg(s),
        o < 0,
    ensures
        insertion_index(s, o) == 0,
        s.len() > 0 ==> slot_index(s, o) == 0,
{
    if s.len() > 0 {
        assert(s[0].0.as_int() >= 0);
    }
}

/// Inserting at or beyond the end appends: an item inserted at an offset at
/// or past the sum of the spans goes after every slot, as `insert_back`
/// puts it.
pub proof fn lemma_insert_beyond_end_appends<N: Numeric, T>(s: Seq<(N, T)>, o: int, x: (N, T))
    requires
        spans_nonneg(s),
        o >= span_sum(s),
    ensures
        insertion_index(s, o) == s.len(),
        s.insert(insertion_index(s, o), x) == s.push(x),
{
    lemma_insertion_index_concat(s, Seq::<(N, T)>::empty(), o);
    lemma_span_sum_nonneg(s);
    assert(s.insert(s.len() as int, x) =~= s.push(x));
}

/// The offsets that slots start at are the running sums of the spans: the
/// first slot starts at zero and each next one where the one before it ends.
pub proof fn lemma_offsets_are_running_sums<N: Numeric, T>(s: Seq<(N, T)>)
    ensures
        start_of(s, 0) == 0,
        forall|j: int| 0 <= j < s.len() ==> #[trigger] start_of(s, j + 1) == start_of(s, j) + s[j].0.as_int(),
{
    assert(s.take(0) =~= Seq::<(N, T)>::empty());
    assert forall|j: int| 0 <= j < s.len() implies #[trigger] start_of(s, j + 1) == start_of(s, j) + s[j].0.as_int() by {
        lemma_start_of_next(s, j);
    }
}

} // verus!
