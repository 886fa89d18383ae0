use vstd::prelude::*;
use vstd::laws_cmp::{obeys_cmp, obeys_cmp_ord, obeys_partial_cmp_spec_properties, obeys_cmp_partial_ord};
use vstd::laws_eq::{obeys_concrete_eq, obeys_eq_spec_properties};
use vstd::std_specs::cmp::{OrdSpec, PartialEqSpec, PartialOrdSpec};
use core::cmp::Ordering;

verus! {

/// The order of `T` is a strict total order whose ties are exactly the
/// equal values.
pub open spec fn total_order_laws<T: Ord>() -> bool {
    obeys_cmp::<T>() && obeys_concrete_eq::<T>()
}

/// `a` comes before `b` in the order of `T`.
pub open spec fn less<T: PartialOrd>(a: T, b: T) -> bool {
    a.partial_cmp_spec(&b) == Some(Ordering::Less)
}

/// `a` comes after `b` in the order of `T`.
pub open spec fn greater<T: PartialOrd>(a: T, b: T) -> bool {
    a.partial_cmp_spec(&b) == Some(Ordering::Greater)
}

/// What the laws give the comparison operators: `<` and `>` follow `less`,
/// `==` is equality, `less` is irreflexive and asymmetric, and of two
/// values one comes first or they are equal.
pub proof fn lemma_order<T: Ord>()
    requires
        total_order_laws::<T>(),
    ensures
        T::obeys_partial_cmp_spec(),
        T::obeys_eq_spec(),
        forall|a: T, b: T| #[trigger] a.eq_spec(&b) <==> a == b,
        forall|a: T, b: T| #[trigger] greater(a, b) <==> less(b, a),
        forall|a: T| !#[trigger] less(a, a),
        forall|a: T, b: T| #[trigger] less(a, b) ==> !less(b, a),
        forall|a: T, b: T| #![trigger less(a, b)] #![trigger less(b, a)] less(a, b) || a == b || less(b, a),
{
    reveal(obeys_eq_spec_properties);
    reveal(obeys_partial_cmp_spec_properties);
    reveal(obeys_cmp_partial_ord);
    reveal(obeys_cmp_ord);
    reveal(obeys_concrete_eq);
    assert forall|a: T, b: T| #![trigger less(a, b)] #![trigger less(b, a)] less(a, b) || a == b || less(b, a) by {
        assert(a.partial_cmp_spec(&b) == Some(a.cmp_spec(&b)));
        assert(b.partial_cmp_spec(&a) == Some(b.cmp_spec(&a)));
    }
    assert forall|a: T| !#[trigger] less(a, a) by {
        assert(a.eq_spec(&a));
    }
}

/// `less` is transitive.
pub proof fn lemma_less_trans<T: Ord>(a: T, b: T, c: T)
    requires
        total_order_laws::<T>(),
        less(a, b),
        less(b, c),
    ensures
        less(a, c),
{
    reveal(obeys_partial_cmp_spec_properties);
}

/// Each value comes before every value after it.
pub open spec fn strictly_sorted<T: PartialOrd>(s: Seq<T>) -> bool {
    forall|i: int, j: int| 0 <= i < j < s.len() ==> less(#[trigger] s[i], #[trigger] s[j])
}

/// A value lies in a left part, a middle value and a right part exactly when
/// it lies in one of them.
pub proof fn lemma_contains_three<T>(a: Seq<T>, x: T, b: Seq<T>, y: T)
    ensures
        (a + seq![x] + b).contains(y) <==> (a.contains(y) || y == x || b.contains(y)),
{
    let s = a + seq![x] + b;
    if a.contains(y) {
        let i = choose|i: int| 0 <= i < a.len() && a[i] == y;
        assert(s[i] == y);
    }
    if b.contains(y) {
        let i = choose|i: int| 0 <= i < b.len() && b[i] == y;
        assert(s[a.len() + 1 + i] == y);
    }
    if y == x {
        assert(s[a.len() as int] == y);
    }
    if s.contains(y) {
        let i = choose|i: int| 0 <= i < s.len() && s[i] == y;
        if i < a.len() {
            assert(a[i] == y);
        } else if i > a.len() {
            assert(b[i - a.len() - 1] == y);
        }
    }
}

/// A sorted sequence split around one of its values: both parts are sorted,
/// everything on the left comes before the value and everything on the right
/// after it.
pub proof fn lemma_sorted_split<T: Ord>(a: Seq<T>, x: T, b: Seq<T>)
    requires
        strictly_sorted(a + seq![x] + b),
    ensures
        strictly_sorted(a),
        strictly_sorted(b),
        forall|y: T| a.contains(y) ==> less(y, x),
        forall|y: T| b.contains(y) ==> less(x, y),
{
    let s = a + seq![x] + b;
    assert forall|i: int, j: int| 0 <= i < j < a.len() implies less(#[trigger] a[i], #[trigger] a[j]) by {
        assert(s[i] == a[i] && s[j] == a[j]);
    }
    assert forall|i: int, j: int| 0 <= i < j < b.len() implies less(#[trigger] b[i], #[trigger] b[j]) by {
        assert(s[a.len() + 1 + i] == b[i] && s[a.len() + 1 + j] == b[j]);
    }
    assert forall|y: T| a.contains(y) implies less(y, x) by {
        let i = choose|i: int| 0 <= i < a.len() && a[i] == y;
        assert(s[i] == y && s[a.len() as int] == x);
    }
    assert forall|y: T| b.contains(y) implies less(x, y) by {
        let i = choose|i: int| 0 <= i < b.len() && b[i] == y;
        assert(s[a.len() + 1 + i] == y && s[a.len() as int] == x);
    }
}

/// Two sorted parts, everything on the left before a value and everything on
/// the right after it, joined around the value, are sorted.
pub proof fn lemma_sorted_join<T: Ord>(a: Seq<T>, x: T, b: Seq<T>)
    requires
        total_order_laws::<T>(),
        strictly_sorted(a),
        strictly_sorted(b),
        forall|y: T| a.contains(y) ==> less(y, x),
        forall|y: T| b.contains(y) ==> less(x, y),
    ensures
        strictly_sorted(a + seq![x] + b),
{
    let s = a + seq![x] + b;
    assert forall|i: int, j: int| 0 <= i < j < s.len() implies less(#[trigger] s[i], #[trigger] s[j]) by {
        let n = a.len() as int;
        if i < n {
            assert(a.contains(a[i]));
        }
        if j > n {
            assert(b.contains(b[j - n - 1]));
        }
        if i < n && j > n {
            lemma_less_trans(s[i], x, s[j]);
        }
    }
}

/// Removing one value keeps a sequence sorted.
pub proof fn lemma_sorted_remove<T: Ord>(s: Seq<T>, k: int)
    requires
        strictly_sorted(s),
        0 <= k < s.len(),
    ensures
        strictly_sorted(s.remove(k)),
{
    let r = s.remove(k);
    assert forall|i: int, j: int| 0 <= i < j < r.len() implies less(#[trigger] r[i], #[trigger] r[j]) by {
        let i2 = if i < k { i } else { i + 1 };
        let j2 = if j < k { j } else { j + 1 };
        assert(r[i] == s[i2] && r[j] == s[j2]);
    }
}

/// Two sorted sequences with the same values are the same sequence: a set of
/// values has one order.
pub proof fn lemma_sorted_unique<T: Ord>(a: Seq<T>, b: Seq<T>)
    requires
        total_order_laws::<T>(),
        strictly_sorted(a),
        strictly_sorted(b),
        forall|y: T| a.contains(y) <==> b.contains(y),
    ensures
        a == b,
    decreases a.len(),
{
    lemma_order::<T>();
    if a.len() == 0 {
        if b.len() > 0 {
            assert(b.contains(b[0]));
        }
        assert(a =~= b);
    } else {
        assert(a.contains(a[0]));
        let j = choose|j: int| 0 <= j < b.len() && b[j] == a[0];
        assert(b.contains(b[0]));
        let i = choose|i: int| 0 <= i < a.len() && a[i] == b[0];
        if j > 0 {
            assert(less(b[0], b[j]));
            if i > 0 {
                assert(less(a[0], a[i]));
            }
        }
        assert(a[0] == b[0]);
        let a2 = a.drop_first();
        let b2 = b.drop_first();
        assert forall|i: int, j: int| 0 <= i < j < a2.len() implies less(#[trigger] a2[i], #[trigger] a2[j]) by {
            assert(a2[i] == a[i + 1] && a2[j] == a[j + 1]);
        }
        assert forall|i: int, j: int| 0 <= i < j < b2.len() implies less(#[trigger] b2[i], #[trigger] b2[j]) by {
            assert(b2[i] == b[i + 1] && b2[j] == b[j + 1]);
        }
        assert forall|y: T| a2.contains(y) <==> b2.contains(y) by {
            if a2.contains(y) {
                let k = choose|k: int| 0 <= k < a2.len() && a2[k] == y;
                assert(a[k + 1] == y);
                assert(less(a[0], a[k + 1]));
                assert(b.contains(y));
                let m = choose|m: int| 0 <= m < b.len() && b[m] == y;
                assert(m != 0);
                assert(b2[m - 1] == y);
            }
            if b2.contains(y) {
                let k = choose|k: int| 0 <= k < b2.len() && b2[k] == y;
                assert(b[k + 1] == y);
                assert(less(b[0], b[k + 1]));
                assert(a.contains(y));
                let m = choose|m: int| 0 <= m < a.len() && a[m] == y;
                assert(m != 0);
                assert(a2[m - 1] == y);
            }
        }
        lemma_sorted_unique(a2, b2);
        assert(a.len() == b.len());
        assert forall|k: int| 0 <= k < a.len() implies a[k] == b[k] by {
            if k > 0 {
                assert(a[k] == a2[k - 1] && b[k] == b2[k - 1]);
            }
        }
        assert(a =~= b);
    }
}

} // verus!
