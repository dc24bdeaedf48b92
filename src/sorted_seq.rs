//! Ascending sequences of keys: placing one key, placing many, and the fact
//! that an ascending sequence is fixed by the multiset it holds.

use vstd::prelude::*;
use vstd::seq_lib::{group_to_multiset_ensures, lemma_multiset_commutative};
use vstd::multiset::{group_multiset_axioms, Multiset};
use crate::order::{lt, le, sorted, total_order, lemma_order};

verus! {

/// `s` with `v` placed just before the first element greater than `v`.
pub open spec fn insert_sorted<T: Ord>(s: Seq<T>, v: T) -> Seq<T>
    decreases s.len(),
{
    if s.len() == 0 {
        seq![v]
    } else if lt(v, s[0]) {
        seq![v] + s
    } else {
        seq![s[0]] + insert_sorted(s.drop_first(), v)
    }
}

/// `s` after placing each of `items` in turn, front to back.
pub open spec fn insert_all<T: Ord>(s: Seq<T>, items: Seq<T>) -> Seq<T>
    decreases items.len(),
{
    if items.len() == 0 {
        s
    } else {
        insert_sorted(insert_all(s, items.drop_last()), items.last())
    }
}

/// The ascending arrangement of `items`.
pub open spec fn sorted_of<T: Ord>(items: Seq<T>) -> Seq<T> {
    insert_all(Seq::empty(), items)
}

/// Placing a key adds that key and keeps every other one.
pub proof fn lemma_insert_sorted_contains<T: Ord>(s: Seq<T>, v: T)
    ensures
        insert_sorted(s, v).len() == s.len() + 1,
        forall|x: T| #[trigger] insert_sorted(s, v).contains(x) <==> (s.contains(x) || x == v),
    decreases s.len(),
{
    let r = insert_sorted(s, v);
    if s.len() == 0 {
        assert(r[0] == v);
    } else if lt(v, s[0]) {
        assert forall|x: T| #[trigger] r.contains(x) <==> (s.contains(x) || x == v) by {
            if s.contains(x) {
                let i = choose|i: int| 0 <= i < s.len() && s[i] == x;
                assert(r[i + 1] == x);
            }
            if r.contains(x) && x != v {
                let i = choose|i: int| 0 <= i < r.len() && r[i] == x;
                assert(s[i - 1] == x);
            }
            if x == v {
                assert(r[0] == v);
            }
        }
    } else {
        let rest = s.drop_first();
        lemma_insert_sorted_contains(rest, v);
        let q = insert_sorted(rest, v);
        assert(r == seq![s[0]] + q);
        assert(r.len() == q.len() + 1);
        assert(rest.len() == s.len() - 1);
        assert forall|x: T| #[trigger] r.contains(x) <==> (s.contains(x) || x == v) by {
            if s.contains(x) {
                let i = choose|i: int| 0 <= i < s.len() && s[i] == x;
                if i == 0 {
                    assert(r[0] == x);
                } else {
                    assert(rest[i - 1] == x);
                    assert(q.contains(x));
                    let j = choose|j: int| 0 <= j < q.len() && q[j] == x;
                    assert(r[j + 1] == x);
                }
            }
            if x == v {
                assert(q.contains(x));
                let j = choose|j: int| 0 <= j < q.len() && q[j] == x;
                assert(r[j + 1] == x);
            }
            if r.contains(x) {
                let i = choose|i: int| 0 <= i < r.len() && r[i] == x;
                if i == 0 {
                    assert(s[0] == x);
                } else {
                    assert(q[i - 1] == x);
                    assert(q.contains(x));
                    if x != v {
                        assert(rest.contains(x));
                        let j = choose|j: int| 0 <= j < rest.len() && rest[j] == x;
                        assert(s[j + 1] == rest[j]);
                    }
                }
            }
        }
    }
}

/// A key that nothing in `a` exceeds is placed past all of `a`.
pub proof fn lemma_insert_sorted_after<T: Ord>(a: Seq<T>, b: Seq<T>, v: T)
    requires
        forall|i: int| 0 <= i < a.len() ==> !lt(v, #[trigger] a[i]),
    ensures
        insert_sorted(a + b, v) == a + insert_sorted(b, v),
    decreases a.len(),
{
    if a.len() == 0 {
        assert(a + b =~= b);
        assert(a + insert_sorted(b, v) =~= insert_sorted(b, v));
    } else {
        assert((a + b)[0] == a[0]);
        assert((a + b).drop_first() =~= a.drop_first() + b);
        lemma_insert_sorted_after(a.drop_first(), b, v);
        assert(seq![a[0]] + (a.drop_first() + insert_sorted(b, v)) =~= a + insert_sorted(b, v));
    }
}

/// A key below the first of `b` is placed before all of `b`.
pub proof fn lemma_insert_sorted_before<T: Ord>(a: Seq<T>, b: Seq<T>, v: T)
    requires
        b.len() > 0,
        lt(v, b[0]),
    ensures
        insert_sorted(a + b, v) == insert_sorted(a, v) + b,
    decreases a.len(),
{
    if a.len() == 0 {
        assert(a + b =~= b);
        assert(insert_sorted(a, v) =~= seq![v]);
    } else {
        assert((a + b)[0] == a[0]);
        if lt(v, a[0]) {
            assert(seq![v] + (a + b) =~= (seq![v] + a) + b);
        } else {
            assert((a + b).drop_first() =~= a.drop_first() + b);
            lemma_insert_sorted_before(a.drop_first(), b, v);
            assert(seq![a[0]] + (insert_sorted(a.drop_first(), v) + b) =~= (seq![a[0]]
                + insert_sorted(a.drop_first(), v)) + b);
        }
    }
}

/// Placing a key keeps a sequence ascending and adds exactly that key.
pub proof fn lemma_insert_sorted<T: Ord>(s: Seq<T>, v: T)
    requires
        total_order::<T>(),
        sorted(s),
    ensures
        sorted(insert_sorted(s, v)),
        insert_sorted(s, v).to_multiset() == s.to_multiset().insert(v),
        insert_sorted(s, v).len() == s.len() + 1,
    decreases s.len(),
{
    broadcast use group_to_multiset_ensures, group_multiset_axioms;
    lemma_order::<T>();
    let r = insert_sorted(s, v);
    if s.len() == 0 {
        assert(r.to_multiset() =~= Seq::<T>::empty().push(v).to_multiset()) by {
            assert(r =~= Seq::<T>::empty().push(v));
        }
        assert(Seq::<T>::empty().to_multiset() =~= Multiset::empty()) by {
            assert(Seq::<T>::empty().to_multiset().len() == 0);
        }
    } else if lt(v, s[0]) {
        assert(r =~= s.insert(0, v));
        assert forall|i: int, j: int| 0 <= i < j < r.len() implies le(#[trigger] r[i], #[trigger] r[j]) by {
            if i > 0 {
                assert(r[i] == s[i - 1] && r[j] == s[j - 1]);
            } else {
                assert(r[j] == s[j - 1]);
                if j > 1 {
                    assert(le(s[0], s[j - 1]));
                }
            }
        }
    } else {
        let rest = s.drop_first();
        assert(sorted(rest)) by {
            assert forall|i: int, j: int| 0 <= i < j < rest.len() implies le(#[trigger] rest[i], #[trigger] rest[j]) by {
                assert(rest[i] == s[i + 1] && rest[j] == s[j + 1]);
            }
        }
        lemma_insert_sorted(rest, v);
        let q = insert_sorted(rest, v);
        assert(r == seq![s[0]] + q);
        lemma_multiset_commutative(seq![s[0]], q);
        lemma_multiset_commutative(seq![s[0]], rest);
        assert(s =~= seq![s[0]] + rest);
        assert forall|k: int| 0 <= k < q.len() implies le(s[0], #[trigger] q[k]) by {
            let x = q[k];
            assert(q.to_multiset().count(x) > 0);
            if x != v {
                assert(rest.to_multiset().count(x) > 0);
                let m = choose|m: int| 0 <= m < rest.len() && rest[m] == x;
                assert(le(s[0], s[m + 1]));
            }
        }
        assert forall|i: int, j: int| 0 <= i < j < r.len() implies le(#[trigger] r[i], #[trigger] r[j]) by {
            if i == 0 {
                assert(r[j] == q[j - 1]);
            } else {
                assert(r[i] == q[i - 1] && r[j] == q[j - 1]);
            }
        }
    }
}

/// Placing many keys keeps a sequence ascending and adds exactly those keys.
pub proof fn lemma_insert_all<T: Ord>(s: Seq<T>, items: Seq<T>)
    requires
        total_order::<T>(),
        sorted(s),
    ensures
        sorted(insert_all(s, items)),
        insert_all(s, items).to_multiset() == s.to_multiset().add(items.to_multiset()),
        insert_all(s, items).len() == s.len() + items.len(),
    decreases items.len(),
{
    broadcast use group_to_multiset_ensures, group_multiset_axioms;
    if items.len() == 0 {
        assert(items.to_multiset() =~= Multiset::empty()) by {
            assert(items.to_multiset().len() == 0);
        }
        assert(s.to_multiset().add(items.to_multiset()) =~= s.to_multiset());
    } else {
        let front = items.drop_last();
        lemma_insert_all(s, front);
        lemma_insert_sorted(insert_all(s, front), items.last());
        assert(items =~= front.push(items.last()));
        assert(s.to_multiset().add(items.to_multiset()) =~= s.to_multiset().add(
            front.to_multiset(),
        ).insert(items.last()));
    }
}

/// Two ascending sequences that hold the same multiset are the same sequence.
pub proof fn lemma_sorted_unique<T: Ord>(s: Seq<T>, t: Seq<T>)
    requires
        total_order::<T>(),
        sorted(s),
        sorted(t),
        s.to_multiset() == t.to_multiset(),
    ensures
        s == t,
    decreases s.len(),
{
    broadcast use group_to_multiset_ensures, group_multiset_axioms;
    lemma_order::<T>();
    assert(s.len() == t.len()) by {
        vstd::seq_lib::to_multiset_len(s);
        vstd::seq_lib::to_multiset_len(t);
    }
    if s.len() > 0 {
        assert(t.to_multiset().count(s[0]) > 0);
        assert(s.to_multiset().count(t[0]) > 0);
        let i = choose|i: int| 0 <= i < t.len() && t[i] == s[0];
        let j = choose|j: int| 0 <= j < s.len() && s[j] == t[0];
        if i > 0 {
            assert(le(t[0], t[i]));
        }
        if j > 0 {
            assert(le(s[0], s[j]));
        }
        assert(s[0] == t[0]);
        assert(s.remove(0) =~= s.drop_first());
        assert(t.remove(0) =~= t.drop_first());
        let s1 = s.drop_first();
        let t1 = t.drop_first();
        assert(sorted(s1)) by {
            assert forall|a: int, b: int| 0 <= a < b < s1.len() implies le(#[trigger] s1[a], #[trigger] s1[b]) by {
                assert(s1[a] == s[a + 1] && s1[b] == s[b + 1]);
            }
        }
        assert(sorted(t1)) by {
            assert forall|a: int, b: int| 0 <= a < b < t1.len() implies le(#[trigger] t1[a], #[trigger] t1[b]) by {
                assert(t1[a] == t[a + 1] && t1[b] == t[b + 1]);
            }
        }
        assert(s1.to_multiset() == t1.to_multiset()) by {
            assert(s.remove(0).to_multiset() == s.to_multiset().remove(s[0]));
            assert(t.remove(0).to_multiset() == t.to_multiset().remove(t[0]));
        }
        lemma_sorted_unique(s1, t1);
        assert forall|k: int| 0 <= k < s.len() implies s[k] == t[k] by {
            if k > 0 {
                assert(s[k] == s1[k - 1] && t[k] == t1[k - 1]);
            }
        }
        assert(s =~= t);
    } else {
        assert(s =~= t);
    }
}

/// An ascending sequence is its own ascending arrangement.
pub proof fn lemma_sorted_of_sorted<T: Ord>(s: Seq<T>)
    requires
        total_order::<T>(),
        sorted(s),
    ensures
        sorted_of(s) == s,
{
    broadcast use group_to_multiset_ensures, group_multiset_axioms;
    let e = Seq::<T>::empty();
    assert(sorted(e));
    lemma_insert_all(e, s);
    assert(e.to_multiset() =~= Multiset::empty()) by {
        assert(e.to_multiset().len() == 0);
    }
    assert(e.to_multiset().add(s.to_multiset()) =~= s.to_multiset());
    lemma_sorted_unique(sorted_of(s), s);
}

} // verus!
