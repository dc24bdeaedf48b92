//! The recursive cell of the search tree: empty, or one key with an owned
//! left and right subtree.

use vstd::prelude::*;
use std::collections::VecDeque;
use core::cmp::Ordering;
use vstd::seq_lib::{group_to_multiset_ensures, lemma_multiset_commutative};
use vstd::multiset::{group_multiset_axioms, Multiset};
use crate::order::{lt, le, sorted, total_order, lemma_order};
use crate::sorted_seq::{
    insert_sorted, lemma_insert_sorted_after, lemma_insert_sorted_before,
    lemma_insert_sorted_contains,
};

verus! {

/// A key with the two subtrees it owns.
#[derive(Debug, Clone, PartialEq)]
pub struct Branch<T> where T: Copy + Clone + Ord + Eq {
    pub key: T,
    pub right: Node<T>,
    pub left: Node<T>,
}

/// A subtree: empty, or a branch on the heap.
#[derive(Debug, PartialEq)]
pub enum Node<T> where T: Copy + Clone + Ord + Eq {
    Empty,
    NonEmpty(Box<Branch<T>>),
}

impl<T> Clone for Node<T> where T: Copy + Clone + Ord + Eq {
    /// A copy of this node and of everything below it.
    fn clone(&self) -> (r: Self)
        ensures
            r == *self,
        decreases self,
    {
        match self {
            Node::Empty => Node::Empty,
            Node::NonEmpty(b) => Node::NonEmpty(
                Box::new(Branch { key: b.key, right: b.right.clone(), left: b.left.clone() }),
            ),
        }
    }
}

impl<T> Default for Node<T> where T: Copy + Clone + Ord + Eq {
    fn default() -> (r: Self)
        ensures
            r == Node::<T>::Empty,
    {
        Node::Empty
    }
}

impl<T> Node<T> where T: Copy + Clone + Ord + Eq {
    /// The keys in order: left subtree, own key, right subtree.
    pub open spec fn keys(self) -> Seq<T>
        decreases self,
    {
        match self {
            Node::Empty => Seq::empty(),
            Node::NonEmpty(b) => b.left.keys() + seq![b.key] + b.right.keys(),
        }
    }

    /// Every key of a left subtree is below its parent's key; every key of a
    /// right subtree is at or above it.
    pub open spec fn ordered(self) -> bool
        decreases self,
    {
        match self {
            Node::Empty => true,
            Node::NonEmpty(b) => {
                &&& b.left.ordered()
                &&& b.right.ordered()
                &&& forall|i: int| 0 <= i < b.left.keys().len() ==> lt(#[trigger] b.left.keys()[i], b.key)
                &&& forall|i: int| 0 <= i < b.right.keys().len() ==> le(b.key, #[trigger] b.right.keys()[i])
            },
        }
    }

    /// The key of a non-empty node.
    pub open spec fn key(self) -> T
        recommends
            self is NonEmpty,
    {
        self->NonEmpty_0.key
    }

    /// The subtree at which a search for `v` stops: the first node on the
    /// path from here whose key equals `v`, or an empty node.
    pub open spec fn search(self, v: T) -> Node<T>
        decreases self,
    {
        match self {
            Node::Empty => Node::Empty,
            Node::NonEmpty(b) => {
                if lt(v, b.key) {
                    b.left.search(v)
                } else if lt(b.key, v) {
                    b.right.search(v)
                } else {
                    self
                }
            },
        }
    }

    /// This node with the subtree found by `search(v)` cut off.
    pub open spec fn pruned(self, v: T) -> Node<T>
        decreases self,
    {
        match self {
            Node::Empty => Node::Empty,
            Node::NonEmpty(b) => {
                if lt(v, b.key) {
                    Node::NonEmpty(Box::new(Branch { key: b.key, right: b.right, left: b.left.pruned(v) }))
                } else if lt(b.key, v) {
                    Node::NonEmpty(Box::new(Branch { key: b.key, right: b.right.pruned(v), left: b.left }))
                } else {
                    Node::Empty
                }
            },
        }
    }

    /// The keys below the node found by `search(v)`: its left subtree's, then
    /// its right subtree's.
    pub open spec fn orphans(self, v: T) -> Seq<T> {
        match self.search(v) {
            Node::Empty => Seq::empty(),
            Node::NonEmpty(b) => b.left.keys() + b.right.keys(),
        }
    }

    /// The node reached by following left subtrees as far as they go.
    pub open spec fn leftmost(self) -> Node<T>
        decreases self,
    {
        match self {
            Node::Empty => Node::Empty,
            Node::NonEmpty(b) => if b.left is Empty {
                self
            } else {
                b.left.leftmost()
            },
        }
    }

    /// The node reached by following right subtrees as far as they go.
    pub open spec fn rightmost(self) -> Node<T>
        decreases self,
    {
        match self {
            Node::Empty => Node::Empty,
            Node::NonEmpty(b) => if b.right is Empty {
                self
            } else {
                b.right.rightmost()
            },
        }
    }

    /// The leftmost node holds the first key, the rightmost the last.
    pub proof fn lemma_extremes(self)
        requires
            self is NonEmpty,
        ensures
            self.keys().len() > 0,
            self.leftmost() is NonEmpty,
            self.rightmost() is NonEmpty,
            self.leftmost().key() == self.keys()[0],
            self.rightmost().key() == self.keys().last(),
        decreases self,
    {
        let b = self->NonEmpty_0;
        if b.left is NonEmpty {
            b.left.lemma_extremes();
        }
        if b.right is NonEmpty {
            b.right.lemma_extremes();
        }
        assert(b.left is Empty ==> b.left.keys() =~= Seq::<T>::empty());
        assert(b.right is Empty ==> b.right.keys() =~= Seq::<T>::empty());
    }

    /// The in-order keys of an ordered node ascend.
    pub proof fn lemma_ordered_sorted(self)
        requires
            total_order::<T>(),
            self.ordered(),
        ensures
            sorted(self.keys()),
        decreases self,
    {
        lemma_order::<T>();
        match self {
            Node::Empty => {},
            Node::NonEmpty(b) => {
                b.left.lemma_ordered_sorted();
                b.right.lemma_ordered_sorted();
                let l = b.left.keys();
                let r = b.right.keys();
                let s = self.keys();
                assert forall|i: int, j: int| 0 <= i < j < s.len() implies le(#[trigger] s[i], #[trigger] s[j]) by {
                    let n = l.len() as int;
                    if j < n {
                        assert(s[i] == l[i] && s[j] == l[j]);
                    } else if j == n {
                        assert(s[i] == l[i]);
                    } else if i > n {
                        assert(s[i] == r[i - n - 1] && s[j] == r[j - n - 1]);
                    } else if i == n {
                        assert(s[j] == r[j - n - 1]);
                    } else {
                        assert(s[i] == l[i] && s[j] == r[j - n - 1]);
                        assert(lt(l[i], b.key));
                        assert(le(b.key, r[j - n - 1]));
                    }
                }
            },
        }
    }

    /// The multiset of a node's keys: left subtree's, own key, right subtree's.
    pub proof fn lemma_keys_multiset(self)
        requires
            self is NonEmpty,
        ensures
            self.keys().to_multiset() == self->NonEmpty_0.left.keys().to_multiset().add(
                self->NonEmpty_0.right.keys().to_multiset(),
            ).insert(self.key()),
    {
        broadcast use group_to_multiset_ensures, group_multiset_axioms;
        let b = self->NonEmpty_0;
        let l = b.left.keys();
        let r = b.right.keys();
        lemma_multiset_commutative(l + seq![b.key], r);
        lemma_multiset_commutative(l, seq![b.key]);
        assert(seq![b.key] =~= Seq::<T>::empty().push(b.key));
        assert(Seq::<T>::empty().to_multiset() =~= Multiset::empty()) by {
            assert(Seq::<T>::empty().to_multiset().len() == 0);
        }
        assert(self.keys().to_multiset() =~= l.to_multiset().add(r.to_multiset()).insert(b.key));
    }

    /// What a search for `v` finds in an ordered node, and what is left once
    /// the found subtree is cut off.
    pub proof fn lemma_search(self, v: T)
        requires
            total_order::<T>(),
            self.ordered(),
        ensures
            (self.search(v) is NonEmpty) == self.keys().contains(v),
            self.search(v) is NonEmpty ==> self.search(v).key() == v,
            self.search(v) is NonEmpty ==> self.search(v).keys().to_multiset()
                == self.orphans(v).to_multiset().insert(v),
            self.search(v) is Empty ==> self.orphans(v) == Seq::<T>::empty(),
            self.search(v) is Empty ==> self.pruned(v) == self,
            self.pruned(v).ordered(),
            self.keys().to_multiset() == self.pruned(v).keys().to_multiset().add(
                self.search(v).keys().to_multiset(),
            ),
        decreases self,
    {
        broadcast use group_to_multiset_ensures, group_multiset_axioms;
        lemma_order::<T>();
        match self {
            Node::Empty => {
                assert(self.keys().to_multiset() =~= Multiset::empty()) by {
                    assert(self.keys().to_multiset().len() == 0);
                }
            },
            Node::NonEmpty(b) => {
                let l = b.left.keys();
                let r = b.right.keys();
                let k = b.key;
                self.lemma_keys_multiset();
                if lt(v, k) {
                    b.left.lemma_search(v);
                    assert(!r.contains(v)) by {
                        if r.contains(v) {
                            let i = choose|i: int| 0 <= i < r.len() && r[i] == v;
                            assert(le(k, r[i]));
                        }
                    }
                    assert(self.keys().contains(v) == l.contains(v)) by {
                        if self.keys().contains(v) {
                            let i = choose|i: int| 0 <= i < self.keys().len() && self.keys()[i] == v;
                            if i < l.len() {
                                assert(self.keys()[i] == l[i]);
                            } else if i > l.len() {
                                assert(self.keys()[i] == r[i - l.len() - 1]);
                            }
                        }
                        if l.contains(v) {
                            let i = choose|i: int| 0 <= i < l.len() && l[i] == v;
                            assert(self.keys()[i] == l[i]);
                        }
                    }
                    let p = self.pruned(v);
                    let pl = b.left.pruned(v).keys();
                    p.lemma_keys_multiset();
                    assert forall|i: int| 0 <= i < pl.len() implies lt(#[trigger] pl[i], k) by {
                        assert(pl.to_multiset().count(pl[i]) > 0);
                        assert(l.to_multiset().count(pl[i]) > 0);
                        let j = choose|j: int| 0 <= j < l.len() && l[j] == pl[i];
                    }
                    assert(self.keys().to_multiset() =~= p.keys().to_multiset().add(
                        self.search(v).keys().to_multiset(),
                    ));
                } else if lt(k, v) {
                    b.right.lemma_search(v);
                    assert(!l.contains(v)) by {
                        if l.contains(v) {
                            let i = choose|i: int| 0 <= i < l.len() && l[i] == v;
                            assert(lt(l[i], k));
                        }
                    }
                    assert(self.keys().contains(v) == r.contains(v)) by {
                        if self.keys().contains(v) {
                            let i = choose|i: int| 0 <= i < self.keys().len() && self.keys()[i] == v;
                            if i < l.len() {
                                assert(self.keys()[i] == l[i]);
                            } else if i > l.len() {
                                assert(self.keys()[i] == r[i - l.len() - 1]);
                            }
                        }
                        if r.contains(v) {
                            let i = choose|i: int| 0 <= i < r.len() && r[i] == v;
                            assert(self.keys()[i + l.len() + 1] == r[i]);
                        }
                    }
                    let p = self.pruned(v);
                    let pr = b.right.pruned(v).keys();
                    p.lemma_keys_multiset();
                    assert forall|i: int| 0 <= i < pr.len() implies le(k, #[trigger] pr[i]) by {
                        assert(pr.to_multiset().count(pr[i]) > 0);
                        assert(r.to_multiset().count(pr[i]) > 0);
                        let j = choose|j: int| 0 <= j < r.len() && r[j] == pr[i];
                    }
                    assert(self.keys().to_multiset() =~= p.keys().to_multiset().add(
                        self.search(v).keys().to_multiset(),
                    ));
                } else {
                    assert(k == v);
                    assert(self.keys()[l.len() as int] == k);
                    lemma_multiset_commutative(l, r);
                    assert(Seq::<T>::empty().to_multiset() =~= Multiset::empty()) by {
                        assert(Seq::<T>::empty().to_multiset().len() == 0);
                    }
                    assert(self.keys().to_multiset() =~= self.pruned(v).keys().to_multiset().add(
                        self.search(v).keys().to_multiset(),
                    ));
                }
            },
        }
    }

    /// An empty node.
    pub fn new() -> (r: Self)
        ensures
            r == Node::<T>::Empty,
    {
        Node::Empty
    }

    /// The branch of a non-empty node.
    pub fn ignore(&self) -> (r: &Box<Branch<T>>)
        requires
            self is NonEmpty,
        ensures
            *r == self->NonEmpty_0,
    {
        match self {
            Node::NonEmpty(b) => b,
            Node::Empty => vstd::pervasive::unreached(),
        }
    }

    /// The branch of a non-empty node, to change in place.
    pub fn ignore_mut(&mut self) -> (r: &mut Box<Branch<T>>)
        requires
            *old(self) is NonEmpty,
        ensures
            *r == (*old(self))->NonEmpty_0,
            *final(self) == Node::NonEmpty(*final(r)),
    {
        match self {
            Node::NonEmpty(b) => b,
            Node::Empty => vstd::pervasive::unreached(),
        }
    }

    /// The key of a non-empty node.
    pub fn get_key(&self) -> (r: &T)
        requires
            self is NonEmpty,
        ensures
            *r == self.key(),
    {
        &self.ignore().key
    }

    /// Places `val` below this node: to the right of every key that does not
    /// exceed it, so equal keys keep the order in which they came.
    pub fn insert(&mut self, val: &T)
        requires
            total_order::<T>(),
            old(self).ordered(),
        ensures
            final(self).ordered(),
            final(self).keys() == insert_sorted(old(self).keys(), *val),
        decreases *old(self),
    {
        proof {
            lemma_order::<T>();
        }
        match self {
            Node::Empty => {
                *self = Node::NonEmpty(
                    Box::new(Branch { key: *val, right: Node::Empty, left: Node::Empty }),
                );
                assert(self.keys() =~= seq![*val]);
            },
            Node::NonEmpty(branch) => {
                let ghost l = branch.left.keys();
                let ghost r = branch.right.keys();
                let ghost k = branch.key;
                match branch.key.cmp(val) {
                    Ordering::Greater => {
                        branch.left.insert(val);
                        proof {
                            lemma_insert_sorted_contains(l, *val);
                            lemma_insert_sorted_before(l, seq![k] + r, *val);
                            assert(l + seq![k] + r =~= l + (seq![k] + r));
                            assert(insert_sorted(l, *val) + seq![k] + r =~= insert_sorted(l, *val)
                                + (seq![k] + r));
                            let nl = branch.left.keys();
                            assert forall|i: int| 0 <= i < nl.len() implies lt(#[trigger] nl[i], k) by {
                                assert(nl.contains(nl[i]));
                                if nl[i] != *val {
                                    let j = choose|j: int| 0 <= j < l.len() && l[j] == nl[i];
                                }
                            }
                        }
                    },
                    _ => {
                        branch.right.insert(val);
                        proof {
                            lemma_insert_sorted_contains(r, *val);
                            assert forall|i: int| 0 <= i < (l + seq![k]).len() implies !lt(
                                *val,
                                #[trigger] (l + seq![k])[i],
                            ) by {
                                if i < l.len() {
                                    assert((l + seq![k])[i] == l[i]);
                                    assert(lt(l[i], k));
                                }
                            }
                            lemma_insert_sorted_after(l + seq![k], r, *val);
                            let nr = branch.right.keys();
                            assert forall|i: int| 0 <= i < nr.len() implies le(k, #[trigger] nr[i]) by {
                                assert(nr.contains(nr[i]));
                                if nr[i] != *val {
                                    let j = choose|j: int| 0 <= j < r.len() && r[j] == nr[i];
                                }
                            }
                        }
                    },
                }
            },
        }
    }

    /// The subtree at which a search for `val` stops: a node whose key equals
    /// `val`, or an empty node when there is none.
    pub fn find(&self, val: &T) -> (r: &Self)
        requires
            total_order::<T>(),
        ensures
            *r == self.search(*val),
    {
        proof {
            lemma_order::<T>();
        }
        let mut cur = self;
        loop
            invariant
                total_order::<T>(),
                cur.search(*val) == self.search(*val),
            decreases cur.keys().len(),
        {
            proof {
                lemma_order::<T>();
            }
            match cur {
                Node::Empty => return cur,
                Node::NonEmpty(branch) => {
                    match val.cmp(&branch.key) {
                        Ordering::Less => cur = &branch.left,
                        Ordering::Greater => cur = &branch.right,
                        Ordering::Equal => return cur,
                    }
                },
            }
        }
    }

    /// The node that holds the smallest key.
    pub fn min(&self) -> (r: &Self)
        requires
            self is NonEmpty,
        ensures
            *r == self.leftmost(),
            r is NonEmpty,
            r.key() == self.keys()[0],
    {
        proof {
            self.lemma_extremes();
        }
        let mut min = self;
        loop
            invariant
                min is NonEmpty,
                min.leftmost() == self.leftmost(),
                self.leftmost().key() == self.keys()[0],
            decreases min.keys().len(),
        {
            let branch = min.ignore();
            match &branch.left {
                Node::Empty => return min,
                Node::NonEmpty(_) => min = &branch.left,
            }
        }
    }

    /// The node that holds the largest key.
    pub fn max(&self) -> (r: &Self)
        requires
            self is NonEmpty,
        ensures
            *r == self.rightmost(),
            r is NonEmpty,
            r.key() == self.keys().last(),
    {
        proof {
            self.lemma_extremes();
        }
        let mut max = self;
        loop
            invariant
                max is NonEmpty,
                max.rightmost() == self.rightmost(),
                self.rightmost().key() == self.keys().last(),
            decreases max.keys().len(),
        {
            let branch = max.ignore();
            match &branch.right {
                Node::Empty => return max,
                Node::NonEmpty(_) => max = &branch.right,
            }
        }
    }

    /// The keys in ascending order, in a new buffer; the node is not changed.
    pub fn walk(&self) -> (r: VecDeque<T>)
        ensures
            r@ == self.keys(),
        decreases self,
    {
        match self {
            Node::Empty => VecDeque::new(),
            Node::NonEmpty(branch) => {
                let mut result = branch.left.walk();
                result.push_back(branch.key);
                let mut right = branch.right.walk();
                result.append(&mut right);
                result
            },
        }
    }

    /// Empties both subtrees, then this node.
    pub fn rec_drop(&mut self)
        ensures
            *final(self) == Node::<T>::Empty,
        decreases *old(self),
    {
        match self {
            Node::Empty => {},
            Node::NonEmpty(branch) => {
                branch.left.rec_drop();
                branch.right.rec_drop();
            },
        }
        *self = Node::Empty;
    }

    /// Cuts off the subtree at which a search for `val` stops. Returns whether
    /// one was found, and the keys that were below it, which the caller must
    /// place again so that only the found key is lost.
    pub fn remove(&mut self, val: &T) -> (r: (bool, Vec<T>))
        requires
            total_order::<T>(),
            old(self).ordered(),
        ensures
            r.0 == old(self).keys().contains(*val),
            *final(self) == old(self).pruned(*val),
            r.1@ == old(self).orphans(*val),
        decreases *old(self),
    {
        proof {
            lemma_order::<T>();
            (*old(self)).lemma_search(*val);
        }
        let mut safe: Vec<T> = Vec::new();
        match self {
            Node::Empty => {
                return (false, safe);
            },
            Node::NonEmpty(branch) => {
                match val.cmp(&branch.key) {
                    Ordering::Less => {
                        proof {
                            branch.left.lemma_search(*val);
                        }
                        return branch.left.remove(val);
                    },
                    Ordering::Greater => {
                        proof {
                            branch.right.lemma_search(*val);
                        }
                        return branch.right.remove(val);
                    },
                    Ordering::Equal => {
                        let left = branch.left.walk();
                        push_all(&mut safe, &left);
                        let right = branch.right.walk();
                        push_all(&mut safe, &right);
                    },
                }
            },
        }
        self.rec_drop();
        (true, safe)
    }
}

/// Appends the contents of `d` to `v`, front to back.
fn push_all<T: Copy>(v: &mut Vec<T>, d: &VecDeque<T>)
    ensures
        final(v)@ == old(v)@ + d@,
{
    let mut i: usize = 0;
    while i < d.len()
        invariant
            0 <= i <= d@.len(),
            v@ == old(v)@ + d@.take(i as int),
        decreases d@.len() - i,
    {
        v.push(d[i]);
        i = i + 1;
        assert(d@.take(i as int) =~= d@.take(i - 1).push(d@[i - 1]));
    }
    assert(d@.take(i as int) =~= d@);
}

} // verus!
