//! The tree coordinator: one root node and a count of its keys. It keeps
//! the count equal to the number of keys, and builds set algebra and bulk
//! edits from the node operations and the sequence buffer.

use vstd::prelude::*;
use vstd::seq_lib::group_to_multiset_ensures;
use vstd::multiset::group_multiset_axioms;
use std::collections::VecDeque;
use crate::order::{sorted, sorted_contains, total_order, lemma_order};
use crate::sorted_seq::{
    insert_all, insert_sorted, sorted_of, lemma_insert_all, lemma_insert_sorted,
    lemma_insert_sorted_contains, lemma_sorted_of_sorted, lemma_sorted_unique,
};
use crate::node::{Branch, Node};
use crate::iter::{TreeIter, marked_by, partition, pick, lemma_pick, lemma_pick_len};

verus! {

/// A sorted multiset of keys in an unbalanced binary search tree.
#[derive(Debug, Clone, PartialEq)]
pub struct BinaryTree<T> where T: Copy + Clone + Ord + Eq {
    pub top: Node<T>,
    pub size: usize,
}

impl<T> View for BinaryTree<T> where T: Copy + Clone + Ord + Eq {
    type V = Seq<T>;

    /// The keys in ascending order.
    open spec fn view(&self) -> Seq<T> {
        self.top.keys()
    }
}

impl<T> Default for BinaryTree<T> where T: Copy + Clone + Ord + Eq {
    fn default() -> (r: Self)
        ensures
            r@ == Seq::<T>::empty(),
            total_order::<T>() ==> r.wf(),
    {
        BinaryTree { top: Node::Empty, size: 0 }
    }
}

/// A key that has just been added is found: `insert` leaves the keys
/// `insert_sorted(s, v)`, and `contains` answers whether the keys hold `v`.
pub proof fn law_insert_then_contains<T: Ord>(s: Seq<T>, v: T)
    ensures
        insert_sorted(s, v).contains(v),
{
    lemma_insert_sorted_contains(s, v);
}

/// The elements of `a` whose value does not occur in `b`, in their order.
pub open spec fn only_in<T>(a: Seq<T>, b: Seq<T>) -> Seq<T> {
    a.filter(|x: T| !b.contains(x))
}

/// The elements of `a` whose value occurs in `b`, in their order.
pub open spec fn also_in<T>(a: Seq<T>, b: Seq<T>) -> Seq<T> {
    a.filter(|x: T| b.contains(x))
}

/// The elements of `a` whose presence in ascending `b` is `keep_present`,
/// each looked up by halving.
fn filter_by_membership<T: Ord + Copy>(a: &Vec<T>, b: &Vec<T>, keep_present: bool) -> (r: Vec<T>)
    requires
        total_order::<T>(),
        sorted(b@),
    ensures
        keep_present ==> r@ == also_in(a@, b@),
        !keep_present ==> r@ == only_in(a@, b@),
{
    let mut r: Vec<T> = Vec::new();
    let mut i: usize = 0;
    while i < a.len()
        invariant
            total_order::<T>(),
            sorted(b@),
            0 <= i <= a@.len(),
            keep_present ==> r@ == also_in(a@.take(i as int), b@),
            !keep_present ==> r@ == only_in(a@.take(i as int), b@),
        decreases a@.len() - i,
    {
        let elem = a[i];
        let ghost prev = a@.take(i as int);
        assert(a@.take(i + 1) =~= prev.push(elem));
        proof {
            prev.lemma_filter_push(elem, |x: T| b@.contains(x));
            prev.lemma_filter_push(elem, |x: T| !b@.contains(x));
        }
        assert(also_in(prev.push(elem), b@) == if b@.contains(elem) {
            also_in(prev, b@).push(elem)
        } else {
            also_in(prev, b@)
        });
        assert(only_in(prev.push(elem), b@) == if !b@.contains(elem) {
            only_in(prev, b@).push(elem)
        } else {
            only_in(prev, b@)
        });
        if sorted_contains(b, &elem) == keep_present {
            r.push(elem);
        }
        i = i + 1;
    }
    assert(a@.take(i as int) =~= a@);
    r
}

/// `s` with every occurrence of `old_val` taken out and as many copies of
/// `new_val` put at the end.
pub open spec fn replaced<T>(s: Seq<T>, old_val: T, new_val: T) -> Seq<T> {
    s.filter(|x: T| x != old_val) + Seq::new(s.filter(|x: T| x == old_val).len(), |i: int| new_val)
}

/// The first position of `val` in `src`, by a scan from the front.
fn find_vec<T: Ord + Copy>(src: &Vec<T>, val: &T) -> (r: Option<usize>)
    requires
        total_order::<T>(),
    ensures
        match r {
            Some(i) => i < src@.len() && src@[i as int] == *val,
            None => !src@.contains(*val),
        },
{
    proof {
        lemma_order::<T>();
    }
    let mut i: usize = 0;
    while i < src.len()
        invariant
            total_order::<T>(),
            0 <= i <= src@.len(),
            forall|j: int| 0 <= j < i ==> src@[j] != *val,
        decreases src@.len() - i,
    {
        proof {
            lemma_order::<T>();
        }
        if src[i] == *val {
            return Some(i);
        }
        i = i + 1;
    }
    None
}

/// In an ascending sequence, removing any occurrence of a key gives the same
/// sequence as removing the one at position `i`.
proof fn lemma_remove_one<T: Ord>(s: Seq<T>, i: int)
    requires
        total_order::<T>(),
        sorted(s),
        0 <= i < s.len(),
    ensures
        s.remove(s.index_of(s[i])) == s.remove(i),
{
    broadcast use group_to_multiset_ensures;
    let j = s.index_of(s[i]);
    assert(s.contains(s[i]));
    lemma_sorted_remove(s, i);
    lemma_sorted_remove(s, j);
    lemma_sorted_unique(s.remove(j), s.remove(i));
}

/// Removing an element keeps a sequence ascending.
proof fn lemma_sorted_remove<T: Ord>(s: Seq<T>, i: int)
    requires
        sorted(s),
        0 <= i < s.len(),
    ensures
        sorted(s.remove(i)),
{
    let t = s.remove(i);
    assert forall|a: int, b: int| 0 <= a < b < t.len() implies crate::order::le(
        #[trigger] t[a],
        #[trigger] t[b],
    ) by {
        if b < i {
        } else if a < i {
            assert(t[b] == s[b + 1]);
        } else {
            assert(t[a] == s[a + 1] && t[b] == s[b + 1]);
        }
    }
}

impl<T> BinaryTree<T> where T: Copy + Clone + Ord + Eq {
    /// The key type is totally ordered, the root is ordered, and the count is
    /// the number of keys.
    pub open spec fn wf(&self) -> bool {
        &&& total_order::<T>()
        &&& self.top.ordered()
        &&& self.size == self.top.keys().len()
    }

    /// The keys of a well-formed tree ascend.
    pub proof fn lemma_sorted(&self)
        requires
            self.wf(),
        ensures
            sorted(self@),
    {
        self.top.lemma_ordered_sorted();
    }

    /// An empty tree.
    pub fn new() -> (r: Self)
        requires
            total_order::<T>(),
        ensures
            r.wf(),
            r@ == Seq::<T>::empty(),
    {
        BinaryTree { top: Node::Empty, size: 0 }
    }

    /// A tree that holds `items`.
    pub fn from_vec(items: Vec<T>) -> (r: Self)
        requires
            total_order::<T>(),
        ensures
            r.wf(),
            r@ == sorted_of(items@),
    {
        let mut tree = BinaryTree::new();
        assert(items@.len() == items.len());
        tree.extend(items);
        tree
    }

    /// The number of keys, counting repeats.
    pub fn len(&self) -> (r: usize)
        requires
            self.wf(),
        ensures
            r == self@.len(),
    {
        self.size
    }

    /// Whether the tree holds no key.
    pub fn is_empty(&self) -> (r: bool)
        requires
            self.wf(),
        ensures
            r == (self@.len() == 0),
    {
        self.size == 0
    }

    /// The keys in ascending order, in a vector.
    pub fn to_vec(&self) -> (r: Vec<T>)
        requires
            self.wf(),
        ensures
            r@ == self@,
            sorted(r@),
    {
        proof {
            self.lemma_sorted();
        }
        let walked = self.top.walk();
        let mut r: Vec<T> = Vec::with_capacity(walked.len());
        let mut i: usize = 0;
        while i < walked.len()
            invariant
                0 <= i <= walked@.len(),
                r@ == walked@.take(i as int),
            decreases walked@.len() - i,
        {
            r.push(walked[i]);
            i = i + 1;
            assert(walked@.take(i as int) =~= walked@.take(i - 1).push(walked@[i - 1]));
        }
        assert(walked@.take(i as int) =~= walked@);
        r
    }

    /// The keys in ascending order, in a deque.
    pub fn to_deque(&self) -> (r: VecDeque<T>)
        requires
            self.wf(),
        ensures
            r@ == self@,
    {
        self.top.walk()
    }

    /// The keys in ascending order, in a new buffer.
    pub fn iter(&self) -> (r: TreeIter<T>)
        requires
            self.wf(),
        ensures
            r@ == self@,
            sorted(r@),
    {
        proof {
            self.lemma_sorted();
        }
        TreeIter { iter: self.top.walk() }
    }

    /// The keys in ascending order, in a new buffer that takes the tree's place.
    pub fn into_iter(self) -> (r: TreeIter<T>)
        requires
            self.wf(),
        ensures
            r@ == self@,
            sorted(r@),
    {
        self.iter()
    }

    /// Adds one occurrence of `val`.
    pub fn insert(&mut self, val: &T)
        requires
            old(self).wf(),
            old(self)@.len() < usize::MAX,
        ensures
            final(self).wf(),
            final(self)@ == insert_sorted(old(self)@, *val),
            final(self)@.len() == old(self)@.len() + 1,
    {
        proof {
            self.lemma_sorted();
            lemma_insert_sorted(self@, *val);
        }
        match self.top {
            Node::Empty => {
                self.top = Node::NonEmpty(
                    Box::new(Branch { key: *val, right: Node::Empty, left: Node::Empty }),
                );
                self.size = 1;
                assert(self@ =~= seq![*val]);
            },
            Node::NonEmpty(_) => {
                self.top.insert(val);
                self.size = self.size + 1;
            },
        }
    }

    /// Adds one occurrence of each of `items`, in order.
    pub fn extend(&mut self, items: Vec<T>)
        requires
            old(self).wf(),
            old(self)@.len() + items@.len() <= usize::MAX,
        ensures
            final(self).wf(),
            final(self)@ == insert_all(old(self)@, items@),
    {
        let mut i: usize = 0;
        while i < items.len()
            invariant
                self.wf(),
                0 <= i <= items@.len(),
                self@ == insert_all(old(self)@, items@.take(i as int)),
                self@.len() == old(self)@.len() + i,
                old(self)@.len() + items@.len() <= usize::MAX,
            decreases items@.len() - i,
        {
            self.insert(&items[i]);
            i = i + 1;
            assert(items@.take(i as int).drop_last() =~= items@.take(i - 1));
        }
        assert(items@.take(i as int) =~= items@);
    }

    /// Whether the tree holds `val`.
    pub fn contains(&self, val: &T) -> (r: bool)
        requires
            self.wf(),
        ensures
            r == self@.contains(*val),
    {
        proof {
            self.top.lemma_search(*val);
        }
        match self.top.find(val) {
            Node::Empty => false,
            Node::NonEmpty(_) => true,
        }
    }

    /// The smallest key.
    pub fn first(&self) -> (r: &T)
        requires
            self.wf(),
            self@.len() > 0,
        ensures
            *r == self@[0],
    {
        self.top.min().get_key()
    }

    /// The largest key.
    pub fn last(&self) -> (r: &T)
        requires
            self.wf(),
            self@.len() > 0,
        ensures
            *r == self@.last(),
    {
        self.top.max().get_key()
    }

    /// Adds every key of `src`, in ascending order; `src` is not changed.
    pub fn append(&mut self, src: &Self)
        requires
            old(self).wf(),
            src.wf(),
            old(self)@.len() + src@.len() <= usize::MAX,
        ensures
            final(self).wf(),
            final(self)@ == insert_all(old(self)@, src@),
    {
        let collect = src.to_vec();
        self.extend(collect);
    }

    /// Removes every key.
    pub fn clear(&mut self)
        requires
            old(self).wf(),
        ensures
            final(self).wf(),
            final(self)@ == Seq::<T>::empty(),
            final(self).size == 0,
    {
        self.top.rec_drop();
        self.size = 0;
    }

    /// Removes one occurrence of `val`, if there is one. The node that holds
    /// it is cut off with everything below it, and the keys below are put
    /// back one by one, so the count drops by exactly one.
    pub fn remove(&mut self, val: &T)
        requires
            old(self).wf(),
        ensures
            final(self).wf(),
            old(self)@.contains(*val) ==> final(self)@ == old(self)@.remove(
                old(self)@.index_of(*val),
            ),
            old(self)@.contains(*val) ==> final(self)@.len() == old(self)@.len() - 1,
            !old(self)@.contains(*val) ==> final(self)@ == old(self)@,
    {
        broadcast use group_to_multiset_ensures, group_multiset_axioms;
        let ghost before = self@;
        let ghost old_top = self.top;
        proof {
            old_top.lemma_search(*val);
            self.lemma_sorted();
            old_top.pruned(*val).lemma_ordered_sorted();
        }
        let keys = self.top.remove(val);
        if keys.0 {
            let ghost pruned = old_top.pruned(*val).keys();
            let ghost orphans = keys.1@;
            assert(before.len() == pruned.len() + orphans.len() + 1) by {
                assert(before.to_multiset().len() == before.len());
                assert(pruned.to_multiset().len() == pruned.len());
                assert(orphans.to_multiset().len() == orphans.len());
                assert(old_top.search(*val).keys().to_multiset().len() == old_top.search(
                    *val,
                ).keys().len());
            }
            self.size = self.size - (keys.1.len() + 1);
            self.extend(keys.1);
            proof {
                lemma_insert_all(pruned, orphans);
                let i = before.index_of(*val);
                let t = before.remove(i);
                assert(sorted(t)) by {
                    assert forall|a: int, b: int| 0 <= a < b < t.len() implies crate::order::le(
                        #[trigger] t[a],
                        #[trigger] t[b],
                    ) by {
                        if b < i {
                        } else if a < i {
                            assert(t[b] == before[b + 1]);
                        } else {
                            assert(t[a] == before[a + 1] && t[b] == before[b + 1]);
                        }
                    }
                }
                assert(t.to_multiset() == before.to_multiset().remove(*val));
                assert(t.to_multiset() =~= self@.to_multiset());
                lemma_sorted_unique(self@, t);
            }
        }
    }

    /// Removes one occurrence of the smallest key.
    pub fn pop_first(&mut self)
        requires
            old(self).wf(),
            old(self)@.len() > 0,
        ensures
            final(self).wf(),
            final(self)@ == old(self)@.drop_first(),
    {
        let ghost before = self@;
        proof {
            self.lemma_sorted();
        }
        let key = *self.first();
        self.remove(&key);
        proof {
            lemma_remove_one(before, 0);
            assert(before.remove(0) =~= before.drop_first());
        }
    }

    /// Removes one occurrence of the largest key.
    pub fn pop_last(&mut self)
        requires
            old(self).wf(),
            old(self)@.len() > 0,
        ensures
            final(self).wf(),
            final(self)@ == old(self)@.drop_last(),
    {
        let ghost before = self@;
        proof {
            self.lemma_sorted();
        }
        let key = *self.last();
        self.remove(&key);
        proof {
            lemma_remove_one(before, before.len() - 1);
            assert(before.remove(before.len() - 1) =~= before.drop_last());
        }
    }

    /// The keys of this tree whose value does not occur in `other`, ascending.
    pub fn difference(&self, other: &Self) -> (r: TreeIter<T>)
        requires
            self.wf(),
            other.wf(),
        ensures
            r@ == only_in(self@, other@),
    {
        let iter_1 = self.to_vec();
        let iter_2 = other.to_vec();
        let iter = filter_by_membership(&iter_1, &iter_2, false);
        TreeIter::from_vec(iter)
    }

    /// The keys of this tree whose value occurs in `other`, ascending.
    pub fn intersection(&self, other: &Self) -> (r: TreeIter<T>)
        requires
            self.wf(),
            other.wf(),
        ensures
            r@ == also_in(self@, other@),
    {
        let iter_1 = self.to_vec();
        let iter_2 = other.to_vec();
        let iter = filter_by_membership(&iter_1, &iter_2, true);
        TreeIter::from_vec(iter)
    }

    /// The keys of this tree that `other` lacks, followed by the keys of
    /// `other` that this tree lacks: two ascending runs.
    pub fn symmetric_difference(&self, other: &Self) -> (r: TreeIter<T>)
        requires
            self.wf(),
            other.wf(),
        ensures
            r@ == only_in(self@, other@) + only_in(other@, self@),
    {
        let iter_1 = self.to_vec();
        let iter_2 = other.to_vec();
        let mut iter = filter_by_membership(&iter_1, &iter_2, false);
        let mut back = filter_by_membership(&iter_2, &iter_1, false);
        iter.append(&mut back);
        TreeIter::from_vec(iter)
    }

    /// The symmetric difference followed by the intersection. The result is
    /// not sorted as a whole; it becomes so once placed in a tree.
    pub fn union(&self, other: &Self) -> (r: TreeIter<T>)
        requires
            self.wf(),
            other.wf(),
        ensures
            r@ == only_in(self@, other@) + only_in(other@, self@) + also_in(self@, other@),
    {
        let mut iter = TreeIter::new();
        iter.append(self.symmetric_difference(other));
        iter.append(self.intersection(other));
        iter
    }

    /// Whether no key of this tree occurs in `other`.
    pub fn is_disjoint(&self, other: &Self) -> (r: bool)
        requires
            self.wf(),
            other.wf(),
        ensures
            r == (also_in(self@, other@).len() == 0),
    {
        self.intersection(other).is_empty()
    }

    /// Removes the keys for which `fun` holds and returns them ascending; the
    /// tree is rebuilt from the rest.
    pub fn drain_filter<F: Fn(&T) -> bool>(&mut self, fun: F) -> (r: TreeIter<T>)
        requires
            old(self).wf(),
            forall|x: &T| #[trigger] fun.requires((x,)),
        ensures
            final(self).wf(),
            exists|marks: Seq<bool>|
                {
                    &&& #[trigger] marked_by(fun, old(self)@, marks)
                    &&& r@ == pick(old(self)@, marks, true)
                    &&& final(self)@ == pick(old(self)@, marks, false)
                },
    {
        let ghost before = self@;
        let items = self.to_vec();
        let (removed, kept) = partition(&items, fun);
        let ghost marks = choose|marks: Seq<bool>|
            {
                &&& #[trigger] marked_by(fun, before, marks)
                &&& removed@ == pick(before, marks, true)
                &&& kept@ == pick(before, marks, false)
            };
        proof {
            lemma_pick(before, marks, false);
            assert(kept@.len() <= before.len()) by {
                lemma_pick_len(before, marks, false);
            }
        }
        self.clear();
        self.extend(kept);
        proof {
            lemma_sorted_of_sorted(pick(before, marks, false));
        }
        TreeIter::from_vec(removed)
    }

    /// Keeps only the keys for which `fun` holds.
    pub fn retain<F: Fn(&T) -> bool>(&mut self, fun: F)
        requires
            old(self).wf(),
            forall|x: &T| #[trigger] fun.requires((x,)),
        ensures
            final(self).wf(),
            exists|marks: Seq<bool>|
                {
                    &&& #[trigger] marked_by(fun, old(self)@, marks)
                    &&& final(self)@ == pick(old(self)@, marks, true)
                },
    {
        let ghost before = self@;
        let items = self.to_vec();
        let (kept, _removed) = partition(&items, fun);
        let ghost marks = choose|marks: Seq<bool>|
            {
                &&& #[trigger] marked_by(fun, before, marks)
                &&& kept@ == pick(before, marks, true)
                &&& _removed@ == pick(before, marks, false)
            };
        proof {
            lemma_pick(before, marks, true);
            assert(kept@.len() <= before.len()) by {
                lemma_pick_len(before, marks, true);
            }
        }
        self.clear();
        self.extend(kept);
        proof {
            lemma_sorted_of_sorted(pick(before, marks, true));
        }
    }

    /// Removes, for each entry of `src`, one occurrence of that key, where
    /// one is left: the multiset difference.
    pub fn multi_remove(&mut self, src: Vec<T>)
        requires
            old(self).wf(),
        ensures
            final(self).wf(),
            sorted(final(self)@),
            final(self)@.to_multiset() == old(self)@.to_multiset().sub(src@.to_multiset()),
    {
        broadcast use group_to_multiset_ensures, group_multiset_axioms;
        let ghost wanted = src@.to_multiset();
        let mut src = src;
        let mut new_tree: Vec<T> = Vec::new();
        let source = self.to_vec();
        let ghost mut marks: Seq<bool> = Seq::empty();
        let mut i: usize = 0;
        while i < source.len()
            invariant
                self.wf(),
                sorted(source@),
                0 <= i <= source@.len(),
                marks.len() == i,
                new_tree@ == pick(source@.take(i as int), marks, false),
                new_tree@.to_multiset() == source@.take(i as int).to_multiset().sub(wanted),
                src@.to_multiset() == wanted.sub(source@.take(i as int).to_multiset()),
            decreases source@.len() - i,
        {
            let x = source[i];
            let ghost done = source@.take(i as int);
            let ghost earlier = marks;
            let ghost left = src@;
            assert(source@.take(i + 1) =~= done.push(x));
            assert(source@.take(i + 1).drop_last() =~= done);
            match find_vec(&src, &x) {
                Some(ind) => {
                    src.swap_remove(ind);
                    proof {
                        marks = marks.push(true);
                        assert(marks.drop_last() =~= earlier);
                        assert(ind < left.len());
                        assert(left[ind as int] == x);
                        let u = left.update(ind as int, left.last());
                        vstd::seq_lib::to_multiset_update(left, ind as int, left.last());
                        vstd::seq_lib::to_multiset_remove(u, left.len() - 1);
                        assert(u.drop_last() =~= u.remove(left.len() - 1));
                        assert(u.to_multiset() == left.to_multiset().insert(left.last()).remove(x));
                        assert(u[left.len() - 1] == left.last());
                        assert(u.remove(left.len() - 1).to_multiset() == u.to_multiset().remove(
                            left.last(),
                        ));
                        assert(left.contains(x)) by {
                            assert(left[ind as int] == x);
                        }
                        vstd::seq_lib::to_multiset_contains(left, x);
                        vstd::seq_lib::to_multiset_build(done, x);
                        assert(left.to_multiset().count(x) > 0);
                        assert(src@.to_multiset() =~= left.to_multiset().remove(x));
                        assert(new_tree@.to_multiset() =~= done.push(x).to_multiset().sub(wanted));
                        assert(src@.to_multiset() =~= wanted.sub(done.push(x).to_multiset()));
                    }
                },
                None => {
                    new_tree.push(x);
                    proof {
                        marks = marks.push(false);
                        assert(marks.drop_last() =~= earlier);
                        vstd::seq_lib::to_multiset_contains(left, x);
                        vstd::seq_lib::to_multiset_build(done, x);
                        vstd::seq_lib::to_multiset_build(pick(done, earlier, false), x);
                        assert(left.to_multiset().count(x) == 0);
                        assert(new_tree@.to_multiset() =~= done.push(x).to_multiset().sub(wanted));
                        assert(src@.to_multiset() =~= wanted.sub(done.push(x).to_multiset()));
                    }
                },
            }
            i = i + 1;
        }
        assert(source@.take(i as int) =~= source@);
        proof {
            lemma_pick(source@, marks, false);
            lemma_pick_len(source@, marks, false);
        }
        self.clear();
        self.extend(new_tree);
        proof {
            lemma_sorted_of_sorted(pick(source@, marks, false));
        }
    }

    /// Replaces every occurrence of `old_val` by `new_val`.
    pub fn replace_val(&mut self, old_val: &T, new_val: &T)
        requires
            old(self).wf(),
        ensures
            final(self).wf(),
            *old_val == *new_val ==> final(self)@ == old(self)@,
            *old_val != *new_val ==> final(self)@ == sorted_of(
                replaced(old(self)@, *old_val, *new_val),
            ),
    {
        proof {
            lemma_order::<T>();
        }
        if *old_val == *new_val {
            return;
        }
        let mut count: usize = 0;
        let mut new_tree: Vec<T> = Vec::new();
        let source = self.to_vec();
        let mut i: usize = 0;
        while i < source.len()
            invariant
                self.wf(),
                0 <= i <= source@.len(),
                new_tree@ == source@.take(i as int).filter(|x: T| x != *old_val),
                count == source@.take(i as int).filter(|x: T| x == *old_val).len(),
                new_tree@.len() + count == i,
            decreases source@.len() - i,
        {
            proof {
                lemma_order::<T>();
            }
            let elem = source[i];
            let ghost done = source@.take(i as int);
            assert(source@.take(i + 1) =~= done.push(elem));
            proof {
                done.lemma_filter_push(elem, |x: T| x != *old_val);
                done.lemma_filter_push(elem, |x: T| x == *old_val);
            }
            if elem == *old_val {
                count = count + 1;
            } else {
                new_tree.push(elem);
            }
            i = i + 1;
        }
        assert(source@.take(i as int) =~= source@);
        let ghost others = new_tree@;
        let mut j: usize = 0;
        while j < count
            invariant
                0 <= j <= count <= source@.len(),
                new_tree@ == others + Seq::new(j as nat, |k: int| *new_val),
                others.len() + count <= source@.len(),
            decreases count - j,
        {
            new_tree.push(*new_val);
            j = j + 1;
            assert(new_tree@ =~= others + Seq::new(j as nat, |k: int| *new_val));
        }
        self.clear();
        self.extend(new_tree);
    }

    /// A new tree of the intersection.
    pub fn bitand(&self, rhs: &Self) -> (r: Self)
        requires
            self.wf(),
            rhs.wf(),
        ensures
            r.wf(),
            r@ == sorted_of(also_in(self@, rhs@)),
    {
        let mut items = self.intersection(rhs);
        BinaryTree::from_vec(items.collect())
    }

    /// A new tree of the union.
    pub fn bitor(&self, rhs: &Self) -> (r: Self)
        requires
            self.wf(),
            rhs.wf(),
        ensures
            r.wf(),
            r@ == sorted_of(only_in(self@, rhs@) + only_in(rhs@, self@) + also_in(self@, rhs@)),
    {
        let mut items = self.union(rhs);
        BinaryTree::from_vec(items.collect())
    }

    /// A new tree of the symmetric difference.
    pub fn bitxor(&self, rhs: &Self) -> (r: Self)
        requires
            self.wf(),
            rhs.wf(),
        ensures
            r.wf(),
            r@ == sorted_of(only_in(self@, rhs@) + only_in(rhs@, self@)),
    {
        let mut items = self.symmetric_difference(rhs);
        BinaryTree::from_vec(items.collect())
    }
}

} // verus!
