//! The sequence buffer: an owned, double-ended, index-addressable list of keys.
//! It carries the tree's ascending output and the results of set operations,
//! and is consumed destructively: taking an element from either end removes it.

use vstd::prelude::*;
use std::collections::VecDeque;
use std::ops::Range;
use core::cmp::Ordering;
use crate::order::{lt, le, sorted, strictly_sorted, total_order, lemma_order, lower_bound};

verus! {

/// The elements of `s` whose mark is `want`, in their order in `s`.
pub open spec fn pick<T>(s: Seq<T>, marks: Seq<bool>, want: bool) -> Seq<T>
    decreases s.len(),
{
    if s.len() == 0 {
        Seq::empty()
    } else {
        let front = pick(s.drop_last(), marks.drop_last(), want);
        if marks.last() == want {
            front.push(s.last())
        } else {
            front
        }
    }
}

/// What `pick` keeps comes from `s`, in order, so an ascending `s` gives an
/// ascending result.
pub proof fn lemma_pick<T: Ord>(s: Seq<T>, marks: Seq<bool>, want: bool)
    ensures
        forall|x: T| #[trigger] pick(s, marks, want).contains(x) ==> s.contains(x),
        sorted(s) ==> sorted(pick(s, marks, want)),
    decreases s.len(),
{
    if s.len() > 0 {
        let front = s.drop_last();
        let p = pick(front, marks.drop_last(), want);
        lemma_pick(front, marks.drop_last(), want);
        assert forall|x: T| #[trigger] pick(s, marks, want).contains(x) implies s.contains(x) by {
            if p.contains(x) {
                let i = choose|i: int| 0 <= i < front.len() && front[i] == x;
                assert(s[i] == x);
            } else {
                assert(s[s.len() - 1] == x);
            }
        }
        if sorted(s) {
            assert(sorted(front)) by {
                assert forall|i: int, j: int| 0 <= i < j < front.len() implies le(#[trigger] front[i], #[trigger] front[j]) by {
                    assert(front[i] == s[i] && front[j] == s[j]);
                }
            }
            let r = pick(s, marks, want);
            assert forall|i: int, j: int| 0 <= i < j < r.len() implies le(#[trigger] r[i], #[trigger] r[j]) by {
                if marks.last() == want && j == r.len() - 1 {
                    assert(r[i] == p[i]);
                    assert(p.contains(p[i]));
                    let k = choose|k: int| 0 <= k < front.len() && front[k] == p[i];
                    assert(s[k] == p[i]);
                } else {
                    assert(r[i] == p[i] && r[j] == p[j]);
                }
            }
        }
    }
}

/// `pick` keeps no more elements than there are.
pub proof fn lemma_pick_len<T>(s: Seq<T>, marks: Seq<bool>, want: bool)
    ensures
        pick(s, marks, want).len() <= s.len(),
    decreases s.len(),
{
    if s.len() > 0 {
        lemma_pick_len(s.drop_last(), marks.drop_last(), want);
    }
}

/// `marks` holds, for each element of `s`, a value that `f` may return for it.
pub open spec fn marked_by<T, F: Fn(&T) -> bool>(f: F, s: Seq<T>, marks: Seq<bool>) -> bool {
    &&& marks.len() == s.len()
    &&& forall|i: int| 0 <= i < s.len() ==> f.ensures((&s[i],), #[trigger] marks[i])
}

/// Splits `items` by `fun` into those it holds for and the rest, each in
/// their order.
pub(crate) fn partition<T: Copy, F: Fn(&T) -> bool>(items: &Vec<T>, fun: F) -> (r: (Vec<T>, Vec<T>))
    requires
        forall|x: &T| #[trigger] fun.requires((x,)),
    ensures
        exists|marks: Seq<bool>|
            {
                &&& #[trigger] marked_by(fun, items@, marks)
                &&& r.0@ == pick(items@, marks, true)
                &&& r.1@ == pick(items@, marks, false)
            },
{
    let ghost mut marks: Seq<bool> = Seq::empty();
    let mut yes: Vec<T> = Vec::new();
    let mut no: Vec<T> = Vec::new();
    let mut i: usize = 0;
    while i < items.len()
        invariant
            forall|x: &T| #[trigger] fun.requires((x,)),
            0 <= i <= items@.len(),
            marked_by(fun, items@.take(i as int), marks),
            yes@ == pick(items@.take(i as int), marks, true),
            no@ == pick(items@.take(i as int), marks, false),
        decreases items@.len() - i,
    {
        let x = items[i];
        let m = fun(&x);
        if m {
            yes.push(x);
        } else {
            no.push(x);
        }
        proof {
            let s = items@.take(i + 1);
            let earlier = marks;
            marks = marks.push(m);
            assert(s.drop_last() =~= items@.take(i as int));
            assert(marks.drop_last() =~= earlier);
            assert(s.last() == x);
            assert forall|j: int| 0 <= j < s.len() implies fun.ensures((&s[j],), #[trigger] marks[j]) by {
                if j < i {
                    assert(s[j] == items@.take(i as int)[j]);
                }
            }
        }
        i = i + 1;
    }
    assert(items@.take(i as int) =~= items@);
    (yes, no)
}

/// An owned, ordered, double-ended list of keys.
#[derive(Debug, Clone, PartialEq)]
pub struct TreeIter<T> where T: Copy + Clone + Ord + Eq {
    pub iter: VecDeque<T>,
}

impl<T> View for TreeIter<T> where T: Copy + Clone + Ord + Eq {
    type V = Seq<T>;

    open spec fn view(&self) -> Seq<T> {
        self.iter@
    }
}

impl<T> Default for TreeIter<T> where T: Copy + Clone + Ord + Eq {
    fn default() -> (r: Self)
        ensures
            r@ == Seq::<T>::empty(),
    {
        TreeIter { iter: VecDeque::new() }
    }
}

/// Relies on `VecDeque::capacity`: the number of elements the deque can hold
/// without reallocating, which is never below its length.
#[verifier::external_body]
fn deque_capacity<T>(d: &VecDeque<T>) -> (r: usize)
    ensures
        r >= d@.len(),
{
    d.capacity()
}

/// Relies on `VecDeque::shrink_to_fit`: it frees spare storage and leaves the
/// contents as they were.
#[verifier::external_body]
fn deque_shrink_to_fit<T>(d: &mut VecDeque<T>)
    ensures
        final(d)@ == old(d)@,
{
    d.shrink_to_fit()
}

/// Relies on `VecDeque::swap_remove_back`: the element at `at` is removed and
/// returned, and the last element takes its place; `None` when `at` is out of
/// bounds.
#[verifier::external_body]
fn deque_swap_remove_back<T>(d: &mut VecDeque<T>, at: usize) -> (r: Option<T>)
    ensures
        at < old(d)@.len() ==> r == Some(old(d)@[at as int]) && final(d)@ == old(d)@.update(
            at as int,
            old(d)@.last(),
        ).drop_last(),
        at >= old(d)@.len() ==> r is None && final(d)@ == old(d)@,
{
    d.swap_remove_back(at)
}

/// Relies on `VecDeque::swap_remove_front`: the element at `at` is removed and
/// returned, and the first element takes its place; `None` when `at` is out of
/// bounds.
#[verifier::external_body]
fn deque_swap_remove_front<T>(d: &mut VecDeque<T>, at: usize) -> (r: Option<T>)
    ensures
        at < old(d)@.len() ==> r == Some(old(d)@[at as int]) && final(d)@ == old(d)@.update(
            at as int,
            old(d)@[0],
        ).drop_first(),
        at >= old(d)@.len() ==> r is None && final(d)@ == old(d)@,
{
    d.swap_remove_front(at)
}

impl<T> TreeIter<T> where T: Copy + Clone + Ord + Eq {
    /// An empty buffer.
    pub fn new() -> (r: Self)
        ensures
            r@ == Seq::<T>::empty(),
    {
        TreeIter { iter: VecDeque::new() }
    }

    /// An empty buffer with room for at least `capacity` elements.
    pub fn with_capacity(capacity: usize) -> (r: Self)
        ensures
            r@ == Seq::<T>::empty(),
    {
        TreeIter { iter: VecDeque::with_capacity(capacity) }
    }

    /// A buffer that holds `items` in their order.
    pub fn from_vec(items: Vec<T>) -> (r: Self)
        ensures
            r@ == items@,
    {
        let mut r = TreeIter::with_capacity(items.len());
        r.extend(items);
        r
    }

    /// How many elements the buffer can hold without reallocating.
    pub fn capacity(&self) -> (r: usize)
        ensures
            r >= self@.len(),
    {
        deque_capacity(&self.iter)
    }

    /// The number of elements.
    pub fn len(&self) -> (r: usize)
        ensures
            r == self@.len(),
    {
        self.iter.len()
    }

    /// Whether the buffer holds no element.
    pub fn is_empty(&self) -> (r: bool)
        ensures
            r == (self@.len() == 0),
    {
        self.iter.len() == 0
    }

    /// Moves every element of `src` to the back, in order.
    pub fn append(&mut self, src: Self)
        ensures
            final(self)@ == old(self)@ + src@,
    {
        let mut src = src;
        self.iter.append(&mut src.iter);
    }

    /// Removes every element.
    pub fn clear(&mut self)
        ensures
            final(self)@ == Seq::<T>::empty(),
    {
        self.iter.clear()
    }

    /// Adds `items` at the back, in order.
    pub fn extend(&mut self, items: Vec<T>)
        ensures
            final(self)@ == old(self)@ + items@,
    {
        let mut i: usize = 0;
        while i < items.len()
            invariant
                0 <= i <= items@.len(),
                self@ == old(self)@ + items@.take(i as int),
            decreases items@.len() - i,
        {
            self.iter.push_back(items[i]);
            i = i + 1;
            assert(items@.take(i as int) =~= items@.take(i - 1).push(items@[i - 1]));
        }
        assert(items@.take(i as int) =~= items@);
    }

    /// Copies every element of `slice` to the back, in order.
    pub fn extend_from_slice(&mut self, slice: &[T])
        ensures
            final(self)@ == old(self)@ + slice@,
    {
        let mut i: usize = 0;
        while i < slice.len()
            invariant
                0 <= i <= slice@.len(),
                self@ == old(self)@ + slice@.take(i as int),
            decreases slice@.len() - i,
        {
            self.iter.push_back(slice[i]);
            i = i + 1;
            assert(slice@.take(i as int) =~= slice@.take(i - 1).push(slice@[i - 1]));
        }
        assert(slice@.take(i as int) =~= slice@);
    }

    /// Removes the elements at positions `range.start` up to `range.end`
    /// (exclusive) and returns them in order.
    pub fn drain(&mut self, range: Range<usize>) -> (r: Self)
        requires
            range.start <= range.end <= old(self)@.len(),
        ensures
            r@ == old(self)@.subrange(range.start as int, range.end as int),
            final(self)@ == old(self)@.take(range.start as int) + old(self)@.skip(
                range.end as int,
            ),
    {
        let mut tail = self.iter.split_off(range.end);
        let middle = self.iter.split_off(range.start);
        self.iter.append(&mut tail);
        TreeIter { iter: middle }
    }

    /// Inserts `val` at position `index`, shifting what follows to the back.
    pub fn insert(&mut self, index: usize, val: &T)
        requires
            index <= old(self)@.len(),
        ensures
            final(self)@ == old(self)@.insert(index as int, *val),
    {
        self.iter.insert(index, *val)
    }

    /// Adds `val` at the front.
    pub fn push_front(&mut self, val: &T)
        ensures
            final(self)@ == seq![*val] + old(self)@,
    {
        self.iter.push_front(*val)
    }

    /// Takes the first element, if any.
    pub fn pop_front(&mut self) -> (r: Option<T>)
        ensures
            old(self)@.len() > 0 ==> r == Some(old(self)@[0]) && final(self)@ == old(self)@.drop_first(),
            old(self)@.len() == 0 ==> r is None && final(self)@ == old(self)@,
    {
        self.iter.pop_front()
    }

    /// Adds `val` at the back.
    pub fn push_back(&mut self, val: &T)
        ensures
            final(self)@ == old(self)@.push(*val),
    {
        self.iter.push_back(*val)
    }

    /// Takes the last element, if any.
    pub fn pop_back(&mut self) -> (r: Option<T>)
        ensures
            old(self)@.len() > 0 ==> r == Some(old(self)@.last()) && final(self)@
                == old(self)@.drop_last(),
            old(self)@.len() == 0 ==> r is None && final(self)@ == old(self)@,
    {
        self.iter.pop_back()
    }

    /// Removes and returns the element at `index`, shifting what follows to
    /// the front; `None`, with nothing changed, when `index` is out of bounds.
    pub fn remove(&mut self, index: usize) -> (r: Option<T>)
        ensures
            index < old(self)@.len() ==> r == Some(old(self)@[index as int]) && final(self)@
                == old(self)@.remove(index as int),
            index >= old(self)@.len() ==> r is None && final(self)@ == old(self)@,
    {
        self.iter.remove(index)
    }

    /// Makes room for `reserve` elements beyond the room there is now.
    pub fn reserve(&mut self, reserve: usize)
        requires
            old(self)@.len() + reserve <= usize::MAX,
        ensures
            final(self)@ == old(self)@,
    {
        let capacity = deque_capacity(&self.iter);
        let additional = match capacity.checked_add(reserve) {
            Some(_) => capacity - self.iter.len() + reserve,
            None => reserve,
        };
        self.iter.reserve(additional)
    }

    /// Frees spare room.
    pub fn shrink_to_fit(&mut self)
        ensures
            final(self)@ == old(self)@,
    {
        deque_shrink_to_fit(&mut self.iter)
    }

    /// Keeps `[0, at)` and returns `[at, len)`.
    pub fn split_off(&mut self, at: usize) -> (r: Self)
        requires
            at <= old(self)@.len(),
        ensures
            final(self)@ == old(self)@.take(at as int),
            r@ == old(self)@.skip(at as int),
    {
        let mut vec = self.iter.split_off(at);
        let mut res = TreeIter::with_capacity(vec.len());
        res.iter.append(&mut vec);
        res
    }

    /// Removes and returns the element at `at` and moves the last element into
    /// its place; `None`, with nothing changed, when `at` is out of bounds.
    pub fn swap_remove_back(&mut self, at: usize) -> (r: Option<T>)
        ensures
            at < old(self)@.len() ==> r == Some(old(self)@[at as int]) && final(self)@
                == old(self)@.update(at as int, old(self)@.last()).drop_last(),
            at >= old(self)@.len() ==> r is None && final(self)@ == old(self)@,
    {
        deque_swap_remove_back(&mut self.iter, at)
    }

    /// Removes and returns the element at `at` and moves the first element
    /// into its place; `None`, with nothing changed, when `at` is out of bounds.
    pub fn swap_remove_front(&mut self, at: usize) -> (r: Option<T>)
        ensures
            at < old(self)@.len() ==> r == Some(old(self)@[at as int]) && final(self)@
                == old(self)@.update(at as int, old(self)@[0]).drop_first(),
            at >= old(self)@.len() ==> r is None && final(self)@ == old(self)@,
    {
        deque_swap_remove_front(&mut self.iter, at)
    }

    /// Keeps the first `len` elements.
    pub fn truncate(&mut self, len: usize)
        ensures
            len <= old(self)@.len() ==> final(self)@ == old(self)@.take(len as int),
            len > old(self)@.len() ==> final(self)@ == old(self)@,
    {
        self.iter.truncate(len)
    }

    /// A copy of the elements in a vector; the buffer is not changed.
    pub fn to_vec(&self) -> (r: Vec<T>)
        ensures
            r@ == self@,
    {
        let mut r: Vec<T> = Vec::with_capacity(self.iter.len());
        let mut i: usize = 0;
        while i < self.iter.len()
            invariant
                0 <= i <= self@.len(),
                r@ == self@.take(i as int),
            decreases self@.len() - i,
        {
            r.push(self.iter[i]);
            i = i + 1;
            assert(self@.take(i as int) =~= self@.take(i - 1).push(self@[i - 1]));
        }
        assert(self@.take(i as int) =~= self@);
        r
    }

    /// A copy of the elements in a deque; the buffer is not changed.
    pub fn to_deque(&self) -> (r: VecDeque<T>)
        ensures
            r@ == self@,
    {
        let mut r: VecDeque<T> = VecDeque::with_capacity(self.iter.len());
        let mut i: usize = 0;
        while i < self.iter.len()
            invariant
                0 <= i <= self@.len(),
                r@ == self@.take(i as int),
            decreases self@.len() - i,
        {
            r.push_back(self.iter[i]);
            i = i + 1;
            assert(self@.take(i as int) =~= self@.take(i - 1).push(self@[i - 1]));
        }
        assert(self@.take(i as int) =~= self@);
        r
    }

    /// Consumes the first element: it is removed and returned.
    pub fn next(&mut self) -> (r: Option<T>)
        ensures
            old(self)@.len() > 0 ==> r == Some(old(self)@[0]) && final(self)@ == old(self)@.drop_first(),
            old(self)@.len() == 0 ==> r is None && final(self)@ == old(self)@,
    {
        self.iter.pop_front()
    }

    /// Consumes the last element: it is removed and returned.
    pub fn next_back(&mut self) -> (r: Option<T>)
        ensures
            old(self)@.len() > 0 ==> r == Some(old(self)@.last()) && final(self)@
                == old(self)@.drop_last(),
            old(self)@.len() == 0 ==> r is None && final(self)@ == old(self)@,
    {
        self.iter.pop_back()
    }

    /// Consumes every element front to back and returns them in that order;
    /// the buffer is left empty, so a second call returns nothing.
    pub fn collect(&mut self) -> (r: Vec<T>)
        ensures
            r@ == old(self)@,
            final(self)@ == Seq::<T>::empty(),
    {
        let mut r: Vec<T> = Vec::new();
        loop
            invariant
                old(self)@ == r@ + self@,
            decreases self@.len(),
        {
            match self.next() {
                Some(x) => {
                    r.push(x);
                },
                None => {
                    assert(r@ + self@ =~= r@);
                    return r;
                },
            }
        }
    }

    /// Sorts the buffer ascending and drops repeated elements: afterwards it
    /// is strictly increasing and holds exactly the values it held before.
    pub fn full_dedup(&mut self)
        requires
            total_order::<T>(),
        ensures
            strictly_sorted(final(self)@),
            forall|x: T| #[trigger] final(self)@.contains(x) <==> old(self)@.contains(x),
    {
        proof {
            lemma_order::<T>();
        }
        let ghost orig = self@;
        let mut vec: Vec<T> = Vec::with_capacity(self.iter.len());
        let mut i: usize = 0;
        while i < self.iter.len()
            invariant
                total_order::<T>(),
                self@ == orig,
                0 <= i <= orig.len(),
                strictly_sorted(vec@),
                forall|x: T| #[trigger] vec@.contains(x) <==> orig.take(i as int).contains(x),
            decreases orig.len() - i,
        {
            proof {
                lemma_order::<T>();
            }
            let x = self.iter[i];
            assert(orig.take(i + 1) =~= orig.take(i as int).push(x));
            assert(sorted(vec@)) by {
                assert forall|a: int, b: int| 0 <= a < b < vec@.len() implies le(#[trigger] vec@[a], #[trigger] vec@[b]) by {
                    assert(lt(vec@[a], vec@[b]));
                }
            }
            let p = lower_bound(&vec, &x);
            let present = p < vec.len() && match vec[p].cmp(&x) {
                Ordering::Equal => true,
                _ => false,
            };
            if !present {
                let ghost before = vec@;
                vec.insert(p, x);
                assert forall|a: int, b: int| 0 <= a < b < vec@.len() implies lt(#[trigger] vec@[a], #[trigger] vec@[b]) by {
                    if b < p {
                        assert(vec@[a] == before[a] && vec@[b] == before[b]);
                    } else if b == p {
                        assert(vec@[a] == before[a]);
                    } else if a > p {
                        assert(vec@[a] == before[a - 1] && vec@[b] == before[b - 1]);
                    } else if a == p {
                        assert(vec@[b] == before[b - 1]);
                        assert(!lt(before[p as int], x));
                        assert(before[p as int] != x);
                        if b - 1 > p {
                            assert(lt(before[p as int], before[b - 1]));
                        }
                    } else {
                        assert(vec@[a] == before[a] && vec@[b] == before[b - 1]);
                        assert(lt(before[a], x));
                        assert(!lt(before[b - 1], x));
                    }
                }
                assert forall|y: T| #[trigger] vec@.contains(y) <==> orig.take(i + 1).contains(y) by {
                    if vec@.contains(y) {
                        let j = choose|j: int| 0 <= j < vec@.len() && vec@[j] == y;
                        if j < p {
                            assert(before[j] == y);
                        } else if j > p {
                            assert(before[j - 1] == y);
                        }
                        if y != x {
                            assert(before.contains(y));
                            assert(orig.take(i as int).contains(y));
                            let k = choose|k: int| 0 <= k < i && #[trigger] orig.take(i as int)[k] == y;
                            assert(orig.take(i + 1)[k] == y);
                        } else {
                            assert(orig.take(i + 1)[i as int] == y);
                        }
                    }
                    if orig.take(i + 1).contains(y) {
                        let k = choose|k: int| 0 <= k <= i && #[trigger] orig.take(i + 1)[k] == y;
                        if k < i {
                            assert(orig.take(i as int)[k] == y);
                            assert(before.contains(y));
                            let j = choose|j: int| 0 <= j < before.len() && before[j] == y;
                            if j < p {
                                assert(vec@[j] == y);
                            } else {
                                assert(vec@[j + 1] == y);
                            }
                        } else {
                            assert(vec@[p as int] == y);
                        }
                    }
                }
            } else {
                assert forall|y: T| #[trigger] vec@.contains(y) <==> orig.take(i + 1).contains(y) by {
                    if vec@.contains(y) {
                        assert(orig.take(i as int).contains(y));
                        let k = choose|k: int| 0 <= k < i && #[trigger] orig.take(i as int)[k] == y;
                        assert(orig.take(i + 1)[k] == y);
                    }
                    if orig.take(i + 1).contains(y) {
                        let k = choose|k: int| 0 <= k <= i && #[trigger] orig.take(i + 1)[k] == y;
                        if k < i {
                            assert(orig.take(i as int)[k] == y);
                        } else {
                            assert(vec@[p as int] == y);
                        }
                    }
                }
            }
            i = i + 1;
        }
        assert(orig.take(i as int) =~= orig);
        self.iter.clear();
        self.extend(vec);
    }

    /// Removes the elements for which `filter` holds and returns them; the
    /// rest stay, in their order.
    pub fn drain_filter<F: Fn(&T) -> bool>(&mut self, filter: F) -> (r: Self)
        requires
            forall|x: &T| #[trigger] filter.requires((x,)),
        ensures
            exists|marks: Seq<bool>|
                {
                    &&& #[trigger] marked_by(filter, old(self)@, marks)
                    &&& r@ == pick(old(self)@, marks, true)
                    &&& final(self)@ == pick(old(self)@, marks, false)
                },
    {
        let items = self.to_vec();
        let (removed, kept) = partition(&items, filter);
        self.iter.clear();
        self.extend(kept);
        TreeIter::from_vec(removed)
    }

    /// Keeps only the elements for which `fun` holds, in their order.
    pub fn retain<F: Fn(&T) -> bool>(&mut self, fun: F)
        requires
            forall|x: &T| #[trigger] fun.requires((x,)),
        ensures
            exists|marks: Seq<bool>|
                {
                    &&& #[trigger] marked_by(fun, old(self)@, marks)
                    &&& final(self)@ == pick(old(self)@, marks, true)
                },
    {
        let rem = self.drain_filter(fun);
        self.clear();
        self.append(rem);
    }
}

} // verus!
