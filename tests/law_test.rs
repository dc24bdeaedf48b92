use binartree::iter::TreeIter;
use binartree::tree::BinaryTree;

fn tree_of(items: &[i32]) -> BinaryTree<i32> {
    BinaryTree::from_vec(items.to_vec())
}

#[test]
fn ordering_holds_after_mixed_inserts() {
    let tree = tree_of(&[5, 3, 8, 3, 1, 9, 5, 7, 2]);
    assert_eq!(tree.to_vec(), vec![1, 2, 3, 3, 5, 5, 7, 8, 9]);
    assert_eq!(*tree.first(), 1);
    assert_eq!(*tree.last(), 9);
}

#[test]
fn size_matches_iteration_after_edits() {
    let mut tree = tree_of(&[4, 2, 6, 1, 3, 5, 7, 4]);
    assert_eq!(tree.len(), tree.iter().len());
    tree.remove(&4);
    assert_eq!(tree.len(), 7);
    assert_eq!(tree.len(), tree.iter().len());
    tree.multi_remove(vec![1, 1, 7, 42]);
    assert_eq!(tree.len(), 5);
    assert_eq!(tree.len(), tree.iter().len());
    let removed = tree.drain_filter(|x| *x > 4);
    assert_eq!(removed.to_vec(), vec![5, 6]);
    assert_eq!(tree.len(), 3);
    assert_eq!(tree.len(), tree.iter().len());
    tree.clear();
    assert_eq!(tree.len(), 0);
    assert_eq!(tree.len(), tree.iter().len());
}

#[test]
fn iteration_is_non_decreasing() {
    let tree = tree_of(&[9, 1, 8, 2, 7, 3, 6, 4, 5, 5, 1]);
    let keys = tree.to_vec();
    for w in keys.windows(2) {
        assert!(w[0] <= w[1]);
    }
    assert_eq!(keys, vec![1, 1, 2, 3, 4, 5, 5, 6, 7, 8, 9]);
}

#[test]
fn inserted_value_is_contained() {
    let mut tree = tree_of(&[10, 20, 30]);
    for v in [15, 10, -4, 31, 0] {
        assert!(!tree.contains(&v) || v == 10);
        tree.insert(&v);
        assert!(tree.contains(&v));
    }
    assert!(!tree.contains(&16));
}

#[test]
fn remove_five_from_one_to_nine() {
    let mut tree = tree_of(&(1..10).collect::<Vec<i32>>());
    tree.remove(&5);
    assert_eq!(tree.to_vec(), vec![1, 2, 3, 4, 6, 7, 8, 9]);
    assert_eq!(tree.len(), 8);
}

#[test]
fn remove_root_keeps_descendants() {
    let mut tree = tree_of(&[5, 3, 8, 1, 4, 7, 9, 6]);
    tree.remove(&5);
    assert_eq!(tree.to_vec(), vec![1, 3, 4, 6, 7, 8, 9]);
    assert_eq!(tree.len(), 7);
}

#[test]
fn remove_takes_one_of_equal_keys() {
    let mut tree = tree_of(&[2, 2, 1, 2, 3]);
    tree.remove(&2);
    assert_eq!(tree.to_vec(), vec![1, 2, 2, 3]);
    assert_eq!(tree.len(), 4);
}

#[test]
fn remove_absent_key_changes_nothing() {
    let mut tree = tree_of(&[2, 1, 3]);
    tree.remove(&7);
    assert_eq!(tree.to_vec(), vec![1, 2, 3]);
    assert_eq!(tree.len(), 3);
}

#[test]
fn set_algebra_reference_scenario() {
    let a = tree_of(&(1..1000).collect::<Vec<i32>>());
    let b = tree_of(&(500..1500).collect::<Vec<i32>>());
    assert_eq!(a.difference(&b).collect(), (1..500).collect::<Vec<i32>>());
    assert_eq!(a.intersection(&b).collect(), (500..1000).collect::<Vec<i32>>());
    let mut runs = (1..500).collect::<Vec<i32>>();
    runs.extend(1000..1500);
    assert_eq!(a.symmetric_difference(&b).collect(), runs);
    assert_eq!(BinaryTree::from_vec(a.union(&b).collect()).to_vec(), (1..1500).collect::<Vec<i32>>());
}

#[test]
fn set_algebra_keeps_repeats_of_the_first_tree() {
    let a = tree_of(&[1, 1, 2]);
    let b = tree_of(&[2, 3]);
    assert_eq!(a.difference(&b).collect(), vec![1, 1]);
    assert_eq!(a.intersection(&b).collect(), vec![2]);
    assert_eq!(a.symmetric_difference(&b).collect(), vec![1, 1, 3]);
    assert_eq!(a.union(&b).collect(), vec![1, 1, 3, 2]);
    assert_eq!(a.bitor(&b).to_vec(), vec![1, 1, 2, 3]);
    assert!(!a.is_disjoint(&b));
    assert!(tree_of(&[]).is_disjoint(&b));
}

#[test]
fn replace_thousand_ones_by_twos() {
    let mut tree = BinaryTree::new();
    tree.extend(vec![1; 1000]);
    tree.replace_val(&1, &2);
    assert_eq!(tree.to_vec(), vec![2; 1000]);
    assert_eq!(tree.len(), 1000);
}

#[test]
fn replace_moves_keys_to_their_new_place() {
    let mut tree = tree_of(&[5, 1, 9, 5, 3]);
    tree.replace_val(&5, &10);
    assert_eq!(tree.to_vec(), vec![1, 3, 9, 10, 10]);
    tree.replace_val(&3, &3);
    assert_eq!(tree.to_vec(), vec![1, 3, 9, 10, 10]);
    tree.replace_val(&4, &0);
    assert_eq!(tree.to_vec(), vec![1, 3, 9, 10, 10]);
}

#[test]
fn consumed_buffer_stays_empty() {
    let mut buf = TreeIter::from_vec(vec![3, 1, 2]);
    assert_eq!(buf.collect(), vec![3, 1, 2]);
    assert_eq!(buf.collect(), Vec::<i32>::new());
    assert_eq!(buf.next(), None);
    assert_eq!(buf.next_back(), None);
    let mut other = TreeIter::from_vec(vec![4, 5]);
    assert_eq!(other.next_back(), Some(5));
    assert_eq!(other.next(), Some(4));
    assert_eq!(other.next(), None);
    assert!(other.is_empty());
}

#[test]
fn clear_then_iterate_is_empty() {
    let mut tree = tree_of(&[3, 3, 1, 2]);
    tree.clear();
    assert_eq!(tree.iter().to_vec(), Vec::<i32>::new());
    assert_eq!(tree.len(), 0);
    assert!(tree.is_empty());
    tree.clear();
    assert_eq!(tree.iter().to_vec(), Vec::<i32>::new());
    assert_eq!(tree.len(), 0);
}

#[test]
fn buffer_out_of_range_gives_none() {
    let mut buf = TreeIter::from_vec(vec![1, 2, 3]);
    assert_eq!(buf.remove(3), None);
    assert_eq!(buf.swap_remove_back(7), None);
    assert_eq!(buf.swap_remove_front(3), None);
    assert_eq!(buf.to_vec(), vec![1, 2, 3]);
    let mut empty = TreeIter::<i32>::new();
    assert_eq!(empty.pop_front(), None);
    assert_eq!(empty.pop_back(), None);
}

#[test]
fn swap_removes_move_an_end_element() {
    let mut buf = TreeIter::from_vec(vec![10, 20, 30, 40]);
    assert_eq!(buf.swap_remove_back(1), Some(20));
    assert_eq!(buf.to_vec(), vec![10, 40, 30]);
    assert_eq!(buf.swap_remove_front(2), Some(30));
    assert_eq!(buf.to_vec(), vec![40, 10]);
}

#[test]
fn shrink_and_capacity_keep_contents() {
    let mut buf = TreeIter::with_capacity(64);
    buf.extend(vec![7, 8, 9]);
    assert!(buf.capacity() >= 64);
    buf.shrink_to_fit();
    assert!(buf.capacity() >= 3);
    assert_eq!(buf.to_vec(), vec![7, 8, 9]);
}

#[test]
fn full_dedup_sorts_and_drops_repeats() {
    let mut buf = TreeIter::from_vec(vec![3, 1, 2, 3, 1, 0, 2]);
    buf.full_dedup();
    assert_eq!(buf.to_vec(), vec![0, 1, 2, 3]);
    let mut empty = TreeIter::<i32>::new();
    empty.full_dedup();
    assert!(empty.is_empty());
}

#[test]
fn buffer_drain_filter_keeps_order_of_the_rest() {
    let mut buf = TreeIter::from_vec(vec![5, 2, 8, 1, 6]);
    let even = buf.drain_filter(|x| *x % 2 == 0);
    assert_eq!(even.to_vec(), vec![2, 8, 6]);
    assert_eq!(buf.to_vec(), vec![5, 1]);
    buf.retain(|x| *x > 1);
    assert_eq!(buf.to_vec(), vec![5]);
}

#[test]
fn buffer_drain_and_split() {
    let mut buf = TreeIter::from_vec(vec![0, 1, 2, 3, 4, 5]);
    let middle = buf.drain(1..3);
    assert_eq!(middle.to_vec(), vec![1, 2]);
    assert_eq!(buf.to_vec(), vec![0, 3, 4, 5]);
    let tail = buf.split_off(4);
    assert!(tail.is_empty());
    let tail = buf.split_off(1);
    assert_eq!(tail.to_vec(), vec![3, 4, 5]);
    assert_eq!(buf.to_deque(), std::collections::VecDeque::from(vec![0]));
    buf.truncate(9);
    assert_eq!(buf.len(), 1);
}

#[test]
fn tree_pops_with_repeats() {
    let mut tree = tree_of(&[4, 1, 4, 1, 2]);
    tree.pop_first();
    assert_eq!(tree.to_vec(), vec![1, 2, 4, 4]);
    tree.pop_last();
    assert_eq!(tree.to_vec(), vec![1, 2, 4]);
}

#[test]
fn tree_retain_and_append() {
    let mut tree = tree_of(&[6, 1, 4, 3]);
    tree.retain(|x| *x % 2 == 0);
    assert_eq!(tree.to_vec(), vec![4, 6]);
    let other = tree_of(&[5, 4]);
    tree.append(&other);
    assert_eq!(tree.to_vec(), vec![4, 4, 5, 6]);
    assert_eq!(tree.to_deque(), std::collections::VecDeque::from(vec![4, 4, 5, 6]));
    assert_eq!(tree.bitand(&other).to_vec(), vec![4, 4, 5]);
    assert_eq!(tree.bitxor(&other).to_vec(), vec![6]);
}

#[test]
fn multi_remove_is_multiset_difference() {
    let mut tree = tree_of(&[3, 1, 3, 2, 3]);
    tree.multi_remove(vec![3, 3, 9, 1, 1]);
    assert_eq!(tree.to_vec(), vec![2, 3]);
}

#[test]
fn cloned_tree_is_independent() {
    let tree = tree_of(&[2, 1, 3]);
    let mut copy = tree.clone();
    copy.insert(&4);
    assert_eq!(tree.to_vec(), vec![1, 2, 3]);
    assert_eq!(copy.to_vec(), vec![1, 2, 3, 4]);
    assert_eq!(tree.len(), 3);
}
