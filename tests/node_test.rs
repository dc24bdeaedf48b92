use binartree::node::Node;
use binartree::node::Branch;

#[test]
fn node_default_test() {
    let test_node = Node::<i32>::default();
    assert_eq!(test_node, Node::Empty);
}

#[test]
fn node_new_test() {
    let test_node = Node::<i32>::new();
    assert_eq!(test_node, Node::Empty)
}

#[test]
fn node_ignores_test() {
    let mut test_node = Node::<i32>::new();
    test_node.insert(&1);
    
    assert_eq!(*test_node.ignore(), Box::new(Branch {
        key: 1,
        right: Node::Empty,
        left: Node::Empty,
    }));
    
    assert_eq!(*test_node.ignore_mut(), Box::new(Branch {
        key: 1,
        right: Node::Empty,
        left: Node::Empty,
    }));
}

#[test]
fn node_get_key_test() {
    let test_node: Node<i32> = Node::NonEmpty(Box::new(Branch {
        key: 32,
        left: Node::Empty,
        right: Node::Empty,
    }));
    assert_eq!(32, *test_node.get_key());
}

#[test]
fn node_insert_test() {
    let mut test_node = Node::new();
    test_node.insert(&3);
    assert_eq!(test_node, Node::NonEmpty(Box::new(Branch {
        key: 3,
        right: Node::Empty,
        left: Node::Empty,
    })));
}

#[test]
fn node_insert_full_test() {
    let mut test_node = Node::new();
    
    test_node.insert(&3);
    assert_eq!(test_node, Node::NonEmpty(Box::new(
        Branch {
            key: 3,
            right: Node::Empty,
            left: Node::Empty,
        })));
    assert_eq!(*test_node.get_key(), 3);
    
    test_node.insert(&3);
    assert_eq!(test_node, Node::NonEmpty(Box::new(
        Branch {
            key: 3,
            left: Node::Empty,
            right: Node::NonEmpty(Box::new(
                Branch {
                key: 3,
                right: Node::Empty,
                left: Node::Empty,
            })),
        })));
    assert_eq!(*test_node.ignore().right.get_key(), 3);
    
    test_node.insert(&2);
    assert_eq!(test_node, Node::NonEmpty(Box::new(
        Branch {
            key: 3,
            right: Node::NonEmpty(Box::new(
                Branch {
                key: 3,
                right: Node::Empty,
                left: Node::Empty,
            })),
            left: Node::NonEmpty(Box::new(
                Branch {
                key: 2,
                right: Node::Empty,
                left: Node::Empty,
            })),
        })));
    assert_eq!(*test_node.ignore().left.get_key(), 2);
}

#[test]
fn node_find_test() {
    let mut node_test = Node::new();
    assert_eq!(*node_test.find(&3), Node::Empty);
    
    node_test.insert(&3);
    node_test.insert(&4);
    
    assert_eq!(*node_test.find(&3), Node::NonEmpty(Box::new(
        Branch {
        key: 3,
        left: Node::Empty,
        right: Node::NonEmpty(Box::new(
            Branch {
            key: 4,
            left: Node::Empty,
            right: Node::Empty,
        })),
    })));
    
    assert_eq!(*node_test.find(&4), Node::NonEmpty(Box::new(
        Branch {
        key: 4,
        left: Node::Empty,
        right: Node::Empty,
    })));
    
    assert_eq!(*node_test.find(&2), Node::Empty);
}

#[test]
fn node_min_max_test() {
    let mut node_test = Node::new();
    
    node_test.insert(&3);
    node_test.insert(&3);
    node_test.insert(&4);
    node_test.insert(&2);
    node_test.insert(&2);
    
    assert_eq!(*node_test.max(), Node::NonEmpty(Box::new(
        Branch {
        key: 4,
        left: Node::Empty,
        right: Node::Empty,
    })));
    
    assert_eq!(*node_test.min(), Node::NonEmpty(Box::new(
        Branch {
        key: 2,
        left: Node::Empty,
        right: Node::NonEmpty(Box::new(
            Branch {
            key: 2,
            left: Node::Empty,
            right: Node::Empty,
        })),
    })));
}

#[test]
fn node_walk_test() {
    let mut node_test = Node::new();
    node_test.insert(&5);
    node_test.insert(&6);
    node_test.insert(&4);
    node_test.insert(&7);
    node_test.insert(&3);
    node_test.insert(&8);
    node_test.insert(&2);
    node_test.insert(&9);
    node_test.insert(&1);
    
    assert_eq!(node_test.walk(), vec![1, 2, 3, 4, 5, 6, 7, 8, 9]);
}

#[test]
fn node_drop_test() {
    let mut node_test = Node::new();
    
    node_test.insert(&3);
    node_test.insert(&1);
    node_test.insert(&4);
    node_test.insert(&3);
    node_test.insert(&5);
    node_test.insert(&6);
    
    //          3
    //        /  \
    //       1   4
    //          /  \
    //         3   5
    //             \
    //             6
    
    assert_eq!(node_test, Node::NonEmpty(Box::new(Branch {
        key: 3,
        left: Node::NonEmpty(Box::new(Branch {
            key: 1,
            right: Node::Empty,
            left: Node::Empty,
        })),
        right: Node::NonEmpty(Box::new(Branch {
            key: 4,
            left: Node::NonEmpty(Box::new(Branch {
                key: 3,
                right: Node::Empty,
                left: Node::Empty,
            })),
            right: Node::NonEmpty(Box::new(Branch {
                key: 5,
                left: Node::Empty,
                right: Node::NonEmpty(Box::new(Branch {
                    key: 6,
                    right: Node::Empty,
                    left: Node::Empty,
                })),
            })),
        })),
    })));
    
     node_test.ignore_mut().right.ignore_mut().right.rec_drop();
    
    //          3
    //        /  \
    //       1   4
    //          /
    //         3
    
    assert_eq!(node_test, Node::NonEmpty(Box::new(Branch {
        key: 3,
        left: Node::NonEmpty(Box::new(Branch {
            key: 1,
            right: Node::Empty,
            left: Node::Empty,
        })),
        right: Node::NonEmpty(Box::new(Branch {
            key: 4,
            right: Node::Empty,
            left: Node::NonEmpty(Box::new(Branch {
                key: 3,
                right: Node::Empty,
                left: Node::Empty,
            })),
        })),
    })));
}

#[test]
fn node_remove_test() {
    let mut node_test = Node::new();
    
    node_test.insert(&3);
    node_test.insert(&1);
    node_test.insert(&4);
    node_test.insert(&3);
    node_test.insert(&5);
    node_test.insert(&6);
    
    //          3
    //        /  \
    //       1   4
    //          /  \
    //         3    5
    //               \
    //                6
    
    assert_eq!(node_test, Node::NonEmpty(Box::new(Branch {
        key: 3,
        left: Node::NonEmpty(Box::new(Branch {
            key: 1,
            right: Node::Empty,
            left: Node::Empty,
        })),
        right: Node::NonEmpty(Box::new(Branch {
            key: 4,
            left: Node::NonEmpty(Box::new(Branch {
                key: 3,
                right: Node::Empty,
                left: Node::Empty,
            })),
            right: Node::NonEmpty(Box::new(Branch {
                key: 5,
                left: Node::Empty,
                right: Node::NonEmpty(Box::new(Branch {
                    key: 6,
                    right: Node::Empty,
                    left: Node::Empty,
                })),
            })),
        })),
    })));
    
    let safe = node_test.remove(&5);
    assert_eq!(safe.0, true);
    assert_eq!(safe.1, vec![6]);
    
    //          3
    //        /  \
    //       1   4
    //          /
    //         3
    
    assert_eq!(node_test, Node::NonEmpty(Box::new(Branch {
        key: 3,
        left: Node::NonEmpty(Box::new(Branch {
            key: 1,
            right: Node::Empty,
            left: Node::Empty,
        })),
        right: Node::NonEmpty(Box::new(Branch {
            key: 4,
            left: Node::NonEmpty(Box::new(Branch {
                key: 3,
                right: Node::Empty,
                left: Node::Empty,
            })),
            right: Node::Empty,
        })),
    })));
}
