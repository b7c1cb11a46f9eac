use order_book::tree::{Node, Tree};

fn values(t: &mut Tree<usize>) -> Vec<usize> {
    t.iter().map(|n| n.val).collect::<Vec<usize>>()
}

fn links(n: &Node<usize>) -> (usize, Option<usize>, Option<usize>, Option<usize>) {
    (n.idx, n.left_idx, n.right_idx, n.parent_idx)
}

#[test]
fn populate_tree_from_sorted() {
    let mut t: Tree<usize> = Tree::new();
    let arr: &[usize] = &[1, 2, 3, 4, 5, 6];
    t.populate_from_sorted(None, arr);
    let got_vec = t.iter().map(|n| n.val).collect::<Vec<usize>>();
    assert_eq!(vec![4, 2, 1, 3, 6, 5], got_vec);
}

#[test]
fn tree_contains_correct_left_and_right_idxs() {
    let mut t: Tree<usize> = Tree::new();
    let arr: &[usize] = &[1, 2, 3, 4, 5, 6];
    t.populate_from_sorted(None, arr);

    // Our tree should look like:
    //              4
    //      2           6
    //  1       3   5

    let first_el = t.at(Some(0)).unwrap();
    // first_el has no parent as it's the root
    assert_eq!(first_el.parent_idx, None);
    assert_eq!(t.val_at(first_el.left_idx).unwrap(), 2);
    assert_eq!(t.val_at(first_el.right_idx).unwrap(), 6);

    let second_el = t.at(Some(1)).unwrap();
    assert_eq!(second_el.parent_idx.unwrap(), 0);
    assert_eq!(t.val_at(second_el.left_idx).unwrap(), 1);
    assert_eq!(t.val_at(second_el.right_idx).unwrap(), 3);

    let third_el = t.at(Some(4)).unwrap();
    assert_eq!(third_el.parent_idx.unwrap(), 0);
    assert_eq!(t.val_at(third_el.left_idx).unwrap(), 5);
    assert_eq!(t.val_at(third_el.right_idx), None);
}

#[test]
fn new_tree_is_empty() {
    let mut t: Tree<usize> = Tree::new();
    assert_eq!(t.len(), 0);
    assert_eq!(t.iter().count(), 0);
    assert!(t.at(Some(0)).is_none());
    assert_eq!(t.val_at(None), None);
}

#[test]
fn bulk_load_of_nothing_adds_nothing() {
    let mut t: Tree<usize> = Tree::new();
    let root = t.populate_from_sorted(None, &[]);
    assert_eq!(root, None);
    assert_eq!(t.len(), 0);
}

#[test]
fn bulk_load_adds_one_node_for_each_value() {
    for n in 1..40usize {
        let sorted: Vec<usize> = (0..n).map(|v| v * 10).collect();
        let mut t: Tree<usize> = Tree::new();
        let root = t.populate_from_sorted(None, &sorted);
        assert_eq!(root, Some(0));
        assert_eq!(t.len(), n);
        assert_eq!(t.val_at(root), Some(sorted[n / 2]));
    }
}

#[test]
fn bulk_load_links_six_values_exactly() {
    let mut t: Tree<usize> = Tree::new();
    let root = t.populate_from_sorted(None, &[1, 2, 3, 4, 5, 6]);
    assert_eq!(root, Some(0));
    let got: Vec<_> = t.iter().map(links).collect();
    assert_eq!(
        got,
        vec![
            (0, Some(1), Some(4), None),
            (1, Some(2), Some(3), Some(0)),
            (2, None, None, Some(1)),
            (3, None, None, Some(1)),
            (4, Some(5), None, Some(0)),
            (5, None, None, Some(4)),
        ]
    );
}

#[test]
fn bulk_load_of_one_value_is_a_lone_root() {
    let mut t: Tree<usize> = Tree::new();
    let root = t.populate_from_sorted(None, &[7]);
    assert_eq!(root, Some(0));
    let got: Vec<_> = t.iter().map(links).collect();
    assert_eq!(got, vec![(0, None, None, None)]);
    assert_eq!(t.val_at(Some(0)), Some(7));
}

#[test]
fn bulk_load_of_two_values_takes_the_upper_as_root() {
    let mut t: Tree<usize> = Tree::new();
    t.populate_from_sorted(None, &[1, 2]);
    assert_eq!(values(&mut t), vec![2, 1]);
    let got: Vec<_> = t.iter().map(links).collect();
    assert_eq!(got, vec![(0, Some(1), None, None), (1, None, None, Some(0))]);
}

#[test]
fn every_parent_names_its_child_after_a_bulk_load() {
    for n in 0..50usize {
        let sorted: Vec<usize> = (0..n).collect();
        let mut t: Tree<usize> = Tree::new();
        t.populate_from_sorted(None, &sorted);
        for i in 0..n {
            let node = t.at(Some(i)).unwrap();
            assert_eq!(node.idx, i);
            match node.parent_idx {
                None => assert_eq!(i, 0),
                Some(p) => {
                    assert!(p < i);
                    let above = t.at(Some(p)).unwrap();
                    assert!(above.left_idx == Some(i) || above.right_idx == Some(i));
                }
            }
        }
    }
}

#[test]
fn bulk_load_is_as_shallow_as_can_be() {
    fn depth(t: &Tree<usize>, at: Option<usize>) -> usize {
        match t.at(at) {
            None => 0,
            Some(n) => 1 + depth(t, n.left_idx).max(depth(t, n.right_idx)),
        }
    }
    for n in 0..70usize {
        let sorted: Vec<usize> = (0..n).collect();
        let mut t: Tree<usize> = Tree::new();
        let root = t.populate_from_sorted(None, &sorted);
        let mut levels = 0;
        while (1usize << levels) < n + 1 {
            levels += 1;
        }
        assert_eq!(depth(&t, root), levels);
    }
}

#[test]
fn second_bulk_load_appends_a_subtree_of_its_own() {
    let mut t: Tree<usize> = Tree::new();
    t.populate_from_sorted(None, &[1, 2, 3]);
    let second = t.populate_from_sorted(None, &[10, 20]);
    assert_eq!(second, Some(3));
    assert_eq!(values(&mut t), vec![2, 1, 3, 20, 10]);
    let got: Vec<_> = t.iter().map(links).collect();
    assert_eq!(
        got,
        vec![
            (0, Some(1), Some(2), None),
            (1, None, None, Some(0)),
            (2, None, None, Some(0)),
            (3, Some(4), None, None),
            (4, None, None, Some(3)),
        ]
    );
}

#[test]
fn bulk_load_records_the_parent_it_was_given() {
    let mut t: Tree<usize> = Tree::new();
    t.populate_from_sorted(None, &[5]);
    let root = t.populate_from_sorted(Some(0), &[1, 2, 3]);
    assert_eq!(root, Some(1));
    assert_eq!(t.at(root).unwrap().parent_idx, Some(0));
    // the node named as parent is left as it was
    assert_eq!(links(t.at(Some(0)).unwrap()), (0, None, None, None));
}

#[test]
fn at_gives_nothing_outside_the_arena() {
    let mut t: Tree<usize> = Tree::new();
    t.populate_from_sorted(None, &[1, 2, 3]);
    assert!(t.at(None).is_none());
    assert!(t.at(Some(3)).is_none());
    assert!(t.at(Some(usize::MAX)).is_none());
    assert_eq!(t.at(Some(2)).unwrap().val, 3);
    assert_eq!(t.val_at(Some(3)), None);
    assert_eq!(t.val_at(None), None);
}

#[test]
fn reading_twice_gives_the_same() {
    let mut t: Tree<usize> = Tree::new();
    t.populate_from_sorted(None, &[1, 2, 3, 4, 5]);
    for i in 0..7 {
        assert_eq!(t.val_at(Some(i)), t.val_at(Some(i)));
    }
    let first = values(&mut t);
    let second = values(&mut t);
    assert_eq!(first, second);
    assert_eq!(first, vec![3, 2, 1, 5, 4]);
}

#[test]
fn add_to_an_empty_tree_makes_the_first_node() {
    for start in [0usize, 1, 17, usize::MAX] {
        let mut t: Tree<usize> = Tree::new();
        let slot = t.add(42, start);
        assert_eq!(*slot, 42);
        assert_eq!(t.len(), 1);
        assert_eq!(links(t.at(Some(0)).unwrap()), (0, None, None, None));
        assert_eq!(t.val_at(Some(0)), Some(42));
    }
}

#[test]
fn add_sends_greater_values_left_and_lesser_right() {
    let mut t: Tree<usize> = Tree::new();
    t.add(50, 0);
    t.add(70, 0);
    t.add(30, 0);
    t.add(60, 0);
    t.add(80, 0);
    assert_eq!(values(&mut t), vec![50, 70, 30, 60, 80]);
    let got: Vec<_> = t.iter().map(links).collect();
    assert_eq!(
        got,
        vec![
            (0, Some(1), Some(2), None),
            (1, Some(4), Some(3), Some(0)),
            (2, None, None, Some(0)),
            (3, None, None, Some(1)),
            (4, None, None, Some(1)),
        ]
    );
}

#[test]
fn add_of_an_equal_value_finds_the_node_again() {
    let mut t: Tree<usize> = Tree::new();
    t.add(50, 0);
    t.add(70, 0);
    t.add(30, 0);
    assert_eq!(t.len(), 3);
    for v in [50usize, 70, 30, 70, 50] {
        let slot = t.add(v, 0);
        assert_eq!(*slot, v);
        assert_eq!(t.len(), 3);
    }
}

#[test]
fn add_lends_out_the_stored_value() {
    let mut t: Tree<usize> = Tree::new();
    t.add(50, 0);
    *t.add(70, 0) = 71;
    assert_eq!(t.val_at(Some(1)), Some(71));
    assert_eq!(t.len(), 2);
    // 70 is gone from the tree, so it is added anew, left of 50 and right of 71
    t.add(70, 0);
    assert_eq!(t.len(), 3);
    assert_eq!(links(t.at(Some(1)).unwrap()), (1, None, Some(2), Some(0)));
}

#[test]
fn add_starts_its_walk_where_it_is_told() {
    let mut t: Tree<usize> = Tree::new();
    t.add(50, 0);
    t.add(70, 0);
    // from node 1 (70) the value 50 is lesser: it goes right of 70, though node 0 holds it
    let slot = t.add(50, 1);
    assert_eq!(*slot, 50);
    assert_eq!(t.len(), 3);
    assert_eq!(links(t.at(Some(2)).unwrap()), (2, None, None, Some(1)));
    assert_eq!(t.at(Some(1)).unwrap().right_idx, Some(2));
}

#[test]
fn add_in_order_makes_a_chain() {
    let mut t: Tree<usize> = Tree::new();
    for v in 0..20usize {
        t.add(v, 0);
    }
    assert_eq!(t.len(), 20);
    for i in 0..20usize {
        let node = t.at(Some(i)).unwrap();
        assert_eq!(node.val, i);
        assert_eq!(node.right_idx, None);
        assert_eq!(node.left_idx, if i < 19 { Some(i + 1) } else { None });
        assert_eq!(node.parent_idx, if i > 0 { Some(i - 1) } else { None });
    }
}

#[test]
fn add_after_a_bulk_load_keeps_the_parents_right() {
    let mut t: Tree<usize> = Tree::new();
    t.populate_from_sorted(None, &[10, 20, 30, 40, 50]);
    for v in [5usize, 25, 35, 60, 20, 45] {
        t.add(v, 0);
    }
    let n = t.len();
    for i in 0..n {
        let node = t.at(Some(i)).unwrap();
        match node.parent_idx {
            None => assert_eq!(i, 0),
            Some(p) => {
                let above = t.at(Some(p)).unwrap();
                assert!(above.left_idx == Some(i) || above.right_idx == Some(i));
            }
        }
    }
}
