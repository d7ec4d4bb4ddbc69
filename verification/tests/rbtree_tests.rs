use rbtree::delete::{delete, Policy};
use rbtree::insert::{insert, insert_norm_bst};
use rbtree::tree::{
    check_red_black_tree, contains, find_first_left_none, find_first_right_none, inorder_keys,
    is_leaf, traverse_preorder, validate, Color, Node, Tree,
};

fn build(keys: &[i32]) -> Tree {
    let mut t = Tree::Leaf;
    for &k in keys {
        t = insert(t, k);
        assert!(validate(&t));
    }
    t
}

fn root_entry(t: &Tree) -> (i32, Color) {
    match t {
        Tree::Leaf => panic!("empty tree has no root"),
        Tree::Node(n) => (n.key, n.color),
    }
}

fn sorted(mut v: Vec<i32>) -> Vec<i32> {
    v.sort();
    v
}

#[test]
fn node_new_is_bare() {
    let n = Node::new(7, Color::Red);
    assert_eq!(n.key, 7);
    assert!(n.color == Color::Red);
    assert!(matches!(n.left, Tree::Leaf));
    assert!(matches!(n.right, Tree::Leaf));
}

#[test]
fn empty_tree_is_valid_with_height_zero() {
    let t = Tree::Leaf;
    assert_eq!(check_red_black_tree(&t), 0);
    assert!(validate(&t));
    assert!(is_leaf(&t));
}

#[test]
fn single_insert_gives_black_root() {
    let t = insert(Tree::Leaf, 41);
    assert_eq!(check_red_black_tree(&t), 1);
    let (k, c) = root_entry(&t);
    assert_eq!(k, 41);
    assert!(c == Color::Black);
}

#[test]
fn checker_rejects_red_root() {
    let t = Tree::Node(Box::new(Node::new(1, Color::Red)));
    assert_eq!(check_red_black_tree(&t), -1);
    assert!(!validate(&t));
}

#[test]
fn checker_rejects_red_red_edge() {
    let child = Tree::Node(Box::new(Node::new(1, Color::Red)));
    let t = Tree::Node(Box::new(Node {
        key: 2,
        color: Color::Red,
        left: child,
        right: Tree::Leaf,
    }));
    // red root with a red child: both invariants broken
    assert_eq!(check_red_black_tree(&t), -1);
    let inner = Tree::Node(Box::new(Node {
        key: 3,
        color: Color::Red,
        left: Tree::Node(Box::new(Node::new(2, Color::Red))),
        right: Tree::Leaf,
    }));
    let t2 = Tree::Node(Box::new(Node {
        key: 5,
        color: Color::Black,
        left: inner,
        right: Tree::Node(Box::new(Node::new(8, Color::Red))),
    }));
    assert_eq!(check_red_black_tree(&t2), -1);
}

#[test]
fn checker_rejects_unequal_black_heights() {
    let left = Tree::Node(Box::new(Node::new(1, Color::Black)));
    let t = Tree::Node(Box::new(Node {
        key: 2,
        color: Color::Black,
        left,
        right: Tree::Leaf,
    }));
    assert_eq!(check_red_black_tree(&t), -1);
    assert!(!validate(&t));
}

#[test]
fn contains_finds_only_inserted_keys() {
    let t = build(&[8, 3, 10, 1, 6]);
    for k in [8, 3, 10, 1, 6] {
        assert!(contains(&t, k));
    }
    for k in [0, 2, 7, 11, -5] {
        assert!(!contains(&t, k));
    }
}

#[test]
fn insert_norm_bst_links_red_node_in_order() {
    let mut t = Tree::Leaf;
    for k in [5, 2, 8, 6] {
        t = insert_norm_bst(t, k);
    }
    assert_eq!(inorder_keys(&t), vec![2, 5, 6, 8]);
    // the freshly linked node is red, at its BST position
    match &t {
        Tree::Node(n) => match &n.right {
            Tree::Node(r) => match &r.left {
                Tree::Node(rl) => {
                    assert_eq!(rl.key, 6);
                    assert!(rl.color == Color::Red);
                }
                Tree::Leaf => panic!("expected a node holding 6"),
            },
            Tree::Leaf => panic!("expected a node holding 8"),
        },
        Tree::Leaf => panic!("expected a node holding 5"),
    }
    // a duplicate key is silently ignored
    let t = insert_norm_bst(t, 8);
    assert_eq!(inorder_keys(&t), vec![2, 5, 6, 8]);
}

#[test]
fn find_extremes() {
    let t = build(&[17, 4, 29, 1, 12, 23, 40]);
    assert_eq!(find_first_right_none(&t), 40);
    assert_eq!(find_first_left_none(&t), 1);
}

#[test]
fn traverse_preorder_reports_keys_colors_parents() {
    // 20 black at the root, red children 10 and 30
    let t = build(&[20, 10, 30]);
    let dump = traverse_preorder(&t);
    assert_eq!(dump.len(), 3);
    assert_eq!(dump[0], (20, Color::Black, None));
    assert_eq!(dump[1], (10, Color::Red, Some(20)));
    assert_eq!(dump[2], (30, Color::Red, Some(20)));
}

#[test]
fn inorder_is_sorted_after_every_operation() {
    let keys = [50, 30, 55, 60, 62, 53, 35, 37, 31, 25, 10, 20, 23, 15, 13, 99, 1092];
    let mut t = Tree::Leaf;
    for &k in &keys {
        t = insert(t, k);
        assert!(validate(&t));
        let v = inorder_keys(&t);
        assert!(v.windows(2).all(|w| w[0] < w[1]));
    }
    for &k in &keys {
        let (t2, removed) = delete(t, k, Policy::Predecessor);
        t = t2;
        assert!(removed);
        assert!(validate(&t));
        let v = inorder_keys(&t);
        assert!(v.windows(2).all(|w| w[0] < w[1]));
    }
    assert!(is_leaf(&t));
}

#[test]
fn size_changes_by_one_per_effective_operation() {
    let mut t = Tree::Leaf;
    t = insert(t, 5);
    assert_eq!(inorder_keys(&t).len(), 1);
    t = insert(t, 9);
    assert_eq!(inorder_keys(&t).len(), 2);
    // a duplicate insert leaves the node count unchanged
    t = insert(t, 9);
    assert_eq!(inorder_keys(&t).len(), 2);
    let (t, removed) = delete(t, 5, Policy::Successor);
    assert!(removed);
    assert_eq!(inorder_keys(&t).len(), 1);
}

#[test]
fn duplicate_insert_is_a_noop() {
    let t = build(&[7, 3, 11]);
    let before = inorder_keys(&t);
    let t = insert(t, 7);
    assert!(validate(&t));
    assert_eq!(inorder_keys(&t), before);
}

#[test]
fn round_trip_restores_inorder_walk() {
    let t = build(&[40, 20, 60, 10, 30, 50, 70]);
    let before = inorder_keys(&t);
    let t = insert(t, 45);
    assert!(validate(&t));
    let (t, removed) = delete(t, 45, Policy::Predecessor);
    assert!(removed);
    assert!(validate(&t));
    assert_eq!(inorder_keys(&t), before);
}

#[test]
fn both_policies_agree_on_keys_and_validity() {
    let keys = [40, 20, 60, 10, 30, 50, 70, 5, 15, 25, 35];
    let t1 = build(&keys);
    let t2 = build(&keys);
    // 20 has two children
    let (t1, r1) = delete(t1, 20, Policy::Predecessor);
    let (t2, r2) = delete(t2, 20, Policy::Successor);
    assert!(r1 && r2);
    assert!(validate(&t1));
    assert!(validate(&t2));
    assert_eq!(inorder_keys(&t1), inorder_keys(&t2));
    assert_eq!(inorder_keys(&t1), sorted(keys.iter().copied().filter(|&k| k != 20).collect()));
}

#[test]
fn insert_scenario_recolors_and_rotates() {
    // drives one red-uncle recolor (inserting 60), one rotation with a
    // synthesized black uncle (inserting 62), and one more recolor
    // (inserting 53), validating at every step
    let keys = [50, 30, 55, 60, 62, 53, 35];
    let mut t = Tree::Leaf;
    for &k in &keys {
        t = insert(t, k);
        assert!(validate(&t));
    }
    assert_eq!(inorder_keys(&t), sorted(keys.to_vec()));
    let (k, c) = root_entry(&t);
    assert_eq!(k, 50);
    assert!(c == Color::Black);
}

#[test]
fn delete_root_of_perfect_seven_node_tree() {
    // these insertions build the perfectly shaped 7-node tree:
    // 40 black over 20 and 60 black, each over two red leaves
    let keys = [40, 20, 60, 10, 30, 50, 70];
    let t = build(&keys);
    let dump = traverse_preorder(&t);
    assert_eq!(
        dump,
        vec![
            (40, Color::Black, None),
            (20, Color::Black, Some(40)),
            (10, Color::Red, Some(20)),
            (30, Color::Red, Some(20)),
            (60, Color::Black, Some(40)),
            (50, Color::Red, Some(60)),
            (70, Color::Red, Some(60)),
        ]
    );
    // two black nodes on every path: the root and one inner level
    assert_eq!(check_red_black_tree(&t), 2);
    let (k, _) = root_entry(&t);
    let (t, removed) = delete(t, k, Policy::Predecessor);
    assert!(removed);
    assert!(validate(&t));
    assert_eq!(inorder_keys(&t), vec![10, 20, 30, 50, 60, 70]);
}

#[test]
fn delete_missing_key_reports_failure_and_keeps_tree() {
    let t = build(&[12, 6, 18]);
    let before = inorder_keys(&t);
    let (t, removed) = delete(t, 7, Policy::Successor);
    assert!(!removed);
    assert_eq!(inorder_keys(&t), before);
    assert!(validate(&t));
}

#[test]
fn delete_from_single_node_tree() {
    let t = build(&[9]);
    let (t, removed) = delete(t, 9, Policy::Predecessor);
    assert!(removed);
    assert!(is_leaf(&t));
    assert!(validate(&t));
}

#[test]
fn extreme_keys_are_ordinary_keys() {
    let t = build(&[0, i32::MAX, i32::MIN, 1, -1]);
    assert_eq!(inorder_keys(&t), vec![i32::MIN, -1, 0, 1, i32::MAX]);
    assert_eq!(find_first_right_none(&t), i32::MAX);
    assert_eq!(find_first_left_none(&t), i32::MIN);
    let (t, removed) = delete(t, i32::MAX, Policy::Predecessor);
    assert!(removed);
    assert!(validate(&t));
    let (t, removed) = delete(t, i32::MIN, Policy::Successor);
    assert!(removed);
    assert!(validate(&t));
    assert_eq!(inorder_keys(&t), vec![-1, 0, 1]);
}

#[test]
fn interleaved_inserts_and_deletes_stay_valid() {
    let mut t = Tree::Leaf;
    for &k in &[15, 7, 30, 2, 11, 22, 44, 9, 13, 1] {
        t = insert(t, k);
        assert!(validate(&t));
    }
    for (i, &k) in [7, 30, 15, 2, 44].iter().enumerate() {
        let policy = if i % 2 == 0 { Policy::Predecessor } else { Policy::Successor };
        let (t2, removed) = delete(t, k, policy);
        t = t2;
        assert!(removed);
        assert!(validate(&t));
        assert!(!contains(&t, k));
    }
    assert_eq!(inorder_keys(&t), vec![1, 9, 11, 13, 22]);
}
