//! The node/color model of the red-black tree, the mathematical view of a
//! tree (its key set, in-order sequence, size and black-height), and the
//! read-only walks: the invariant checker and the pre-order dump.

use vstd::prelude::*;
use vstd::arithmetic::power2::{pow2, lemma2_to64, lemma_pow2_strictly_increases, lemma_pow2_unfold};

verus! {

/// The color of a node.
#[derive(Clone, Copy, PartialEq, Eq, Structural, Debug)]
pub enum Color {
    Red,
    Black,
}

/// A node: key, color, and exclusively owned children. There are no
/// parent back-references; every upward repair step happens on the way
/// back out of the recursion instead.
pub struct Node {
    pub key: i32,
    pub color: Color,
    pub left: Tree,
    pub right: Tree,
}

/// A tree is empty or a root node that owns the rest.
pub enum Tree {
    Leaf,
    Node(Box<Node>),
}

impl Node {
    /// A fresh unlinked node: the given key and color, no children.
    pub fn new(key: i32, color: Color) -> (n: Node)
        ensures
            n.key == key,
            n.color == color,
            n.left == Tree::Leaf,
            n.right == Tree::Leaf,
    {
        Node { key, color, left: Tree::Leaf, right: Tree::Leaf }
    }
}

/// The set of keys stored in the tree.
pub open spec fn keys(t: Tree) -> Set<i32>
    decreases t,
{
    match t {
        Tree::Leaf => Set::empty(),
        Tree::Node(n) => keys(n.left).union(keys(n.right)).insert(n.key),
    }
}

/// The number of nodes.
pub open spec fn size(t: Tree) -> nat
    decreases t,
{
    match t {
        Tree::Leaf => 0,
        Tree::Node(n) => size(n.left) + size(n.right) + 1,
    }
}

/// Every key of the tree lies strictly below the bound.
pub open spec fn keys_below(t: Tree, b: i32) -> bool {
    forall|k: i32| keys(t).contains(k) ==> k < b
}

/// Every key of the tree lies strictly above the bound.
pub open spec fn keys_above(t: Tree, b: i32) -> bool {
    forall|k: i32| keys(t).contains(k) ==> k > b
}

/// Binary-search-tree order: every key in a left subtree is below the
/// node's key, every key in a right subtree above it.
pub open spec fn bst(t: Tree) -> bool
    decreases t,
{
    match t {
        Tree::Leaf => true,
        Tree::Node(n) => bst(n.left) && bst(n.right)
            && keys_below(n.left, n.key) && keys_above(n.right, n.key),
    }
}

/// Whether the root exists and is red.
pub open spec fn is_red(t: Tree) -> bool {
    match t {
        Tree::Leaf => false,
        Tree::Node(n) => n.color == Color::Red,
    }
}

/// No red node has a red child.
pub open spec fn no_red_red(t: Tree) -> bool
    decreases t,
{
    match t {
        Tree::Leaf => true,
        Tree::Node(n) => (n.color == Color::Red ==> !is_red(n.left) && !is_red(n.right))
            && no_red_red(n.left) && no_red_red(n.right),
    }
}

/// The relaxed coloring that holds mid-repair: both subtrees are properly
/// colored, but a red root may still have one red child.
pub open spec fn almost_no_red_red(t: Tree) -> bool {
    match t {
        Tree::Leaf => true,
        Tree::Node(n) => if n.color == Color::Red {
            no_red_red(n.left) && no_red_red(n.right) && !(is_red(n.left) && is_red(n.right))
        } else {
            no_red_red(t)
        },
    }
}

/// The number of red nodes in the whole tree.
pub open spec fn red_count(t: Tree) -> nat
    decreases t,
{
    match t {
        Tree::Leaf => 0,
        Tree::Node(n) => red_count(n.left) + red_count(n.right)
            + (if n.color == Color::Red { 1nat } else { 0nat }),
    }
}

/// The number of black nodes on any path from the root down to a leaf
/// position, the root itself included, a leaf position excluded.
pub open spec fn black_height(t: Tree) -> nat
    decreases t,
{
    match t {
        Tree::Leaf => 0,
        Tree::Node(n) => black_height(n.left) + (if n.color == Color::Black { 1nat } else { 0nat }),
    }
}

/// Every path from a node to a descendant leaf position passes through
/// the same number of black nodes.
pub open spec fn balanced(t: Tree) -> bool
    decreases t,
{
    match t {
        Tree::Leaf => true,
        Tree::Node(n) => balanced(n.left) && balanced(n.right)
            && black_height(n.left) == black_height(n.right),
    }
}

/// All four red-black invariants: BST order, black root, no red-red
/// edge, and equal black count on every root-to-leaf path.
pub open spec fn rb_valid(t: Tree) -> bool {
    bst(t) && !is_red(t) && no_red_red(t) && balanced(t)
}

/// The in-order key sequence.
pub open spec fn inorder(t: Tree) -> Seq<i32>
    decreases t,
{
    match t {
        Tree::Leaf => Seq::empty(),
        Tree::Node(n) => inorder(n.left) + seq![n.key] + inorder(n.right),
    }
}

/// Strictly increasing.
pub open spec fn sorted_strict(s: Seq<i32>) -> bool {
    forall|i: int, j: int| 0 <= i < j < s.len() ==> s[i] < s[j]
}

/// Recolor the root black; the empty tree is unchanged.
pub fn blacken(t: Tree) -> (res: Tree)
    ensures
        keys(res) == keys(t),
        size(res) == size(t),
        inorder(res) == inorder(t),
        bst(t) ==> bst(res),
        balanced(t) ==> balanced(res),
        almost_no_red_red(t) ==> no_red_red(res),
        no_red_red(t) ==> no_red_red(res),
        !is_red(res),
        black_height(res) == black_height(t) + (if is_red(t) { 1nat } else { 0nat }),
{
    match t {
        Tree::Leaf => Tree::Leaf,
        Tree::Node(mut n) => {
            n.color = Color::Black;
            Tree::Node(n)
        }
    }
}

/// Whether the tree is empty, decided in executable code.
pub fn is_leaf(t: &Tree) -> (b: bool)
    ensures
        b == (*t is Leaf),
{
    match t {
        Tree::Leaf => true,
        Tree::Node(_) => false,
    }
}

/// Whether the root is red, decided in executable code.
pub fn is_red_node(t: &Tree) -> (b: bool)
    ensures
        b == is_red(*t),
{
    match t {
        Tree::Leaf => false,
        Tree::Node(n) => n.color == Color::Red,
    }
}

/// Whether `key` occurs in the tree.
pub fn contains(t: &Tree, key: i32) -> (b: bool)
    requires
        bst(*t),
    ensures
        b == keys(*t).contains(key),
    decreases *t,
{
    match t {
        Tree::Leaf => false,
        Tree::Node(n) => {
            if key == n.key {
                true
            } else if key < n.key {
                proof {
                    assert(!keys(n.right).contains(key));
                }
                contains(&n.left, key)
            } else {
                proof {
                    assert(!keys(n.left).contains(key));
                }
                contains(&n.right, key)
            }
        }
    }
}

/// The key of the rightmost node: the maximum key of a non-empty subtree.
pub fn find_first_right_none(t: &Tree) -> (m: i32)
    requires
        t is Node,
        bst(*t),
    ensures
        keys(*t).contains(m),
        forall|k: i32| keys(*t).contains(k) ==> k <= m,
    decreases *t,
{
    match t {
        Tree::Leaf => {
            proof { assert(false); }
            0
        }
        Tree::Node(n) => {
            match &n.right {
                Tree::Leaf => {
                    proof {
                        assert(keys(n.right) == Set::<i32>::empty());
                        assert forall|k: i32| keys(*t).contains(k) implies k <= n.key by {
                            if keys(n.left).contains(k) {
                            }
                            assert(!keys(n.right).contains(k));
                        }
                    }
                    n.key
                }
                Tree::Node(_) => {
                    let m = find_first_right_none(&n.right);
                    proof {
                        assert(keys(n.right).contains(m));
                        assert forall|k: i32| keys(*t).contains(k) implies k <= m by {
                            if keys(n.left).contains(k) {
                                assert(k < n.key);
                            }
                            if keys(n.right).contains(k) {
                                assert(k <= m);
                            }
                            assert(n.key < m);
                        }
                    }
                    m
                }
            }
        }
    }
}

/// The key of the leftmost node: the minimum key of a non-empty subtree.
pub fn find_first_left_none(t: &Tree) -> (m: i32)
    requires
        t is Node,
        bst(*t),
    ensures
        keys(*t).contains(m),
        forall|k: i32| keys(*t).contains(k) ==> k >= m,
    decreases *t,
{
    match t {
        Tree::Leaf => {
            proof { assert(false); }
            0
        }
        Tree::Node(n) => {
            match &n.left {
                Tree::Leaf => {
                    proof {
                        assert(keys(n.left) == Set::<i32>::empty());
                        assert forall|k: i32| keys(*t).contains(k) implies k >= n.key by {
                            if keys(n.right).contains(k) {
                            }
                            assert(!keys(n.left).contains(k));
                        }
                    }
                    n.key
                }
                Tree::Node(_) => {
                    let m = find_first_left_none(&n.left);
                    proof {
                        assert(keys(n.left).contains(m));
                        assert forall|k: i32| keys(*t).contains(k) implies k >= m by {
                            if keys(n.right).contains(k) {
                                assert(k > n.key);
                            }
                            if keys(n.left).contains(k) {
                                assert(k >= m);
                            }
                            assert(n.key > m);
                        }
                    }
                    m
                }
            }
        }
    }
}

/// One entry per node of the diagnostic pre-order dump: the node's key
/// and color, and the parent's key (absent at the root).
pub open spec fn preorder_spec(t: Tree, parent: Option<i32>) -> Seq<(i32, Color, Option<i32>)>
    decreases t,
{
    match t {
        Tree::Leaf => Seq::empty(),
        Tree::Node(n) => seq![(n.key, n.color, parent)]
            + preorder_spec(n.left, Some(n.key))
            + preorder_spec(n.right, Some(n.key)),
    }
}

fn preorder_into(t: &Tree, parent: Option<i32>, v: &mut Vec<(i32, Color, Option<i32>)>)
    ensures
        final(v)@ == old(v)@ + preorder_spec(*t, parent),
    decreases *t,
{
    match t {
        Tree::Leaf => {
            proof {
                assert(v@ =~= old(v)@ + preorder_spec(*t, parent));
            }
        }
        Tree::Node(n) => {
            v.push((n.key, n.color, parent));
            preorder_into(&n.left, Some(n.key), v);
            preorder_into(&n.right, Some(n.key), v);
            proof {
                assert(v@ =~= old(v)@ + preorder_spec(*t, parent));
            }
        }
    }
}

/// The diagnostic pre-order dump: each node's key and color paired with
/// its parent's key, in pre-order.
pub fn traverse_preorder(t: &Tree) -> (v: Vec<(i32, Color, Option<i32>)>)
    ensures
        v@ == preorder_spec(*t, None::<i32>),
{
    let mut v = Vec::new();
    preorder_into(t, None, &mut v);
    v
}

fn inorder_into(t: &Tree, v: &mut Vec<i32>)
    ensures
        final(v)@ == old(v)@ + inorder(*t),
    decreases *t,
{
    match t {
        Tree::Leaf => {
            proof {
                assert(v@ =~= old(v)@ + inorder(*t));
            }
        }
        Tree::Node(n) => {
            inorder_into(&n.left, v);
            v.push(n.key);
            inorder_into(&n.right, v);
            proof {
                assert(v@ =~= old(v)@ + inorder(*t));
            }
        }
    }
}

/// The in-order key sequence, computed into a vector.
pub fn inorder_keys(t: &Tree) -> (v: Vec<i32>)
    ensures
        v@ == inorder(*t),
{
    let mut v = Vec::new();
    inorder_into(t, &mut v);
    v
}

/// A tree whose coloring is balanced holds at least `2^bh - 1` nodes, so
/// a tree that fits in memory has a small black-height.
pub proof fn lemma_size_lower_bound(t: Tree)
    requires
        balanced(t),
    ensures
        size(t) + 1 >= pow2(black_height(t)),
    decreases t,
{
    match t {
        Tree::Leaf => {
            assert(pow2(0) == 1) by {
                lemma2_to64();
            }
        }
        Tree::Node(n) => {
            lemma_size_lower_bound(n.left);
            lemma_size_lower_bound(n.right);
            let bl = black_height(n.left);
            lemma_pow2_unfold(bl + 1);
            assert(size(t) + 1 >= pow2((bl + 1) as nat));
            if n.color == Color::Red {
                lemma_pow2_strictly_increases(bl, (bl + 1) as nat);
            }
        }
    }
}

/// Black-height is at most 63 for any tree that fits in memory.
pub proof fn lemma_black_height_small(t: Tree)
    requires
        balanced(t),
        size(t) < usize::MAX,
    ensures
        black_height(t) < 64,
{
    lemma_size_lower_bound(t);
    lemma2_to64();
    if black_height(t) >= 64 {
        if black_height(t) > 64 {
            lemma_pow2_strictly_increases(64, black_height(t));
        }
        assert(pow2(black_height(t)) >= 0x10000000000000000);
        assert(false);
    }
}

/// The recursive half of the checker: verifies the no-red-red and equal
/// black-height invariants bottom-up, returning the black-height of the
/// subtree or `-1` on any violation.
fn check_colors(t: &Tree) -> (r: i32)
    requires
        size(*t) < usize::MAX,
    ensures
        r >= 0 <==> no_red_red(*t) && balanced(*t),
        r >= 0 ==> r == black_height(*t),
        r >= -1,
    decreases *t,
{
    match t {
        Tree::Leaf => 0,
        Tree::Node(n) => {
            let leftroute = check_colors(&n.left);
            if leftroute == -1 {
                return -1;
            }
            let rightroute = check_colors(&n.right);
            if rightroute == -1 {
                return -1;
            }
            if n.color == Color::Red && (is_red_node(&n.left) || is_red_node(&n.right)) {
                return -1;
            }
            if leftroute != rightroute {
                return -1;
            }
            proof {
                lemma_black_height_small(n.left);
            }
            leftroute + (if n.color == Color::Black { 1 } else { 0 })
        }
    }
}

/// The independent validator: returns the black-height of the tree, or
/// `-1` if a coloring invariant (black root, no red-red edge, equal
/// black-heights) is violated. BST order is the mutators' obligation and
/// is not re-checked here. The size bound only restates what memory
/// already forces; it keeps the computed height inside `i32`.
pub fn check_red_black_tree(t: &Tree) -> (r: i32)
    requires
        size(*t) < usize::MAX,
    ensures
        r >= 0 <==> !is_red(*t) && no_red_red(*t) && balanced(*t),
        r >= 0 ==> r == black_height(*t),
        r >= -1,
{
    if is_red_node(t) {
        -1
    } else {
        check_colors(t)
    }
}

/// True iff the red-black coloring invariants hold of the tree.
pub fn validate(t: &Tree) -> (b: bool)
    requires
        size(*t) < usize::MAX,
    ensures
        b == (!is_red(*t) && no_red_red(*t) && balanced(*t)),
{
    check_red_black_tree(t) >= 0
}

} // verus!
