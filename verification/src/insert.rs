//! Insertion: the raw BST mutator and the red-black repair.
//!
//! The repair is the classical insertion-fixup state machine, run on the
//! way back out of the recursive descent: a freshly inserted node is red,
//! so at most one red-red edge exists, always at the top of the subtree
//! just rebuilt. Each black node on the path back up plays the
//! grandparent: a red uncle means recolor and hand the violation further
//! up, a black uncle means one terminal rotation (with a preliminary
//! inner-to-outer rotation when the violating grandchild is inner).

use vstd::prelude::*;
use crate::tree::{
    Color, Node, Tree, almost_no_red_red, balanced, black_height, blacken, bst, contains,
    is_red, is_red_node, keys, keys_above, keys_below, no_red_red, rb_valid, red_count, size,
};

verus! {

/// The raw BST mutator: descends by comparison and links a fresh red
/// node at the absent child position found; a duplicate key is silently
/// ignored. No color or rotation logic lives here: the one node that
/// appears is red, every other node keeps its color and place.
pub fn insert_norm_bst(t: Tree, item: i32) -> (res: Tree)
    requires
        bst(t),
    ensures
        bst(res),
        keys(res) == keys(t).insert(item),
        size(res) == size(t) + (if keys(t).contains(item) { 0nat } else { 1nat }),
        red_count(res) == red_count(t) + (if keys(t).contains(item) { 0nat } else { 1nat }),
        keys(t).contains(item) ==> res == t,
    decreases t,
{
    match t {
        Tree::Leaf => {
            proof {
                assert(keys(t).insert(item) =~= Set::empty().insert(item));
                assert(keys(Tree::Node(Box::new(Node { key: item, color: Color::Red, left: Tree::Leaf, right: Tree::Leaf }))) =~= Set::empty().insert(item));
            }
            Tree::Node(Box::new(Node::new(item, Color::Red)))
        }
        Tree::Node(n) => {
            let Node { key, color, left, right } = *n;
            if item < key {
                let new_left = insert_norm_bst(left, item);
                proof {
                    assert(!keys(right).contains(item));
                    assert(keys(Tree::Node(Box::new(Node { key, color, left: new_left, right }))) =~= keys(t).insert(item));
                    assert forall|k: i32| keys(new_left).contains(k) implies k < key by {
                        if keys(left).contains(k) {
                        }
                    }
                }
                Tree::Node(Box::new(Node { key, color, left: new_left, right }))
            } else if item > key {
                let new_right = insert_norm_bst(right, item);
                proof {
                    assert(!keys(left).contains(item));
                    assert(keys(Tree::Node(Box::new(Node { key, color, left, right: new_right }))) =~= keys(t).insert(item));
                    assert forall|k: i32| keys(new_right).contains(k) implies k > key by {
                        if keys(right).contains(k) {
                        }
                    }
                }
                Tree::Node(Box::new(Node { key, color, left, right: new_right }))
            } else {
                proof {
                    assert(keys(t).contains(item));
                    assert(keys(t).insert(item) =~= keys(t));
                }
                Tree::Node(Box::new(Node { key, color, left, right }))
            }
        }
    }
}

/// The grandparent step of the insertion fixup, for a black node whose
/// left subtree was just rebuilt and may carry a red-red edge at its top;
/// the right subtree is the uncle. Resolves the violation (or rebuilds
/// unchanged) and returns a properly colored subtree of black-height
/// one above the children's.
fn insert_fixup_left(l: Tree, key: i32, r: Tree) -> (res: Tree)
    requires
        bst(l),
        bst(r),
        keys_below(l, key),
        keys_above(r, key),
        almost_no_red_red(l),
        no_red_red(r),
        balanced(l),
        balanced(r),
        black_height(l) == black_height(r),
    ensures
        bst(res),
        keys(res) == keys(l).union(keys(r)).insert(key),
        size(res) == size(l) + size(r) + 1,
        no_red_red(res),
        balanced(res),
        black_height(res) == black_height(l) + 1,
{
    let ghost goal = keys(l).union(keys(r)).insert(key);
    match l {
        Tree::Leaf => {
            let res = Tree::Node(Box::new(Node { key, color: Color::Black, left: Tree::Leaf, right: r }));
            proof {
                assert(keys(res) == keys(Tree::Leaf).union(keys(r)).insert(key));
            }
            res
        }
        Tree::Node(ln) => {
            let Node { key: lk, color: lc, left: ll, right: lr } = *ln;
            proof {
                assert(keys(l) == keys(ll).union(keys(lr)).insert(lk));
                assert(keys(l).contains(lk));
                assert(lk < key);
            }
            if lc == Color::Red && (is_red_node(&ll) || is_red_node(&lr)) {
                if is_red_node(&r) {
                    // red uncle: recolor parent and uncle black, this
                    // node red, and let the level above continue
                    let new_l = Tree::Node(Box::new(Node { key: lk, color: Color::Black, left: ll, right: lr }));
                    let new_r = blacken(r);
                    let res = Tree::Node(Box::new(Node { key, color: Color::Red, left: new_l, right: new_r }));
                    proof {
                        assert(keys(new_l) == keys(l));
                        assert(keys(res) == keys(new_l).union(keys(new_r)).insert(key));
                        assert(keys(res) =~= goal);
                        assert(bst(new_l));
                        assert(bst(res));
                        assert(no_red_red(new_l));
                        assert(no_red_red(res));
                        assert(black_height(new_l) == black_height(l) + 1);
                        assert(balanced(new_l));
                        assert(size(new_l) == size(l));
                        assert(balanced(res));
                        assert(black_height(res) == black_height(l) + 1);
                        assert(size(res) == size(l) + size(r) + 1);
                    }
                    res
                } else if is_red_node(&ll) {
                    // outer grandchild: one rotation at this node, the
                    // parent recolored black and this node red
                    let new_r = Tree::Node(Box::new(Node { key, color: Color::Red, left: lr, right: r }));
                    proof {
                        assert(keys(new_r) == keys(lr).union(keys(r)).insert(key));
                        assert forall|k: i32| keys(new_r).contains(k) implies k > lk by {
                            if keys(lr).contains(k) {
                            }
                            if keys(r).contains(k) {
                            }
                        }
                        assert forall|k: i32| keys(lr).contains(k) implies k < key by {
                            assert(keys(l).contains(k));
                        }
                        assert(bst(new_r));
                        assert(no_red_red(new_r));
                        assert(black_height(lr) == black_height(r));
                        assert(balanced(new_r));
                        assert(black_height(new_r) == black_height(lr));
                        assert(size(new_r) == size(lr) + size(r) + 1);
                    }
                    let res = Tree::Node(Box::new(Node { key: lk, color: Color::Black, left: ll, right: new_r }));
                    proof {
                        assert(keys(res) == keys(ll).union(keys(new_r)).insert(lk));
                        assert(keys(res) =~= goal);
                        assert(bst(res));
                        assert(no_red_red(res));
                        assert(balanced(res));
                        assert(black_height(res) == black_height(l) + 1);
                        assert(size(res) == size(l) + size(r) + 1);
                    }
                    res
                } else {
                    // inner grandchild: rotate it up first, then resolve
                    // as in the outer shape
                    match lr {
                        Tree::Leaf => {
                            proof {
                                assert(false);
                            }
                            Tree::Leaf
                        }
                        Tree::Node(lrn) => {
                            let Node { key: lrk, color: _, left: lrl, right: lrr } = *lrn;
                            proof {
                                assert(keys(lr) == keys(lrl).union(keys(lrr)).insert(lrk));
                                assert(keys(lr).contains(lrk));
                                assert(keys(l).contains(lrk));
                                assert(lk < lrk && lrk < key);
                                assert(bst(lr));
                                assert(no_red_red(lr));
                                assert(balanced(lr));
                                assert(black_height(lr) == black_height(lrl));
                                assert(black_height(lrl) == black_height(lrr));
                                assert(size(lr) == size(lrl) + size(lrr) + 1);
                                assert(!is_red(lrl) && !is_red(lrr));
                            }
                            let new_l = Tree::Node(Box::new(Node { key: lk, color: Color::Red, left: ll, right: lrl }));
                            let new_r = Tree::Node(Box::new(Node { key, color: Color::Red, left: lrr, right: r }));
                            proof {
                                assert(keys(new_l) == keys(ll).union(keys(lrl)).insert(lk));
                                assert(keys(new_r) == keys(lrr).union(keys(r)).insert(key));
                                assert forall|k: i32| keys(lrl).contains(k) implies lk < k < lrk by {
                                    assert(keys(lr).contains(k));
                                }
                                assert forall|k: i32| keys(lrr).contains(k) implies lrk < k < key by {
                                    assert(keys(lr).contains(k));
                                    assert(keys(l).contains(k));
                                }
                                assert(bst(new_l));
                                assert(bst(new_r));
                                assert forall|k: i32| keys(new_l).contains(k) implies k < lrk by {
                                    if keys(ll).contains(k) {
                                    }
                                }
                                assert forall|k: i32| keys(new_r).contains(k) implies k > lrk by {
                                    if keys(r).contains(k) {
                                    }
                                }
                                assert(no_red_red(new_l));
                                assert(no_red_red(new_r));
                                assert(balanced(new_l));
                                assert(balanced(new_r));
                                assert(black_height(new_l) == black_height(l));
                                assert(black_height(new_r) == black_height(l));
                                assert(size(new_l) == size(ll) + size(lrl) + 1);
                                assert(size(new_r) == size(lrr) + size(r) + 1);
                            }
                            let res = Tree::Node(Box::new(Node { key: lrk, color: Color::Black, left: new_l, right: new_r }));
                            proof {
                                assert(keys(res) == keys(new_l).union(keys(new_r)).insert(lrk));
                                assert(keys(res) =~= goal);
                                assert(bst(res));
                                assert(no_red_red(res));
                                assert(balanced(res));
                                assert(black_height(res) == black_height(l) + 1);
                                assert(size(res) == size(l) + size(r) + 1);
                            }
                            res
                        }
                    }
                }
            } else {
                // no violation below: rebuild unchanged under the black
                // root
                let new_l = Tree::Node(Box::new(Node { key: lk, color: lc, left: ll, right: lr }));
                let res = Tree::Node(Box::new(Node { key, color: Color::Black, left: new_l, right: r }));
                proof {
                    assert(keys(new_l) == keys(l));
                    assert(keys(res) == keys(new_l).union(keys(r)).insert(key));
                    assert(keys(res) =~= goal);
                    assert(bst(new_l));
                    assert(no_red_red(new_l));
                    assert(balanced(new_l));
                    assert(black_height(new_l) == black_height(l));
                    assert(size(new_l) == size(l));
                    assert(bst(res));
                    assert(no_red_red(res));
                    assert(balanced(res));
                    assert(black_height(res) == black_height(l) + 1);
                    assert(size(res) == size(l) + size(r) + 1);
                }
                res
            }
        }
    }
}

/// Mirror of `insert_fixup_left`: the rebuilt subtree is on the right,
/// the uncle on the left.
fn insert_fixup_right(l: Tree, key: i32, r: Tree) -> (res: Tree)
    requires
        bst(l),
        bst(r),
        keys_below(l, key),
        keys_above(r, key),
        no_red_red(l),
        almost_no_red_red(r),
        balanced(l),
        balanced(r),
        black_height(l) == black_height(r),
    ensures
        bst(res),
        keys(res) == keys(l).union(keys(r)).insert(key),
        size(res) == size(l) + size(r) + 1,
        no_red_red(res),
        balanced(res),
        black_height(res) == black_height(l) + 1,
{
    let ghost goal = keys(l).union(keys(r)).insert(key);
    match r {
        Tree::Leaf => {
            let res = Tree::Node(Box::new(Node { key, color: Color::Black, left: l, right: Tree::Leaf }));
            proof {
                assert(keys(res) == keys(l).union(keys(Tree::Leaf)).insert(key));
                assert(keys(res) =~= goal);
            }
            res
        }
        Tree::Node(rn) => {
            let Node { key: rk, color: rc, left: rl, right: rr } = *rn;
            proof {
                assert(keys(r) == keys(rl).union(keys(rr)).insert(rk));
                assert(keys(r).contains(rk));
                assert(rk > key);
            }
            if rc == Color::Red && (is_red_node(&rl) || is_red_node(&rr)) {
                if is_red_node(&l) {
                    // red uncle: recolor only
                    let new_r = Tree::Node(Box::new(Node { key: rk, color: Color::Black, left: rl, right: rr }));
                    let new_l = blacken(l);
                    let res = Tree::Node(Box::new(Node { key, color: Color::Red, left: new_l, right: new_r }));
                    proof {
                        assert(keys(new_r) == keys(r));
                        assert(keys(res) == keys(new_l).union(keys(new_r)).insert(key));
                        assert(keys(res) =~= goal);
                        assert(bst(new_r));
                        assert(bst(res));
                        assert(no_red_red(new_r));
                        assert(no_red_red(res));
                        assert(black_height(new_r) == black_height(r) + 1);
                        assert(balanced(new_r));
                        assert(size(new_r) == size(r));
                        assert(balanced(res));
                        assert(black_height(res) == black_height(l) + 1);
                        assert(size(res) == size(l) + size(r) + 1);
                    }
                    res
                } else if is_red_node(&rr) {
                    // outer grandchild: one rotation at this node
                    let new_l = Tree::Node(Box::new(Node { key, color: Color::Red, left: l, right: rl }));
                    proof {
                        assert(keys(new_l) == keys(l).union(keys(rl)).insert(key));
                        assert forall|k: i32| keys(new_l).contains(k) implies k < rk by {
                            if keys(rl).contains(k) {
                            }
                            if keys(l).contains(k) {
                            }
                        }
                        assert forall|k: i32| keys(rl).contains(k) implies k > key by {
                            assert(keys(r).contains(k));
                        }
                        assert(bst(new_l));
                        assert(no_red_red(new_l));
                        assert(black_height(rl) == black_height(l));
                        assert(balanced(new_l));
                        assert(black_height(new_l) == black_height(rl));
                        assert(size(new_l) == size(l) + size(rl) + 1);
                    }
                    let res = Tree::Node(Box::new(Node { key: rk, color: Color::Black, left: new_l, right: rr }));
                    proof {
                        assert(keys(res) == keys(new_l).union(keys(rr)).insert(rk));
                        assert(keys(res) =~= goal);
                        assert(bst(res));
                        assert(no_red_red(res));
                        assert(balanced(res));
                        assert(black_height(res) == black_height(l) + 1);
                        assert(size(res) == size(l) + size(r) + 1);
                    }
                    res
                } else {
                    // inner grandchild: rotate it up first
                    match rl {
                        Tree::Leaf => {
                            proof {
                                assert(false);
                            }
                            Tree::Leaf
                        }
                        Tree::Node(rln) => {
                            let Node { key: rlk, color: _, left: rll, right: rlr } = *rln;
                            proof {
                                assert(keys(rl) == keys(rll).union(keys(rlr)).insert(rlk));
                                assert(keys(rl).contains(rlk));
                                assert(keys(r).contains(rlk));
                                assert(key < rlk && rlk < rk);
                                assert(bst(rl));
                                assert(no_red_red(rl));
                                assert(balanced(rl));
                                assert(black_height(rl) == black_height(rll));
                                assert(black_height(rll) == black_height(rlr));
                                assert(size(rl) == size(rll) + size(rlr) + 1);
                                assert(!is_red(rll) && !is_red(rlr));
                            }
                            let new_l = Tree::Node(Box::new(Node { key, color: Color::Red, left: l, right: rll }));
                            let new_r = Tree::Node(Box::new(Node { key: rk, color: Color::Red, left: rlr, right: rr }));
                            proof {
                                assert(keys(new_l) == keys(l).union(keys(rll)).insert(key));
                                assert(keys(new_r) == keys(rlr).union(keys(rr)).insert(rk));
                                assert forall|k: i32| keys(rll).contains(k) implies key < k < rlk by {
                                    assert(keys(rl).contains(k));
                                    assert(keys(r).contains(k));
                                }
                                assert forall|k: i32| keys(rlr).contains(k) implies rlk < k < rk by {
                                    assert(keys(rl).contains(k));
                                }
                                assert(bst(new_l));
                                assert(bst(new_r));
                                assert forall|k: i32| keys(new_l).contains(k) implies k < rlk by {
                                    if keys(l).contains(k) {
                                    }
                                }
                                assert forall|k: i32| keys(new_r).contains(k) implies k > rlk by {
                                    if keys(rr).contains(k) {
                                    }
                                }
                                assert(no_red_red(new_l));
                                assert(no_red_red(new_r));
                                assert(balanced(new_l));
                                assert(balanced(new_r));
                                assert(black_height(new_l) == black_height(l));
                                assert(black_height(new_r) == black_height(l));
                                assert(size(new_l) == size(l) + size(rll) + 1);
                                assert(size(new_r) == size(rlr) + size(rr) + 1);
                            }
                            let res = Tree::Node(Box::new(Node { key: rlk, color: Color::Black, left: new_l, right: new_r }));
                            proof {
                                assert(keys(res) == keys(new_l).union(keys(new_r)).insert(rlk));
                                assert(keys(res) =~= goal);
                                assert(bst(res));
                                assert(no_red_red(res));
                                assert(balanced(res));
                                assert(black_height(res) == black_height(l) + 1);
                                assert(size(res) == size(l) + size(r) + 1);
                            }
                            res
                        }
                    }
                }
            } else {
                // no violation below: rebuild unchanged under the black
                // root
                let new_r = Tree::Node(Box::new(Node { key: rk, color: rc, left: rl, right: rr }));
                let res = Tree::Node(Box::new(Node { key, color: Color::Black, left: l, right: new_r }));
                proof {
                    assert(keys(new_r) == keys(r));
                    assert(keys(res) == keys(l).union(keys(new_r)).insert(key));
                    assert(keys(res) =~= goal);
                    assert(bst(new_r));
                    assert(no_red_red(new_r));
                    assert(balanced(new_r));
                    assert(black_height(new_r) == black_height(r));
                    assert(size(new_r) == size(r));
                    assert(bst(res));
                    assert(no_red_red(res));
                    assert(balanced(res));
                    assert(black_height(res) == black_height(l) + 1);
                    assert(size(res) == size(l) + size(r) + 1);
                }
                res
            }
        }
    }
}

/// Descend to the absent position for `item`, link a red node there, and
/// repair on the way back up: every black node on the return path runs
/// one grandparent step of the fixup. At a red node the possible red-red
/// edge is handed to the black node above.
fn insert_rec(t: Tree, item: i32) -> (res: Tree)
    requires
        bst(t),
        no_red_red(t),
        balanced(t),
        !keys(t).contains(item),
    ensures
        bst(res),
        keys(res) == keys(t).insert(item),
        size(res) == size(t) + 1,
        balanced(res),
        black_height(res) == black_height(t),
        is_red(t) ==> almost_no_red_red(res) && is_red(res),
        !is_red(t) ==> no_red_red(res),
    decreases t,
{
    match t {
        Tree::Leaf => {
            proof {
                assert(keys(Tree::Node(Box::new(Node { key: item, color: Color::Red, left: Tree::Leaf, right: Tree::Leaf }))) =~= keys(t).insert(item));
            }
            Tree::Node(Box::new(Node::new(item, Color::Red)))
        }
        Tree::Node(n) => {
            let Node { key, color, left, right } = *n;
            proof {
                assert(keys(t).contains(key));
            }
            if color == Color::Black {
                if item < key {
                    let new_left = insert_rec(left, item);
                    proof {
                        assert forall|k: i32| keys(new_left).contains(k) implies k < key by {
                            if keys(left).contains(k) {
                            }
                        }
                    }
                    let res = insert_fixup_left(new_left, key, right);
                    proof {
                        assert(keys(res) =~= keys(t).insert(item));
                    }
                    res
                } else {
                    let new_right = insert_rec(right, item);
                    proof {
                        assert forall|k: i32| keys(new_right).contains(k) implies k > key by {
                            if keys(right).contains(k) {
                            }
                        }
                    }
                    let res = insert_fixup_right(left, key, new_right);
                    proof {
                        assert(keys(res) =~= keys(t).insert(item));
                    }
                    res
                }
            } else {
                // a red node has black children and a black parent: pass
                // any new red-red edge up to the grandparent above
                if item < key {
                    let new_left = insert_rec(left, item);
                    proof {
                        assert forall|k: i32| keys(new_left).contains(k) implies k < key by {
                            if keys(left).contains(k) {
                            }
                        }
                        assert(keys(Tree::Node(Box::new(Node { key, color: Color::Red, left: new_left, right }))) =~= keys(t).insert(item));
                    }
                    Tree::Node(Box::new(Node { key, color: Color::Red, left: new_left, right }))
                } else {
                    let new_right = insert_rec(right, item);
                    proof {
                        assert forall|k: i32| keys(new_right).contains(k) implies k > key by {
                            if keys(right).contains(k) {
                            }
                        }
                        assert(keys(Tree::Node(Box::new(Node { key, color: Color::Red, left, right: new_right }))) =~= keys(t).insert(item));
                    }
                    Tree::Node(Box::new(Node { key, color: Color::Red, left, right: new_right }))
                }
            }
        }
    }
}

/// Insert `key` into a valid red-black tree: a no-op if the key is
/// already present, otherwise a BST insertion of a red node followed by
/// the fixup, with the root recolored black at the end. The result is a
/// valid red-black tree holding exactly the old keys plus `key`.
pub fn insert(t: Tree, key: i32) -> (res: Tree)
    requires
        rb_valid(t),
    ensures
        rb_valid(res),
        keys(res) == keys(t).insert(key),
        size(res) == size(t) + (if keys(t).contains(key) { 0nat } else { 1nat }),
        keys(t).contains(key) ==> res == t,
{
    if contains(&t, key) {
        proof {
            assert(keys(t).insert(key) =~= keys(t));
        }
        t
    } else {
        blacken(insert_rec(t, key))
    }
}

} // verus!
