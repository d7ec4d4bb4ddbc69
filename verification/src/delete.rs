//! Deletion: the BST removal with a selectable replacement policy and
//! the double-black repair.
//!
//! Removing a black node leaves one subtree a black short. The repair is
//! the classical deletion-fixup state machine, run on the way back out of
//! the recursion: at each node the deficit either terminates against a
//! red sibling (rotate it up, then resolve under the red parent), is
//! absorbed by recoloring when the sibling's children are black, or ends
//! in one terminal rotation when the sibling has a red child. A deficit
//! that recoloring could not absorb is handed one level up as a flag.

use vstd::prelude::*;
use crate::tree::{
    Color, Node, Tree, almost_no_red_red, balanced, black_height, blacken, bst, contains,
    is_leaf, is_red, is_red_node, keys, keys_above, keys_below, no_red_red, rb_valid, size,
};

verus! {

/// Which in-order neighbor's key replaces a deleted two-child node.
#[derive(Clone, Copy, PartialEq, Eq, Structural, Debug)]
pub enum Policy {
    Predecessor,
    Successor,
}

/// The double-black repair at one node whose left subtree came back one
/// black short: the node's color is `c`, its key `x`, the sibling is
/// `r`. Returns the rebuilt subtree and whether the deficit persists.
fn delete_fixup_left(c: Color, l: Tree, x: i32, r: Tree) -> (res: (Tree, bool))
    requires
        bst(l),
        bst(r),
        keys_below(l, x),
        keys_above(r, x),
        no_red_red(l),
        no_red_red(r),
        balanced(l),
        balanced(r),
        !is_red(l),
        c == Color::Red ==> !is_red(r),
        black_height(l) + 1 == black_height(r),
    ensures
        bst(res.0),
        keys(res.0) == keys(l).union(keys(r)).insert(x),
        size(res.0) == size(l) + size(r) + 1,
        no_red_red(res.0),
        balanced(res.0),
        black_height(res.0) + (if res.1 { 1nat } else { 0nat })
            == black_height(r) + (if c == Color::Black { 1nat } else { 0nat }),
        res.1 ==> !is_red(res.0) && c == Color::Black,
        is_red(res.0) ==> c == Color::Red,
    decreases (if c == Color::Red { 0int } else { 1int }),
{
    let ghost goal = keys(l).union(keys(r)).insert(x);
    match r {
        Tree::Leaf => {
            proof {
                assert(false);
            }
            (Tree::Leaf, false)
        }
        Tree::Node(rn) => {
            let Node { key: rk, color: rc, left: rl, right: rr } = *rn;
            proof {
                assert(keys(r) == keys(rl).union(keys(rr)).insert(rk));
                assert(keys(r).contains(rk));
                assert(x < rk);
                assert(bst(rl) && bst(rr));
                assert(no_red_red(rl) && no_red_red(rr));
                assert(balanced(rl) && balanced(rr));
                assert(black_height(rl) == black_height(rr));
                assert forall|k: i32| keys(rl).contains(k) implies x < k < rk by {
                    assert(keys(r).contains(k));
                }
                assert forall|k: i32| keys(rr).contains(k) implies k > rk by {
                }
            }
            if rc == Color::Red {
                // red sibling: the parent is black; rotate the sibling
                // up and resolve under the new red parent, where the
                // deficit cannot escape
                proof {
                    assert(c == Color::Black);
                    assert(!is_red(rl) && !is_red(rr));
                    assert(black_height(r) == black_height(rl));
                }
                let (inner, d) = delete_fixup_left(Color::Red, l, x, rl);
                proof {
                    assert(!d);
                    assert(black_height(inner) == black_height(rl));
                }
                let res = Tree::Node(Box::new(Node { key: rk, color: Color::Black, left: inner, right: rr }));
                proof {
                    assert(keys(inner) == keys(l).union(keys(rl)).insert(x));
                    assert(keys(res) == keys(inner).union(keys(rr)).insert(rk));
                    assert(keys(res) =~= goal);
                    assert forall|k: i32| keys(inner).contains(k) implies k < rk by {
                        if keys(l).contains(k) {
                        }
                        if keys(rl).contains(k) {
                        }
                    }
                    assert(bst(res));
                    assert(no_red_red(res));
                    assert(balanced(res));
                    assert(black_height(res) == black_height(rl) + 1);
                    assert(size(inner) == size(l) + size(rl) + 1);
                    assert(size(res) == size(l) + size(r) + 1);
                }
                (res, false)
            } else if is_red_node(&rr) {
                // sibling black with a red far child: one terminal
                // rotation; the far child turns black and pays the debt
                proof {
                    assert(black_height(r) == black_height(rl) + 1);
                    assert(almost_no_red_red(rr));
                }
                let new_l = Tree::Node(Box::new(Node { key: x, color: Color::Black, left: l, right: rl }));
                let new_r = blacken(rr);
                let res = Tree::Node(Box::new(Node { key: rk, color: c, left: new_l, right: new_r }));
                proof {
                    assert(keys(new_l) == keys(l).union(keys(rl)).insert(x));
                    assert(keys(res) == keys(new_l).union(keys(new_r)).insert(rk));
                    assert(keys(res) =~= goal);
                    assert(bst(new_l));
                    assert forall|k: i32| keys(new_l).contains(k) implies k < rk by {
                        if keys(l).contains(k) {
                        }
                        if keys(rl).contains(k) {
                        }
                    }
                    assert(bst(res));
                    assert(no_red_red(new_l));
                    assert(no_red_red(res));
                    assert(balanced(new_l));
                    assert(black_height(new_l) == black_height(l) + 1);
                    assert(black_height(new_r) == black_height(rr) + 1);
                    assert(balanced(res));
                    assert(black_height(res) == black_height(r) + (if c == Color::Black { 1nat } else { 0nat }));
                    assert(size(new_l) == size(l) + size(rl) + 1);
                    assert(size(new_r) == size(rr));
                    assert(size(res) == size(l) + size(r) + 1);
                }
                (res, false)
            } else if is_red_node(&rl) {
                // sibling black, near child red: the near child rotates
                // up into the sibling's place and the rotation resolves
                match rl {
                    Tree::Leaf => {
                        proof {
                            assert(false);
                        }
                        (Tree::Leaf, false)
                    }
                    Tree::Node(rln) => {
                        let Node { key: rlk, color: _, left: rll, right: rlr } = *rln;
                        proof {
                            assert(keys(rl) == keys(rll).union(keys(rlr)).insert(rlk));
                            assert(keys(rl).contains(rlk));
                            assert(bst(rl));
                            assert(no_red_red(rl));
                            assert(balanced(rl));
                            assert(!is_red(rll) && !is_red(rlr));
                            assert(black_height(rl) == black_height(rll));
                            assert(black_height(rll) == black_height(rlr));
                            assert(black_height(r) == black_height(rl) + 1);
                            assert(size(rl) == size(rll) + size(rlr) + 1);
                            assert(x < rlk && rlk < rk);
                        }
                        let new_l = Tree::Node(Box::new(Node { key: x, color: Color::Black, left: l, right: rll }));
                        let new_r = Tree::Node(Box::new(Node { key: rk, color: Color::Black, left: rlr, right: rr }));
                        proof {
                            assert(keys(new_l) == keys(l).union(keys(rll)).insert(x));
                            assert(keys(new_r) == keys(rlr).union(keys(rr)).insert(rk));
                            assert forall|k: i32| keys(rll).contains(k) implies x < k < rlk by {
                                assert(keys(rl).contains(k));
                            }
                            assert forall|k: i32| keys(rlr).contains(k) implies rlk < k < rk by {
                                assert(keys(rl).contains(k));
                            }
                            assert(bst(new_l));
                            assert(bst(new_r));
                            assert(no_red_red(new_l));
                            assert(no_red_red(new_r));
                            assert(balanced(new_l));
                            assert(balanced(new_r));
                            assert(black_height(new_l) == black_height(l) + 1);
                            assert(black_height(new_r) == black_height(rlr) + 1);
                            assert(size(new_l) == size(l) + size(rll) + 1);
                            assert(size(new_r) == size(rlr) + size(rr) + 1);
                        }
                        let res = Tree::Node(Box::new(Node { key: rlk, color: c, left: new_l, right: new_r }));
                        proof {
                            assert(keys(res) == keys(new_l).union(keys(new_r)).insert(rlk));
                            assert(keys(res) =~= goal);
                            assert forall|k: i32| keys(new_l).contains(k) implies k < rlk by {
                                if keys(l).contains(k) {
                                }
                            }
                            assert forall|k: i32| keys(new_r).contains(k) implies k > rlk by {
                                if keys(rr).contains(k) {
                                }
                            }
                            assert(bst(res));
                            assert(no_red_red(res));
                            assert(balanced(res));
                            assert(black_height(res) == black_height(r) + (if c == Color::Black { 1nat } else { 0nat }));
                            assert(size(res) == size(l) + size(r) + 1);
                        }
                        (res, false)
                    }
                }
            } else {
                // sibling black with black children: recolor it red;
                // a red parent turns black and absorbs the deficit, a
                // black parent hands it up
                let new_r = Tree::Node(Box::new(Node { key: rk, color: Color::Red, left: rl, right: rr }));
                let res = Tree::Node(Box::new(Node { key: x, color: Color::Black, left: l, right: new_r }));
                let deficit = c == Color::Black;
                proof {
                    assert(keys(new_r) == keys(r));
                    assert(keys(res) == keys(l).union(keys(new_r)).insert(x));
                    assert(keys(res) =~= goal);
                    assert(bst(new_r));
                    assert(bst(res));
                    assert(no_red_red(new_r));
                    assert(no_red_red(res));
                    assert(balanced(new_r));
                    assert(black_height(new_r) == black_height(rl));
                    assert(black_height(r) == black_height(rl) + 1);
                    assert(balanced(res));
                    assert(black_height(res) == black_height(l) + 1);
                    assert(size(new_r) == size(r));
                    assert(size(res) == size(l) + size(r) + 1);
                }
                (res, deficit)
            }
        }
    }
}

/// Mirror of `delete_fixup_left`: the right subtree came back one black
/// short, the sibling is `l`.
fn delete_fixup_right(c: Color, l: Tree, x: i32, r: Tree) -> (res: (Tree, bool))
    requires
        bst(l),
        bst(r),
        keys_below(l, x),
        keys_above(r, x),
        no_red_red(l),
        no_red_red(r),
        balanced(l),
        balanced(r),
        !is_red(r),
        c == Color::Red ==> !is_red(l),
        black_height(r) + 1 == black_height(l),
    ensures
        bst(res.0),
        keys(res.0) == keys(l).union(keys(r)).insert(x),
        size(res.0) == size(l) + size(r) + 1,
        no_red_red(res.0),
        balanced(res.0),
        black_height(res.0) + (if res.1 { 1nat } else { 0nat })
            == black_height(l) + (if c == Color::Black { 1nat } else { 0nat }),
        res.1 ==> !is_red(res.0) && c == Color::Black,
        is_red(res.0) ==> c == Color::Red,
    decreases (if c == Color::Red { 0int } else { 1int }),
{
    let ghost goal = keys(l).union(keys(r)).insert(x);
    match l {
        Tree::Leaf => {
            proof {
                assert(false);
            }
            (Tree::Leaf, false)
        }
        Tree::Node(ln) => {
            let Node { key: lk, color: lc, left: ll, right: lr } = *ln;
            proof {
                assert(keys(l) == keys(ll).union(keys(lr)).insert(lk));
                assert(keys(l).contains(lk));
                assert(lk < x);
                assert(bst(ll) && bst(lr));
                assert(no_red_red(ll) && no_red_red(lr));
                assert(balanced(ll) && balanced(lr));
                assert(black_height(ll) == black_height(lr));
                assert forall|k: i32| keys(lr).contains(k) implies lk < k < x by {
                    assert(keys(l).contains(k));
                }
                assert forall|k: i32| keys(ll).contains(k) implies k < lk by {
                }
            }
            if lc == Color::Red {
                // red sibling: rotate it up, resolve under the red
                // parent, where the deficit cannot escape
                proof {
                    assert(c == Color::Black);
                    assert(!is_red(ll) && !is_red(lr));
                    assert(black_height(l) == black_height(lr));
                }
                let (inner, d) = delete_fixup_right(Color::Red, lr, x, r);
                proof {
                    assert(!d);
                    assert(black_height(inner) == black_height(lr));
                }
                let res = Tree::Node(Box::new(Node { key: lk, color: Color::Black, left: ll, right: inner }));
                proof {
                    assert(keys(inner) == keys(lr).union(keys(r)).insert(x));
                    assert(keys(res) == keys(ll).union(keys(inner)).insert(lk));
                    assert(keys(res) =~= goal);
                    assert forall|k: i32| keys(inner).contains(k) implies k > lk by {
                        if keys(r).contains(k) {
                        }
                        if keys(lr).contains(k) {
                        }
                    }
                    assert(bst(res));
                    assert(no_red_red(res));
                    assert(balanced(res));
                    assert(black_height(res) == black_height(lr) + 1);
                    assert(size(inner) == size(lr) + size(r) + 1);
                    assert(size(res) == size(l) + size(r) + 1);
                }
                (res, false)
            } else if is_red_node(&ll) {
                // sibling black with a red far child: one terminal
                // rotation
                proof {
                    assert(black_height(l) == black_height(lr) + 1);
                    assert(almost_no_red_red(ll));
                }
                let new_r = Tree::Node(Box::new(Node { key: x, color: Color::Black, left: lr, right: r }));
                let new_l = blacken(ll);
                let res = Tree::Node(Box::new(Node { key: lk, color: c, left: new_l, right: new_r }));
                proof {
                    assert(keys(new_r) == keys(lr).union(keys(r)).insert(x));
                    assert(keys(res) == keys(new_l).union(keys(new_r)).insert(lk));
                    assert(keys(res) =~= goal);
                    assert(bst(new_r));
                    assert forall|k: i32| keys(new_r).contains(k) implies k > lk by {
                        if keys(r).contains(k) {
                        }
                        if keys(lr).contains(k) {
                        }
                    }
                    assert(bst(res));
                    assert(no_red_red(new_r));
                    assert(no_red_red(res));
                    assert(balanced(new_r));
                    assert(black_height(new_r) == black_height(lr) + 1);
                    assert(black_height(new_l) == black_height(ll) + 1);
                    assert(balanced(res));
                    assert(black_height(res) == black_height(l) + (if c == Color::Black { 1nat } else { 0nat }));
                    assert(size(new_r) == size(lr) + size(r) + 1);
                    assert(size(new_l) == size(ll));
                    assert(size(res) == size(l) + size(r) + 1);
                }
                (res, false)
            } else if is_red_node(&lr) {
                // sibling black, near child red: rotate the near child
                // up into the sibling's place first
                match lr {
                    Tree::Leaf => {
                        proof {
                            assert(false);
                        }
                        (Tree::Leaf, false)
                    }
                    Tree::Node(lrn) => {
                        let Node { key: lrk, color: _, left: lrl, right: lrr } = *lrn;
                        proof {
                            assert(keys(lr) == keys(lrl).union(keys(lrr)).insert(lrk));
                            assert(keys(lr).contains(lrk));
                            assert(bst(lr));
                            assert(no_red_red(lr));
                            assert(balanced(lr));
                            assert(!is_red(lrl) && !is_red(lrr));
                            assert(black_height(lr) == black_height(lrl));
                            assert(black_height(lrl) == black_height(lrr));
                            assert(black_height(l) == black_height(lr) + 1);
                            assert(size(lr) == size(lrl) + size(lrr) + 1);
                            assert(lk < lrk && lrk < x);
                        }
                        let new_l = Tree::Node(Box::new(Node { key: lk, color: Color::Black, left: ll, right: lrl }));
                        let new_r = Tree::Node(Box::new(Node { key: x, color: Color::Black, left: lrr, right: r }));
                        proof {
                            assert(keys(new_l) == keys(ll).union(keys(lrl)).insert(lk));
                            assert(keys(new_r) == keys(lrr).union(keys(r)).insert(x));
                            assert forall|k: i32| keys(lrl).contains(k) implies lk < k < lrk by {
                                assert(keys(lr).contains(k));
                            }
                            assert forall|k: i32| keys(lrr).contains(k) implies lrk < k < x by {
                                assert(keys(lr).contains(k));
                                assert(keys(l).contains(k));
                            }
                            assert(bst(new_l));
                            assert(bst(new_r));
                            assert(no_red_red(new_l));
                            assert(no_red_red(new_r));
                            assert(balanced(new_l));
                            assert(balanced(new_r));
                            assert(black_height(new_l) == black_height(ll) + 1);
                            assert(black_height(new_r) == black_height(lrr) + 1);
                            assert(size(new_l) == size(ll) + size(lrl) + 1);
                            assert(size(new_r) == size(lrr) + size(r) + 1);
                        }
                        let res = Tree::Node(Box::new(Node { key: lrk, color: c, left: new_l, right: new_r }));
                        proof {
                            assert(keys(res) == keys(new_l).union(keys(new_r)).insert(lrk));
                            assert(keys(res) =~= goal);
                            assert forall|k: i32| keys(new_l).contains(k) implies k < lrk by {
                                if keys(ll).contains(k) {
                                }
                            }
                            assert forall|k: i32| keys(new_r).contains(k) implies k > lrk by {
                                if keys(r).contains(k) {
                                }
                            }
                            assert(bst(res));
                            assert(no_red_red(res));
                            assert(balanced(res));
                            assert(black_height(res) == black_height(l) + (if c == Color::Black { 1nat } else { 0nat }));
                            assert(size(res) == size(l) + size(r) + 1);
                        }
                        (res, false)
                    }
                }
            } else {
                // sibling black with black children: recolor it red and
                // either absorb the deficit here or hand it up
                let new_l = Tree::Node(Box::new(Node { key: lk, color: Color::Red, left: ll, right: lr }));
                let res = Tree::Node(Box::new(Node { key: x, color: Color::Black, left: new_l, right: r }));
                let deficit = c == Color::Black;
                proof {
                    assert(keys(new_l) == keys(l));
                    assert(keys(res) == keys(new_l).union(keys(r)).insert(x));
                    assert(keys(res) =~= goal);
                    assert(bst(new_l));
                    assert(bst(res));
                    assert(no_red_red(new_l));
                    assert(no_red_red(res));
                    assert(balanced(new_l));
                    assert(black_height(new_l) == black_height(ll));
                    assert(black_height(l) == black_height(ll) + 1);
                    assert(balanced(res));
                    assert(black_height(res) == black_height(r) + 1);
                    assert(size(new_l) == size(l));
                    assert(size(res) == size(l) + size(r) + 1);
                }
                (res, deficit)
            }
        }
    }
}

/// Remove the rightmost node of a non-empty subtree and hand its key
/// out, repairing the coloring on the way back up; the flag reports a
/// black-height deficit that the levels above must absorb.
fn delete_max(t: Tree) -> (res: (Tree, i32, bool))
    requires
        t is Node,
        bst(t),
        no_red_red(t),
        balanced(t),
    ensures
        keys(t).contains(res.1),
        forall|k: i32| keys(t).contains(k) ==> k <= res.1,
        keys(res.0) == keys(t).remove(res.1),
        size(res.0) + 1 == size(t),
        bst(res.0),
        no_red_red(res.0),
        balanced(res.0),
        black_height(res.0) + (if res.2 { 1nat } else { 0nat }) == black_height(t),
        res.2 ==> !is_red(res.0),
        is_red(res.0) ==> is_red(t),
    decreases t,
{
    match t {
        Tree::Leaf => {
            proof {
                assert(false);
            }
            (Tree::Leaf, 0, false)
        }
        Tree::Node(n) => {
            let Node { key, color, left, right } = *n;
            proof {
                assert(keys(t) == keys(left).union(keys(right)).insert(key));
                assert(keys(t).contains(key));
            }
            if is_leaf(&right) {
                // this node holds the maximum
                proof {
                    assert(keys(right) == Set::<i32>::empty());
                    assert(black_height(left) == 0);
                    assert(!keys(left).contains(key));
                    assert forall|k: i32| keys(t).contains(k) implies k <= key by {
                        if keys(left).contains(k) {
                        }
                        assert(!keys(right).contains(k));
                    }
                }
                match left {
                    Tree::Leaf => {
                        proof {
                            assert(keys(Tree::Leaf) =~= keys(t).remove(key));
                        }
                        (Tree::Leaf, key, color == Color::Black)
                    }
                    Tree::Node(lb) => {
                        // exactly one child: by the balance invariant it
                        // is a single red node; promote it recolored
                        let child = Tree::Node(lb);
                        proof {
                            if !is_red(child) {
                                assert(black_height(child) >= 1);
                                assert(false);
                            }
                            assert(color == Color::Black);
                        }
                        let promoted = blacken(child);
                        proof {
                            assert(keys(promoted) =~= keys(t).remove(key));
                            assert(black_height(promoted) == 1);
                            assert(black_height(t) == 1);
                        }
                        (promoted, key, false)
                    }
                }
            } else {
                let (new_right, m, d) = delete_max(right);
                proof {
                    assert(keys(right).contains(m));
                    assert(m > key);
                    assert forall|k: i32| keys(t).contains(k) implies k <= m by {
                        if keys(left).contains(k) {
                        }
                        if keys(right).contains(k) {
                        }
                    }
                    assert(!keys(left).contains(m));
                    assert forall|k: i32| keys(new_right).contains(k) implies k > key by {
                        assert(keys(right).contains(k));
                    }
                }
                if d {
                    let (rt, d2) = delete_fixup_right(color, left, key, new_right);
                    proof {
                        assert(keys(rt) =~= keys(t).remove(m));
                        assert(size(rt) + 1 == size(t));
                    }
                    (rt, m, d2)
                } else {
                    let res = Tree::Node(Box::new(Node { key, color, left, right: new_right }));
                    proof {
                        assert(keys(res) == keys(left).union(keys(new_right)).insert(key));
                        assert(keys(res) =~= keys(t).remove(m));
                        assert(bst(res));
                        assert(no_red_red(res));
                        assert(balanced(res));
                        assert(black_height(res) == black_height(t));
                        assert(size(res) == size(left) + size(new_right) + 1);
                    }
                    (res, m, false)
                }
            }
        }
    }
}

/// Mirror of `delete_max`: remove the leftmost node and hand its key
/// out.
fn delete_min(t: Tree) -> (res: (Tree, i32, bool))
    requires
        t is Node,
        bst(t),
        no_red_red(t),
        balanced(t),
    ensures
        keys(t).contains(res.1),
        forall|k: i32| keys(t).contains(k) ==> k >= res.1,
        keys(res.0) == keys(t).remove(res.1),
        size(res.0) + 1 == size(t),
        bst(res.0),
        no_red_red(res.0),
        balanced(res.0),
        black_height(res.0) + (if res.2 { 1nat } else { 0nat }) == black_height(t),
        res.2 ==> !is_red(res.0),
        is_red(res.0) ==> is_red(t),
    decreases t,
{
    match t {
        Tree::Leaf => {
            proof {
                assert(false);
            }
            (Tree::Leaf, 0, false)
        }
        Tree::Node(n) => {
            let Node { key, color, left, right } = *n;
            proof {
                assert(keys(t) == keys(left).union(keys(right)).insert(key));
                assert(keys(t).contains(key));
            }
            if is_leaf(&left) {
                // this node holds the minimum
                proof {
                    assert(keys(left) == Set::<i32>::empty());
                    assert(black_height(right) == 0);
                    assert(!keys(right).contains(key));
                    assert forall|k: i32| keys(t).contains(k) implies k >= key by {
                        if keys(right).contains(k) {
                        }
                        assert(!keys(left).contains(k));
                    }
                }
                match right {
                    Tree::Leaf => {
                        proof {
                            assert(keys(Tree::Leaf) =~= keys(t).remove(key));
                        }
                        (Tree::Leaf, key, color == Color::Black)
                    }
                    Tree::Node(rb) => {
                        // exactly one child: a single red node; promote
                        // it recolored black
                        let child = Tree::Node(rb);
                        proof {
                            if !is_red(child) {
                                assert(black_height(child) >= 1);
                                assert(false);
                            }
                            assert(color == Color::Black);
                        }
                        let promoted = blacken(child);
                        proof {
                            assert(keys(promoted) =~= keys(t).remove(key));
                            assert(black_height(promoted) == 1);
                            assert(black_height(t) == 1);
                        }
                        (promoted, key, false)
                    }
                }
            } else {
                let (new_left, m, d) = delete_min(left);
                proof {
                    assert(keys(left).contains(m));
                    assert(m < key);
                    assert forall|k: i32| keys(t).contains(k) implies k >= m by {
                        if keys(right).contains(k) {
                        }
                        if keys(left).contains(k) {
                        }
                    }
                    assert(!keys(right).contains(m));
                    assert forall|k: i32| keys(new_left).contains(k) implies k < key by {
                        assert(keys(left).contains(k));
                    }
                }
                if d {
                    let (rt, d2) = delete_fixup_left(color, new_left, key, right);
                    proof {
                        assert(keys(rt) =~= keys(t).remove(m));
                        assert(size(rt) + 1 == size(t));
                    }
                    (rt, m, d2)
                } else {
                    let res = Tree::Node(Box::new(Node { key, color, left: new_left, right }));
                    proof {
                        assert(keys(res) == keys(new_left).union(keys(right)).insert(key));
                        assert(keys(res) =~= keys(t).remove(m));
                        assert(bst(res));
                        assert(no_red_red(res));
                        assert(balanced(res));
                        assert(black_height(res) == black_height(t));
                        assert(size(res) == size(new_left) + size(right) + 1);
                    }
                    (res, m, false)
                }
            }
        }
    }
}

/// Remove `key`, known to be present: the BST removal with the repair
/// run on the way back up. A two-child node takes its in-order
/// predecessor's or successor's key, by policy, and the removal recurses
/// into that subtree. The flag reports a persisting black-height
/// deficit.
fn delete_rec(t: Tree, key: i32, policy: Policy) -> (res: (Tree, bool))
    requires
        bst(t),
        no_red_red(t),
        balanced(t),
        keys(t).contains(key),
    ensures
        bst(res.0),
        keys(res.0) == keys(t).remove(key),
        size(res.0) + 1 == size(t),
        no_red_red(res.0),
        balanced(res.0),
        black_height(res.0) + (if res.1 { 1nat } else { 0nat }) == black_height(t),
        res.1 ==> !is_red(res.0),
        is_red(res.0) ==> is_red(t),
    decreases t,
{
    match t {
        Tree::Leaf => {
            proof {
                assert(false);
            }
            (Tree::Leaf, false)
        }
        Tree::Node(n) => {
            let Node { key: x, color, left, right } = *n;
            proof {
                assert(keys(t) == keys(left).union(keys(right)).insert(x));
                assert(keys(t).contains(x));
            }
            if key < x {
                proof {
                    assert(!keys(right).contains(key));
                    assert(keys(left).contains(key));
                }
                let (new_left, d) = delete_rec(left, key, policy);
                proof {
                    assert forall|k: i32| keys(new_left).contains(k) implies k < x by {
                        assert(keys(left).contains(k));
                    }
                }
                if d {
                    let (rt, d2) = delete_fixup_left(color, new_left, x, right);
                    proof {
                        assert(keys(rt) =~= keys(t).remove(key));
                    }
                    (rt, d2)
                } else {
                    let res = Tree::Node(Box::new(Node { key: x, color, left: new_left, right }));
                    proof {
                        assert(keys(res) == keys(new_left).union(keys(right)).insert(x));
                        assert(keys(res) =~= keys(t).remove(key));
                        assert(bst(res));
                        assert(no_red_red(res));
                        assert(balanced(res));
                        assert(black_height(res) == black_height(t));
                        assert(size(res) == size(new_left) + size(right) + 1);
                    }
                    (res, false)
                }
            } else if key > x {
                proof {
                    assert(!keys(left).contains(key));
                    assert(keys(right).contains(key));
                }
                let (new_right, d) = delete_rec(right, key, policy);
                proof {
                    assert forall|k: i32| keys(new_right).contains(k) implies k > x by {
                        assert(keys(right).contains(k));
                    }
                }
                if d {
                    let (rt, d2) = delete_fixup_right(color, left, x, new_right);
                    proof {
                        assert(keys(rt) =~= keys(t).remove(key));
                    }
                    (rt, d2)
                } else {
                    let res = Tree::Node(Box::new(Node { key: x, color, left, right: new_right }));
                    proof {
                        assert(keys(res) == keys(left).union(keys(new_right)).insert(x));
                        assert(keys(res) =~= keys(t).remove(key));
                        assert(bst(res));
                        assert(no_red_red(res));
                        assert(balanced(res));
                        assert(black_height(res) == black_height(t));
                        assert(size(res) == size(left) + size(new_right) + 1);
                    }
                    (res, false)
                }
            } else {
                // this node goes
                proof {
                    assert(!keys(left).contains(key));
                    assert(!keys(right).contains(key));
                }
                if is_leaf(&left) {
                    if is_leaf(&right) {
                        // a leaf: detaching it costs a black when the
                        // node was black
                        proof {
                            assert(keys(Tree::Leaf) =~= keys(t).remove(key));
                            assert(black_height(t) == (if color == Color::Black { 1nat } else { 0nat }));
                        }
                        (Tree::Leaf, color == Color::Black)
                    } else {
                        // only a right child: a single red node; promote
                        // it recolored black
                        proof {
                            assert(keys(left) == Set::<i32>::empty());
                            assert(black_height(right) == 0);
                            if !is_red(right) {
                                assert(black_height(right) >= 1);
                                assert(false);
                            }
                            assert(color == Color::Black);
                        }
                        let promoted = blacken(right);
                        proof {
                            assert(keys(promoted) =~= keys(t).remove(key));
                            assert(black_height(promoted) == 1);
                            assert(black_height(t) == 1);
                        }
                        (promoted, false)
                    }
                } else if is_leaf(&right) {
                    // only a left child: the mirror
                    proof {
                        assert(keys(right) == Set::<i32>::empty());
                        assert(black_height(left) == 0);
                        if !is_red(left) {
                            assert(black_height(left) >= 1);
                            assert(false);
                        }
                        assert(color == Color::Black);
                    }
                    let promoted = blacken(left);
                    proof {
                        assert(keys(promoted) =~= keys(t).remove(key));
                        assert(black_height(promoted) == 1);
                        assert(black_height(t) == 1);
                    }
                    (promoted, false)
                } else {
                    // two children: the chosen neighbor's key takes this
                    // position and is removed from its subtree
                    match policy {
                        Policy::Predecessor => {
                            let (new_left, m, d) = delete_max(left);
                            proof {
                                assert(keys(left).contains(m));
                                assert(m < x);
                                assert(!keys(right).contains(m));
                                assert forall|k: i32| keys(new_left).contains(k) implies k < m by {
                                    assert(keys(left).contains(k));
                                }
                                assert forall|k: i32| keys(right).contains(k) implies k > m by {
                                }
                            }
                            if d {
                                let (rt, d2) = delete_fixup_left(color, new_left, m, right);
                                proof {
                                    assert(keys(rt) =~= keys(t).remove(key));
                                }
                                (rt, d2)
                            } else {
                                let res = Tree::Node(Box::new(Node { key: m, color, left: new_left, right }));
                                proof {
                                    assert(keys(res) == keys(new_left).union(keys(right)).insert(m));
                                    assert(keys(res) =~= keys(t).remove(key));
                                    assert(bst(res));
                                    assert(no_red_red(res));
                                    assert(balanced(res));
                                    assert(black_height(res) == black_height(t));
                                    assert(size(res) == size(new_left) + size(right) + 1);
                                }
                                (res, false)
                            }
                        }
                        Policy::Successor => {
                            let (new_right, m, d) = delete_min(right);
                            proof {
                                assert(keys(right).contains(m));
                                assert(m > x);
                                assert(!keys(left).contains(m));
                                assert forall|k: i32| keys(new_right).contains(k) implies k > m by {
                                    assert(keys(right).contains(k));
                                }
                                assert forall|k: i32| keys(left).contains(k) implies k < m by {
                                }
                            }
                            if d {
                                let (rt, d2) = delete_fixup_right(color, left, m, new_right);
                                proof {
                                    assert(keys(rt) =~= keys(t).remove(key));
                                }
                                (rt, d2)
                            } else {
                                let res = Tree::Node(Box::new(Node { key: m, color, left, right: new_right }));
                                proof {
                                    assert(keys(res) == keys(left).union(keys(new_right)).insert(m));
                                    assert(keys(res) =~= keys(t).remove(key));
                                    assert(bst(res));
                                    assert(no_red_red(res));
                                    assert(balanced(res));
                                    assert(black_height(res) == black_height(t));
                                    assert(size(res) == size(left) + size(new_right) + 1);
                                }
                                (res, false)
                            }
                        }
                    }
                }
            }
        }
    }
}

/// Delete `key` from a valid red-black tree under the given replacement
/// policy. The flag reports whether the key was present: an absent key
/// is a failure outcome that leaves the tree unchanged. The resulting
/// tree is valid and holds exactly the old keys minus `key`.
pub fn delete(t: Tree, key: i32, policy: Policy) -> (res: (Tree, bool))
    requires
        rb_valid(t),
    ensures
        rb_valid(res.0),
        res.1 == keys(t).contains(key),
        keys(res.0) == keys(t).remove(key),
        size(res.0) + (if keys(t).contains(key) { 1nat } else { 0nat }) == size(t),
        !res.1 ==> res.0 == t,
{
    if contains(&t, key) {
        let (t2, _) = delete_rec(t, key, policy);
        (t2, true)
    } else {
        proof {
            assert(keys(t).remove(key) =~= keys(t));
        }
        (t, false)
    }
}

} // verus!
