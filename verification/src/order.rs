//! Order-level consequences of the tree contracts: the in-order walk of
//! a search tree is strictly increasing, is determined by the key set
//! alone, and the node count equals the key count. Together with the
//! key-set contracts of `insert` and `delete` these give the round-trip
//! and policy-agreement laws.

use vstd::prelude::*;
use vstd::set_lib::lemma_set_disjoint_lens;
use crate::tree::{Tree, balanced, bst, inorder, is_red, keys, no_red_red, rb_valid, size, sorted_strict};

verus! {

/// Invariant preservation, made explicit: a valid red-black tree
/// satisfies exactly the coloring invariants that `validate` checks, so
/// `validate` answers true after any sequence of `insert` and `delete`
/// calls, both of which return valid trees by contract.
pub proof fn lemma_valid_tree_validates(t: Tree)
    requires
        rb_valid(t),
    ensures
        !is_red(t) && no_red_red(t) && balanced(t),
        bst(t),
{
}

/// The in-order sequence and the key set have the same members.
pub proof fn lemma_inorder_members(t: Tree)
    ensures
        forall|k: i32| #[trigger] inorder(t).contains(k) <==> keys(t).contains(k),
    decreases t,
{
    match t {
        Tree::Leaf => {
            assert forall|k: i32| #[trigger] inorder(t).contains(k) <==> keys(t).contains(k) by {
                assert(!inorder(t).contains(k));
                assert(!keys(t).contains(k));
            }
        }
        Tree::Node(n) => {
            lemma_inorder_members(n.left);
            lemma_inorder_members(n.right);
            let il = inorder(n.left);
            let ir = inorder(n.right);
            let s = inorder(t);
            assert(s == il + seq![n.key] + ir);
            assert forall|k: i32| keys(t).contains(k) implies #[trigger] inorder(t).contains(k) by {
                if keys(n.left).contains(k) {
                    assert(il.contains(k));
                    let i = choose|i: int| 0 <= i < il.len() && il[i] == k;
                    assert(s[i] == k);
                    assert(s.contains(k));
                } else if k == n.key {
                    assert(s[il.len() as int] == k);
                    assert(s.contains(k));
                } else {
                    assert(keys(n.right).contains(k));
                    assert(ir.contains(k));
                    let i = choose|i: int| 0 <= i < ir.len() && ir[i] == k;
                    assert(s[il.len() + 1 + i] == k);
                    assert(s.contains(k));
                }
            }
            assert forall|k: i32| #[trigger] inorder(t).contains(k) implies keys(t).contains(k) by {
                let i = choose|i: int| 0 <= i < s.len() && s[i] == k;
                if i < il.len() {
                    assert(il[i] == k);
                    assert(il.contains(k));
                } else if i == il.len() {
                    assert(k == n.key);
                } else {
                    assert(ir[i - il.len() - 1] == k);
                    assert(ir.contains(k));
                }
            }
        }
    }
}

/// The in-order walk of a search tree is strictly increasing.
pub proof fn lemma_bst_inorder_sorted(t: Tree)
    requires
        bst(t),
    ensures
        sorted_strict(inorder(t)),
    decreases t,
{
    match t {
        Tree::Leaf => {
        }
        Tree::Node(n) => {
            lemma_bst_inorder_sorted(n.left);
            lemma_bst_inorder_sorted(n.right);
            lemma_inorder_members(n.left);
            lemma_inorder_members(n.right);
            let il = inorder(n.left);
            let ir = inorder(n.right);
            let s = inorder(t);
            assert(s == il + seq![n.key] + ir);
            assert forall|i: int, j: int| 0 <= i < j < s.len() implies s[i] < s[j] by {
                if j < il.len() {
                    assert(s[i] == il[i] && s[j] == il[j]);
                } else if i > il.len() {
                    assert(s[i] == ir[i - il.len() - 1] && s[j] == ir[j - il.len() - 1]);
                } else {
                    if i < il.len() {
                        assert(s[i] == il[i]);
                        assert(il.contains(il[i]));
                        assert(keys(n.left).contains(s[i]));
                        assert(s[i] < n.key);
                    } else {
                        assert(s[i] == n.key);
                    }
                    if j == il.len() {
                        assert(s[j] == n.key);
                    } else {
                        assert(s[j] == ir[j - il.len() - 1]);
                        assert(ir.contains(ir[j - il.len() - 1]));
                        assert(keys(n.right).contains(s[j]));
                        assert(s[j] > n.key);
                    }
                }
            }
        }
    }
}

/// A strictly increasing sequence is determined by its members.
proof fn lemma_sorted_unique(s1: Seq<i32>, s2: Seq<i32>)
    requires
        sorted_strict(s1),
        sorted_strict(s2),
        forall|k: i32| #[trigger] s1.contains(k) <==> #[trigger] s2.contains(k),
    ensures
        s1 == s2,
    decreases s1.len(),
{
    if s1.len() == 0 {
        if s2.len() > 0 {
            assert(s2.contains(s2[0]));
            assert(s1.contains(s2[0]));
            assert(false);
        }
        assert(s1 =~= s2);
    } else {
        assert(s1.contains(s1[0]));
        assert(s2.contains(s1[0]));
        let j = choose|j: int| 0 <= j < s2.len() && s2[j] == s1[0];
        assert(s2.contains(s2[0]));
        assert(s1.contains(s2[0]));
        let i0 = choose|i: int| 0 <= i < s1.len() && s1[i] == s2[0];
        assert(s2[0] <= s2[j]);
        assert(s1[0] <= s1[i0]);
        assert(s1[0] == s2[0]);
        let t1 = s1.drop_first();
        let t2 = s2.drop_first();
        assert forall|i: int, j2: int| 0 <= i < j2 < t1.len() implies t1[i] < t1[j2] by {
            assert(t1[i] == s1[i + 1] && t1[j2] == s1[j2 + 1]);
        }
        assert forall|i: int, j2: int| 0 <= i < j2 < t2.len() implies t2[i] < t2[j2] by {
            assert(t2[i] == s2[i + 1] && t2[j2] == s2[j2 + 1]);
        }
        assert forall|k: i32| #[trigger] t1.contains(k) implies #[trigger] t2.contains(k) by {
            let i = choose|i: int| 0 <= i < t1.len() && t1[i] == k;
            assert(s1[i + 1] == k);
            assert(s1.contains(k));
            assert(k > s1[0]);
            assert(s2.contains(k));
            let j2 = choose|j2: int| 0 <= j2 < s2.len() && s2[j2] == k;
            assert(j2 > 0);
            assert(t2[j2 - 1] == k);
        }
        assert forall|k: i32| #[trigger] t2.contains(k) implies #[trigger] t1.contains(k) by {
            let i = choose|i: int| 0 <= i < t2.len() && t2[i] == k;
            assert(s2[i + 1] == k);
            assert(s2.contains(k));
            assert(k > s2[0]);
            assert(s1.contains(k));
            let j2 = choose|j2: int| 0 <= j2 < s1.len() && s1[j2] == k;
            assert(j2 > 0);
            assert(t1[j2 - 1] == k);
        }
        lemma_sorted_unique(t1, t2);
        assert(s1.len() == s2.len());
        assert forall|i: int| 0 <= i < s1.len() implies s1[i] == s2[i] by {
            if i > 0 {
                assert(s1[i] == t1[i - 1] && s2[i] == t2[i - 1]);
            }
        }
        assert(s1 =~= s2);
    }
}

/// Two search trees over the same key set have the same in-order
/// sequence. With the key-set contracts of `insert` and `delete` this
/// gives the round-trip law (inserting a fresh key and deleting it again
/// restores the in-order walk) and the agreement of the two deletion
/// policies on everything but internal shape.
pub proof fn lemma_equal_keys_equal_inorder(t1: Tree, t2: Tree)
    requires
        bst(t1),
        bst(t2),
        keys(t1) == keys(t2),
    ensures
        inorder(t1) == inorder(t2),
{
    lemma_bst_inorder_sorted(t1);
    lemma_bst_inorder_sorted(t2);
    lemma_inorder_members(t1);
    lemma_inorder_members(t2);
    lemma_sorted_unique(inorder(t1), inorder(t2));
}

/// The round-trip law: insert a fresh key into a search tree and delete
/// that key again, and the in-order walk is back where it started. The
/// hypotheses are exactly what the key-set contracts of `insert` and
/// `delete` provide for the intermediate and final trees.
pub proof fn lemma_round_trip(t0: Tree, t1: Tree, t2: Tree, k: i32)
    requires
        bst(t0),
        bst(t1),
        bst(t2),
        !keys(t0).contains(k),
        keys(t1) == keys(t0).insert(k),
        keys(t2) == keys(t1).remove(k),
    ensures
        inorder(t2) == inorder(t0),
{
    assert(keys(t2) =~= keys(t0));
    lemma_equal_keys_equal_inorder(t0, t2);
}

/// A search tree holds as many nodes as keys, so the size contracts of
/// `insert` and `delete` also count the key set.
pub proof fn lemma_size_is_key_count(t: Tree)
    requires
        bst(t),
    ensures
        keys(t).finite(),
        keys(t).len() == size(t),
    decreases t,
{
    match t {
        Tree::Leaf => {
            assert(keys(t).len() == 0);
        }
        Tree::Node(n) => {
            lemma_size_is_key_count(n.left);
            lemma_size_is_key_count(n.right);
            let kl = keys(n.left);
            let kr = keys(n.right);
            assert forall|k: i32| kl.contains(k) implies !kr.contains(k) by {
            }
            assert(kl.disjoint(kr));
            lemma_set_disjoint_lens(kl, kr);
            assert(kl.union(kr) =~= kl + kr);
            assert(kl.union(kr).len() == kl.len() + kr.len());
            assert(!kl.union(kr).contains(n.key));
            assert(keys(t) == kl.union(kr).insert(n.key));
            assert(kl.union(kr).insert(n.key).len() == kl.union(kr).len() + 1);
        }
    }
}

} // verus!
