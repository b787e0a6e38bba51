use vstd::prelude::*;

verus! {

/// One element of a binary search tree. A node owns its children outright; an
/// absent child is `None`.
#[derive(Debug, PartialEq, Eq)]
pub struct TreeNode {
    pub val: i32,
    pub left: Option<Box<TreeNode>>,
    pub right: Option<Box<TreeNode>>,
}

impl TreeNode {
    /// A node with the given value and no children.
    #[inline]
    pub fn new(val: i32) -> (node: Self)
        ensures
            node.val == val,
            node.left is None,
            node.right is None,
    {
        TreeNode { val, left: None, right: None }
    }
}

/// Whether `v` lies strictly inside the open range `(lo, hi)`; an absent
/// bound is no bound at all.
pub open spec fn in_open_range(v: i32, lo: Option<i32>, hi: Option<i32>) -> bool {
    &&& (match lo {
        Some(m) => v > m,
        None => true,
    })
    &&& (match hi {
        Some(m) => v < m,
        None => true,
    })
}

/// The preorder traversal of the tree rooted at `t`: each node's value before
/// its left subtree, the whole left subtree before the right one.
pub open spec fn preorder_of(t: Option<Box<TreeNode>>) -> Seq<i32>
    decreases t,
{
    match t {
        None => Seq::empty(),
        Some(n) => seq![n.val] + preorder_of(n.left) + preorder_of(n.right),
    }
}

/// The number of nodes in the tree rooted at `t`.
pub open spec fn node_count(t: Option<Box<TreeNode>>) -> nat
    decreases t,
{
    match t {
        None => 0,
        Some(n) => 1 + node_count(n.left) + node_count(n.right),
    }
}

/// The tree rooted at `t` is a strict binary search tree all of whose values
/// lie in the open range `(lo, hi)`: each node bounds its left subtree from
/// above and its right subtree from below.
pub open spec fn bst_in_range(t: Option<Box<TreeNode>>, lo: Option<i32>, hi: Option<i32>) -> bool
    decreases t,
{
    match t {
        None => true,
        Some(n) => {
            &&& in_open_range(n.val, lo, hi)
            &&& bst_in_range(n.left, lo, Some(n.val))
            &&& bst_in_range(n.right, Some(n.val), hi)
        },
    }
}

pub open spec fn all_below(s: Seq<i32>, v: i32) -> bool {
    forall|i: int| 0 <= i < s.len() ==> s[i] < v
}

pub open spec fn all_above(s: Seq<i32>, v: i32) -> bool {
    forall|i: int| 0 <= i < s.len() ==> s[i] > v
}

pub open spec fn all_in_open_range(s: Seq<i32>, lo: Option<i32>, hi: Option<i32>) -> bool {
    forall|i: int| 0 <= i < s.len() ==> in_open_range(s[i], lo, hi)
}

/// The strict BST property stated node by node: at every node of the tree,
/// every value in the left subtree is strictly below the node's value and
/// every value in the right subtree strictly above it.
pub open spec fn strict_bst(t: Option<Box<TreeNode>>) -> bool
    decreases t,
{
    match t {
        None => true,
        Some(n) => {
            &&& all_below(preorder_of(n.left), n.val)
            &&& all_above(preorder_of(n.right), n.val)
            &&& strict_bst(n.left)
            &&& strict_bst(n.right)
        },
    }
}

/// `s` is the preorder traversal of some strict binary search tree.
pub open spec fn valid_preorder(s: Seq<i32>) -> bool {
    exists|t: Option<Box<TreeNode>>| bst_in_range(t, None, None) && #[trigger] preorder_of(t) == s
}

/// A tree's preorder traversal lists one value for each of its nodes: a tree
/// whose preorder is some sequence places every value of that sequence in
/// exactly one node.
pub proof fn lemma_preorder_lists_every_node(t: Option<Box<TreeNode>>)
    ensures
        preorder_of(t).len() == node_count(t),
    decreases t,
{
    match t {
        None => {
        }
        Some(n) => {
            lemma_preorder_lists_every_node(n.left);
            lemma_preorder_lists_every_node(n.right);
        }
    }
}

/// BST invariant: a tree that respects its open range bounds is a strict
/// binary search tree, and every one of its values lies inside the range.
pub proof fn lemma_bst_in_range_is_strict(t: Option<Box<TreeNode>>, lo: Option<i32>, hi: Option<i32>)
    requires
        bst_in_range(t, lo, hi),
    ensures
        strict_bst(t),
        all_in_open_range(preorder_of(t), lo, hi),
    decreases t,
{
    match t {
        None => {
        }
        Some(n) => {
            lemma_bst_in_range_is_strict(n.left, lo, Some(n.val));
            lemma_bst_in_range_is_strict(n.right, Some(n.val), hi);
            let l = preorder_of(n.left);
            let r = preorder_of(n.right);
            assert forall|i: int| 0 <= i < preorder_of(t).len() implies in_open_range(
                #[trigger] preorder_of(t)[i],
                lo,
                hi,
            ) by {
                if i == 0 {
                    assert(preorder_of(t)[0] == n.val);
                } else if i <= l.len() {
                    assert(preorder_of(t)[i] == l[i - 1]);
                    assert(in_open_range(l[i - 1], lo, Some(n.val)));
                } else {
                    assert(preorder_of(t)[i] == r[i - 1 - l.len()]);
                    assert(in_open_range(r[i - 1 - l.len()], Some(n.val), hi));
                }
            }
            assert(all_below(l, n.val));
            assert(all_above(r, n.val));
        }
    }
}

} // verus!
