use vstd::prelude::*;

use crate::tree::{TreeNode, node_count, preorder_of};

verus! {

/// Whether `t` holds a node with no children at all.
pub open spec fn is_leaf(t: Option<Box<TreeNode>>) -> bool {
    match t {
        Some(n) => n.left is None && n.right is None,
        None => false,
    }
}

/// The value a queue entry contributes to the level-order output: the node's
/// value when one is present, a null marker otherwise.
pub open spec fn entry_value(t: Option<Box<TreeNode>>) -> Option<i32> {
    match t {
        Some(n) => Some(n.val),
        None => None,
    }
}

/// Total node count across a queue of pending subtrees.
pub open spec fn queue_count(q: Seq<Option<Box<TreeNode>>>) -> nat
    decreases q.len(),
{
    if q.len() == 0 {
        0
    } else {
        node_count(q[0]) + queue_count(q.drop_first())
    }
}

proof fn lemma_queue_count_push(q: Seq<Option<Box<TreeNode>>>, t: Option<Box<TreeNode>>)
    ensures
        queue_count(q.push(t)) == queue_count(q) + node_count(t),
    decreases q.len(),
{
    if q.len() == 0 {
        assert(q.push(t)[0] == t);
        assert(q.push(t).drop_first() =~= Seq::<Option<Box<TreeNode>>>::empty());
        assert(queue_count(q.push(t).drop_first()) == 0);
        assert(queue_count(q.push(t)) == node_count(t) + queue_count(q.push(t).drop_first()));
        assert(queue_count(q) == 0);
    } else {
        assert(q.push(t).drop_first() =~= q.drop_first().push(t));
        lemma_queue_count_push(q.drop_first(), t);
        assert(q.push(t)[0] == q[0]);
        assert(queue_count(q.push(t)) == node_count(q[0]) + queue_count(q.push(t).drop_first()));
        assert(queue_count(q) == node_count(q[0]) + queue_count(q.drop_first()));
    }
}

/// The breadth-first output produced from a queue of pending entries. An
/// absent entry yields one null marker. A present entry yields its value and,
/// unless it is a leaf, enqueues both of its child references, each possibly
/// absent; a leaf enqueues nothing.
pub open spec fn level_order_from(q: Seq<Option<Box<TreeNode>>>) -> Seq<Option<i32>>
    decreases queue_count(q), q.len(),
    via level_order_from_decreases
{
    if q.len() == 0 {
        Seq::empty()
    } else {
        let tail = match q[0] {
            Some(n) => if n.left is Some || n.right is Some {
                q.drop_first().push(n.left).push(n.right)
            } else {
                q.drop_first()
            },
            None => q.drop_first(),
        };
        seq![entry_value(q[0])] + level_order_from(tail)
    }
}

#[via_fn]
proof fn level_order_from_decreases(q: Seq<Option<Box<TreeNode>>>) {
    if q.len() > 0 {
        match q[0] {
            Some(n) => {
                if n.left is Some || n.right is Some {
                    lemma_queue_count_push(q.drop_first(), n.left);
                    lemma_queue_count_push(q.drop_first().push(n.left), n.right);
                }
            },
            None => {
            },
        }
    }
}

/// The level-order view of the tree rooted at `t`: the queue starts out
/// holding the root when one is present. An empty tree has an empty view —
/// null markers stand for missing children, and an absent root is no child.
pub open spec fn level_order_of(t: Option<Box<TreeNode>>) -> Seq<Option<i32>> {
    match t {
        None => Seq::empty(),
        Some(_) => level_order_from(seq![t]),
    }
}

/// Gap termination: a leaf at the front of the queue contributes its own
/// value and nothing else; no null markers for its absent children ever
/// enter the output.
pub proof fn lemma_leaf_adds_no_markers(q: Seq<Option<Box<TreeNode>>>)
    requires
        q.len() > 0,
        is_leaf(q[0]),
    ensures
        level_order_from(q) == seq![entry_value(q[0])] + level_order_from(q.drop_first()),
{
}

/// Breadth-first traversal of the tree rooted at `root`, with an explicit
/// null marker for every absent reference that a present parent enqueued; an
/// empty tree yields an empty output.
pub fn level_order_traversal(root: Option<Box<TreeNode>>) -> (out: Vec<Option<i32>>)
    ensures
        out@ == level_order_of(root),
{
    if root.is_none() {
        return Vec::new();
    }
    let ghost whole = root;
    let mut queue: Vec<Option<Box<TreeNode>>> = Vec::new();
    let mut acc: Vec<Option<i32>> = Vec::new();
    queue.push(root);
    proof {
        assert(queue@ =~= seq![whole]);
        assert(acc@ + level_order_from(queue@) =~= level_order_of(whole));
    }
    while queue.len() > 0
        invariant
            acc@ + level_order_from(queue@) == level_order_of(whole),
        decreases queue_count(queue@), queue@.len(),
    {
        let ghost q0 = queue@;
        let entry = queue.remove(0);
        proof {
            assert(queue@ =~= q0.drop_first());
        }
        match entry {
            None => {
                acc.push(None);
                proof {
                    assert(acc@ + level_order_from(queue@) =~= level_order_of(whole));
                }
            },
            Some(boxed) => {
                let node = *boxed;
                acc.push(Some(node.val));
                if node.left.is_some() || node.right.is_some() {
                    let ghost nl = node.left;
                    let ghost nr = node.right;
                    queue.push(node.left);
                    queue.push(node.right);
                    proof {
                        lemma_queue_count_push(q0.drop_first(), nl);
                        lemma_queue_count_push(q0.drop_first().push(nl), nr);
                        assert(queue@ == q0.drop_first().push(nl).push(nr));
                        assert(acc@ + level_order_from(queue@) =~= level_order_of(whole));
                    }
                } else {
                    proof {
                        assert(acc@ + level_order_from(queue@) =~= level_order_of(whole));
                    }
                }
            },
        }
    }
    acc
}

/// The preorder traversal of the tree rooted at `root`, eagerly collected:
/// each node's value before its left subtree, the whole left subtree before
/// the right one.
pub fn preorder_traversal(root: &Option<Box<TreeNode>>) -> (out: Vec<i32>)
    ensures
        out@ == preorder_of(*root),
    decreases root,
{
    match root {
        None => Vec::new(),
        Some(boxed) => {
            let mut out: Vec<i32> = Vec::new();
            out.push(boxed.val);
            let mut l = preorder_traversal(&boxed.left);
            out.append(&mut l);
            let mut r = preorder_traversal(&boxed.right);
            out.append(&mut r);
            proof {
                assert(out@ =~= seq![boxed.val] + preorder_of(boxed.left) + preorder_of(
                    boxed.right,
                ));
            }
            out
        },
    }
}

} // verus!
