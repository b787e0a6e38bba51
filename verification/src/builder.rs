use vstd::prelude::*;

use crate::tree::{TreeNode, bst_in_range, in_open_range, preorder_of, valid_preorder};

verus! {

/// Whether `value` lies strictly inside the open range `(*min, *max)`; an
/// absent bound is no bound at all.
#[inline]
fn is_between(value: i32, min: &Option<i32>, max: &Option<i32>) -> (r: bool)
    ensures
        r == in_open_range(value, *min, *max),
{
    (match min {
        Some(m) => value > *m,
        None => true,
    }) && (match max {
        Some(m) => value < *m,
        None => true,
    })
}

/// The tree `t` is what a range-constrained reconstruction must produce from
/// the front of `s`: `t` is a BST inside `(lo, hi)`, its preorder is a prefix
/// of `s`, and the remainder `rest` starts with a value outside the range, so
/// consumption stops exactly there. An empty tree fits only an empty
/// remainder, since the builder always consumes the value in front of it.
spec fn fits_at(
    s: Seq<i32>,
    t: Option<Box<TreeNode>>,
    rest: Seq<i32>,
    lo: Option<i32>,
    hi: Option<i32>,
) -> bool {
    &&& bst_in_range(t, lo, hi)
    &&& s == preorder_of(t) + rest
    &&& (rest.len() > 0 ==> !in_open_range(rest[0], lo, hi))
    &&& (t is None ==> rest.len() == 0)
}

/// Concatenation of sequences is associative.
proof fn lemma_add_assoc(a: Seq<i32>, b: Seq<i32>, c: Seq<i32>)
    ensures
        (a + b) + c == a + (b + c),
{
    assert((a + b) + c =~= a + (b + c));
}

/// Whatever stands after the first `a.len()` values of `p`'s tail from
/// `start` is exactly `b`, once that tail is known to be `a + b`.
proof fn lemma_split_tail(p: Seq<i32>, start: int, a: Seq<i32>, b: Seq<i32>)
    requires
        0 <= start <= p.len(),
        p.subrange(start, p.len() as int) == a + b,
    ensures
        p.subrange(start + a.len(), p.len() as int) == b,
{
    let len = p.len() as int;
    let s = p.subrange(start, len);
    assert(s.len() == a.len() + b.len());
    assert forall|i: int| 0 <= i < b.len() implies p.subrange(start + a.len(), len)[i] == b[i] by {
        assert(p.subrange(start + a.len(), len)[i] == p[start + a.len() + i]);
        assert(s[a.len() + i] == p[start + a.len() + i]);
        assert(s[a.len() + i] == (a + b)[a.len() + i]);
    }
    assert(p.subrange(start + a.len(), len) =~= b);
}

/// One step of the reconstruction: consume the value at `start` as the current
/// node, then hand the following values to a left child while they stay below
/// it, and to a right child while they stay above it, never leaving the open
/// range `(lo, hi)`. Returns the subtree built and the position of the first
/// value it did not consume.
fn build_in_range(preorder: &Vec<i32>, start: usize, lo: Option<i32>, hi: Option<i32>) -> (r: (
    Option<Box<TreeNode>>,
    usize,
))
    requires
        start <= preorder@.len(),
    ensures
        start <= r.1 <= preorder@.len(),
        r.0 is Some <==> start < preorder@.len(),
        start < preorder@.len() ==> (r.0 matches Some(bn) && bn.val == preorder@[start as int]),
        forall|t: Option<Box<TreeNode>>, rest: Seq<i32>|
            #[trigger] fits_at(
                preorder@.subrange(start as int, preorder@.len() as int),
                t,
                rest,
                lo,
                hi,
            ) ==> r.0 == t && r.1 == start + preorder_of(t).len(),
    decreases preorder@.len() - start,
{
    let ghost s = preorder@.subrange(start as int, preorder@.len() as int);
    if start >= preorder.len() {
        proof {
            assert forall|t: Option<Box<TreeNode>>, rest: Seq<i32>|
                #[trigger] fits_at(s, t, rest, lo, hi) implies None::<Box<TreeNode>> == t && start
                == start + preorder_of(t).len() by {
                assert(s.len() == 0);
                match t {
                    Some(n) => {
                        // a present node would make the preorder nonempty
                        assert(preorder_of(t) == seq![n.val] + preorder_of(n.left) + preorder_of(
                            n.right,
                        ));
                        assert(preorder_of(t).len() >= 1);
                    },
                    None => {},
                }
            }
        }
        return (None, start);
    }
    let head = preorder[start];
    let mut node = TreeNode::new(head);
    let mut pos: usize = start + 1;
    if pos < preorder.len() {
        let next = preorder[pos];
        if is_between(next, &lo, &hi) {
            if next > head {
                let (child, end) = build_in_range(preorder, pos, Some(head), hi);
                node.right = child;
                pos = end;
            } else {
                let (child, end) = build_in_range(preorder, pos, lo, Some(head));
                node.left = child;
                pos = end;
            }
        }
    }
    let ghost mid = pos as int;
    let ghost left_after = node.left;
    let ghost right_after = node.right;
    if pos < preorder.len() {
        let next = preorder[pos];
        if is_between(next, &lo, &hi) && next > head {
            let (child, end) = build_in_range(preorder, pos, Some(head), hi);
            node.right = child;
            pos = end;
        }
    }
    proof {
        let len = preorder@.len() as int;
        assert forall|t: Option<Box<TreeNode>>, rest: Seq<i32>|
            #[trigger] fits_at(s, t, rest, lo, hi) implies (match t {
            Some(bn) => *bn == node,
            None => false,
        }) && pos == start + preorder_of(t).len() by {
            match t {
                None => {
                    assert(rest.len() == 0);
                    assert(s.len() == 0);
                    assert(s.len() == len - start);
                },
                Some(bn) => {
                    let n = *bn;
                    let l = preorder_of(n.left);
                    let rt = preorder_of(n.right);
                    assert(preorder_of(t) == seq![n.val] + l + rt);
                    assert(s[0] == n.val);
                    assert(s[0] == preorder@[start as int]);
                    assert(n.val == head);
                    assert(in_open_range(n.val, lo, hi));
                    assert(bst_in_range(n.left, lo, Some(n.val)));
                    assert(bst_in_range(n.right, Some(n.val), hi));
                    assert(s.len() == 1 + l.len() + rt.len() + rest.len());
                    match n.left {
                        Some(lb) => {
                            // the next value opens the left subtree
                            assert(l == seq![lb.val] + preorder_of(lb.left) + preorder_of(
                                lb.right,
                            ));
                            assert(l[0] == lb.val);
                            assert(in_open_range(lb.val, lo, Some(n.val)));
                            assert(s[1] == l[0]);
                            assert(s[1] == preorder@[start + 1]);
                            assert(in_open_range(lb.val, lo, hi));
                            assert(!(lb.val > head));
                            // the left recursion rebuilt exactly the left subtree
                            lemma_add_assoc(seq![n.val] + l, rt, rest);
                            lemma_add_assoc(seq![n.val], l, rt + rest);
                            lemma_split_tail(preorder@, start as int, seq![n.val], l + (rt + rest));
                            assert(preorder@.subrange(start + 1, len) == l + (rt + rest));
                            assert((rt + rest).len() > 0 ==> !in_open_range(
                                (rt + rest)[0],
                                lo,
                                Some(head),
                            )) by {
                                match n.right {
                                    Some(rb) => {
                                        assert(rt == seq![rb.val] + preorder_of(rb.left)
                                            + preorder_of(rb.right));
                                        assert((rt + rest)[0] == rb.val);
                                        assert(in_open_range(rb.val, Some(n.val), hi));
                                    },
                                    None => {
                                        if rest.len() > 0 {
                                            assert((rt + rest)[0] == rest[0]);
                                            assert(!in_open_range(rest[0], lo, hi));
                                        }
                                    },
                                }
                            }
                            assert(fits_at(
                                preorder@.subrange(start + 1, len),
                                n.left,
                                rt + rest,
                                lo,
                                Some(head),
                            ));
                            assert(left_after == n.left);
                            assert(mid == start + 1 + l.len());
                            assert(right_after is None);
                            // then the right subtree, if any, follows at mid
                            match n.right {
                                Some(rb) => {
                                    assert(rt == seq![rb.val] + preorder_of(rb.left) + preorder_of(
                                        rb.right,
                                    ));
                                    assert(rt[0] == rb.val);
                                    assert(in_open_range(rb.val, Some(n.val), hi));
                                    assert(mid - start < s.len());
                                    assert(s[mid - start] == rt[0]);
                                    assert(preorder@[mid] == s[mid - start]);
                                    assert(in_open_range(rb.val, lo, hi));
                                    lemma_split_tail(preorder@, start + 1, l, rt + rest);
                                    assert(preorder@.subrange(mid, len) == rt + rest);
                                    assert(rest.len() > 0 ==> !in_open_range(
                                        rest[0],
                                        Some(head),
                                        hi,
                                    ));
                                    assert(fits_at(
                                        preorder@.subrange(mid, len),
                                        n.right,
                                        rest,
                                        Some(head),
                                        hi,
                                    ));
                                    assert(node.right == n.right);
                                    assert(pos == mid + rt.len());
                                },
                                None => {
                                    if mid < len {
                                        assert(mid - start < s.len());
                                        assert(s[mid - start] == rest[0]);
                                        assert(preorder@[mid] == s[mid - start]);
                                        assert(!in_open_range(preorder@[mid], lo, hi));
                                    }
                                    assert(node.right == right_after);
                                    assert(pos == mid);
                                },
                            }
                            assert(node.left == n.left);
                            assert(pos == start + preorder_of(t).len());
                        },
                        None => {
                            assert(l.len() == 0);
                            match n.right {
                                Some(rb) => {
                                    // the next value opens the right subtree at once
                                    assert(rt == seq![rb.val] + preorder_of(rb.left) + preorder_of(
                                        rb.right,
                                    ));
                                    assert(rt[0] == rb.val);
                                    assert(in_open_range(rb.val, Some(n.val), hi));
                                    assert(s[1] == rt[0]);
                                    assert(s[1] == preorder@[start + 1]);
                                    assert(in_open_range(rb.val, lo, hi));
                                    assert(rb.val > head);
                                    assert(seq![n.val] + l =~= seq![n.val]);
                                    lemma_add_assoc(seq![n.val], rt, rest);
                                    lemma_split_tail(preorder@, start as int, seq![n.val], rt + rest);
                                    assert(preorder@.subrange(start + 1, len) == rt + rest);
                                    assert(rest.len() > 0 ==> !in_open_range(
                                        rest[0],
                                        Some(head),
                                        hi,
                                    ));
                                    assert(fits_at(
                                        preorder@.subrange(start + 1, len),
                                        n.right,
                                        rest,
                                        Some(head),
                                        hi,
                                    ));
                                    assert(right_after == n.right);
                                    assert(mid == start + 1 + rt.len());
                                    assert(left_after is None);
                                    // nothing in range is left for a second right child
                                    if mid < len {
                                        assert(mid - start < s.len());
                                        assert(s[mid - start] == rest[0]);
                                        assert(preorder@[mid] == s[mid - start]);
                                        assert(!in_open_range(preorder@[mid], lo, hi));
                                    }
                                    assert(node.right == n.right);
                                    assert(node.left == n.left);
                                    assert(pos == start + preorder_of(t).len());
                                },
                                None => {
                                    // a leaf: whatever follows is out of range
                                    assert(rt.len() == 0);
                                    if start + 1 < len {
                                        assert(s[1] == rest[0]);
                                        assert(s[1] == preorder@[start + 1]);
                                        assert(!in_open_range(preorder@[start + 1], lo, hi));
                                    }
                                    assert(mid == start + 1);
                                    assert(left_after is None);
                                    assert(right_after is None);
                                    assert(node.left == n.left);
                                    assert(node.right == n.right);
                                    assert(pos == start + preorder_of(t).len());
                                },
                            }
                        },
                    }
                    assert(node.val == n.val);
                    assert(node == n);
                },
            }
        }
    }
    (Some(Box::new(node)), pos)
}

/// Rebuilds the unique strict binary search tree whose preorder traversal is
/// `preorder`, by consuming the sequence from the front under narrowing open
/// range constraints; the root is built with no bounds at all. An empty input
/// yields an empty tree. An input that is not a genuine BST preorder still
/// yields some tree, with nothing promised of its shape.
pub fn bst_from_preorder(preorder: Vec<i32>) -> (r: Option<Box<TreeNode>>)
    ensures
        r is Some <==> preorder@.len() > 0,
        preorder@.len() > 0 ==> (r matches Some(n) && n.val == preorder@[0]),
        forall|t: Option<Box<TreeNode>>| bst_in_range(t, None, None) && #[trigger] preorder_of(t)
            == preorder@ ==> r == t,
        valid_preorder(preorder@) ==> bst_in_range(r, None, None) && preorder_of(r) == preorder@,
{
    let (root, _) = build_in_range(&preorder, 0, None, None);
    proof {
        let len = preorder@.len() as int;
        assert forall|t: Option<Box<TreeNode>>|
            bst_in_range(t, None, None) && #[trigger] preorder_of(t) == preorder@ implies root
            == t by {
            assert(preorder@.subrange(0, len) =~= preorder_of(t) + Seq::<i32>::empty());
            assert(fits_at(
                preorder@.subrange(0, len),
                t,
                Seq::<i32>::empty(),
                None,
                None,
            ));
        }
        if valid_preorder(preorder@) {
            let t = choose|t: Option<Box<TreeNode>>|
                bst_in_range(t, None, None) && #[trigger] preorder_of(t) == preorder@;
            assert(root == t);
        }
    }
    root
}

} // verus!
