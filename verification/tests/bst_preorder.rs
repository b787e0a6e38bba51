use bst_preorder::TreeNode;
use bst_preorder::bst_from_preorder;
use bst_preorder::level_order_traversal;
use bst_preorder::preorder_traversal;

fn wrap_node(node: TreeNode) -> Option<Box<TreeNode>> {
    Some(Box::new(node))
}

#[test]
fn level_order_traversal_works() {
    let root = wrap_node(TreeNode {
        val: 1,
        left: wrap_node(TreeNode {
            val: 2,
            left: wrap_node(TreeNode::new(4)),
            right: wrap_node(TreeNode::new(5)),
        }),
        right: wrap_node(TreeNode {
            val: 3,
            left: wrap_node(TreeNode::new(6)),
            right: wrap_node(TreeNode::new(7)),
        }),
    });
    assert_eq!(
        level_order_traversal(root),
        vec![
            Some(1),
            Some(2),
            Some(3),
            Some(4),
            Some(5),
            Some(6),
            Some(7)
        ]
    );
}

#[test]
fn level_order_traversal_deals_with_none() {
    let root = wrap_node(TreeNode {
        val: 1,
        left: wrap_node(TreeNode {
            val: 2,
            left: wrap_node(TreeNode::new(4)),
            right: wrap_node(TreeNode::new(5)),
        }),
        right: wrap_node(TreeNode {
            val: 3,
            left: None,
            right: wrap_node(TreeNode::new(7)),
        }),
    });
    assert_eq!(
        level_order_traversal(root),
        vec![Some(1), Some(2), Some(3), Some(4), Some(5), None, Some(7)]
    );
}

#[test]
fn it_actually_does_things() {
    let preorder = vec![8, 5, 1, 7, 10, 12];
    let node = bst_from_preorder(preorder);
    let expected_output = vec![Some(8), Some(5), Some(10), Some(1), Some(7), None, Some(12)];

    assert_eq!(expected_output, level_order_traversal(node));
}

#[test]
fn second_test_works() {
    let preorder = vec![1, 3];
    let node = bst_from_preorder(preorder);
    let expected_output = vec![Some(1), None, Some(3)];

    assert_eq!(expected_output, level_order_traversal(node))
}

#[test]
fn third_test_works() {
    let preorder = vec![2, 8, 6, 19];
    let node = bst_from_preorder(preorder);
    let expected_output = vec![Some(2), None, Some(8), Some(6), Some(19)];

    assert_eq!(expected_output, level_order_traversal(node))
}

#[test]
fn fourth_test_works() {
    let preorder = vec![19, 4, 8, 11];
    let node = bst_from_preorder(preorder);
    let expected_output = vec![Some(19), Some(4), None, None, Some(8), None, Some(11)];

    assert_eq!(expected_output, level_order_traversal(node))
}

#[test]
fn round_trip_reproduces_the_preorder() {
    for preorder in [
        vec![8, 5, 1, 7, 10, 12],
        vec![1, 3],
        vec![2, 8, 6, 19],
        vec![19, 4, 8, 11],
        vec![7],
        vec![5, 4, 3, 2, 1],
        vec![1, 2, 3],
    ] {
        let node = bst_from_preorder(preorder.clone());
        assert_eq!(preorder_traversal(&node), preorder);
    }
}

#[test]
fn empty_input_builds_empty_tree() {
    assert!(bst_from_preorder(vec![]).is_none());
}

#[test]
fn empty_tree_prints_empty_sequence() {
    let expected: Vec<Option<i32>> = vec![];
    assert_eq!(level_order_traversal(None), expected);
}

#[test]
fn leaf_prints_no_markers_for_its_children() {
    assert_eq!(
        level_order_traversal(wrap_node(TreeNode::new(42))),
        vec![Some(42)]
    );
}

#[test]
fn single_value_round_trips() {
    let node = bst_from_preorder(vec![7]);
    assert_eq!(preorder_traversal(&node), vec![7]);
    assert_eq!(level_order_traversal(node), vec![Some(7)]);
}

#[test]
fn descending_input_builds_left_spine() {
    let node = bst_from_preorder(vec![5, 4, 3, 2, 1]);
    assert_eq!(
        level_order_traversal(node),
        vec![
            Some(5),
            Some(4),
            None,
            Some(3),
            None,
            Some(2),
            None,
            Some(1),
            None
        ]
    );
}

#[test]
fn ascending_input_builds_right_spine() {
    let node = bst_from_preorder(vec![1, 2, 3]);
    assert_eq!(
        level_order_traversal(node),
        vec![Some(1), None, Some(2), None, Some(3)]
    );
}

#[test]
fn extreme_values_are_placed() {
    let node = bst_from_preorder(vec![0, i32::MIN, i32::MAX]);
    assert_eq!(preorder_traversal(&node), vec![0, i32::MIN, i32::MAX]);
    assert_eq!(
        level_order_traversal(node),
        vec![Some(0), Some(i32::MIN), Some(i32::MAX)]
    );
}
