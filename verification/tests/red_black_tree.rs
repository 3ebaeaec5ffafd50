use dsalib::red_black_tree::Color;
use dsalib::red_black_tree::RedBlackTree;

#[test]
fn mod_test_append_base() {
    let (standard, nums) = RedBlackTree::gen_data_for_test_append_base();
    let mut rbt = RedBlackTree::new();
    for n in nums {
        rbt.append(n);
    }
    assert_eq!(rbt, standard);
}

#[test]
fn test_append_change_color_once() {
    let (standard, nums) = RedBlackTree::gen_data_for_test_append_change_color_once();
    let mut rbt = RedBlackTree::new();
    for n in nums {
        rbt.append(n);
    }
    assert_eq!(rbt, standard);
}

#[test]
fn mod_test_append_ll() {
    let (standard, nums) = RedBlackTree::gen_data_for_test_append_ll();
    let mut rbt = RedBlackTree::new();
    for n in nums {
        rbt.append(n);
    }
    assert_eq!(rbt, standard);
}

#[test]
fn mod_test_append_rr() {
    let (standard, nums) = RedBlackTree::gen_data_for_test_append_rr();
    let mut rbt = RedBlackTree::new();
    for n in nums {
        rbt.append(n);
    }
    assert_eq!(rbt, standard);
}

#[test]
fn mod_test_append_lr() {
    let (standard, nums) = RedBlackTree::gen_data_for_test_append_lr();
    let mut rbt = RedBlackTree::new();
    for n in nums {
        rbt.append(n);
    }
    assert_eq!(rbt, standard);
}

#[test]
fn mod_test_append_rl() {
    let (standard, nums) = RedBlackTree::gen_data_for_test_append_rl();
    let mut rbt = RedBlackTree::new();
    for n in nums {
        rbt.append(n);
    }
    assert_eq!(rbt, standard);
}

#[test]
fn test_append_multiple_adjsut() {
    let (standard, nums) = RedBlackTree::gen_data_for_test_append_multiple_adjust();
    let mut rbt = RedBlackTree::new();
    for n in nums {
        rbt.append(n);
    }
    assert_eq!(rbt, standard);
}

#[test]
fn test_delete_node_with_a_left_child() {
    let (standard, append, delete) = RedBlackTree::gen_data_for_delete_node_with_a_left_child();
    let mut rbt = RedBlackTree::new();
    for n in append {
        rbt.append(n);
    }
    for n in delete {
        assert_eq!(rbt.delete(&n), Some(n));
    }
    assert_eq!(rbt, standard);
}

#[test]
fn test_delete_node_with_a_right_child() {
    let (standard, append, delete) = RedBlackTree::gen_data_for_delete_node_with_a_right_child();
    let mut rbt = RedBlackTree::new();
    for n in append {
        rbt.append(n);
    }
    for n in delete {
        assert_eq!(rbt.delete(&n), Some(n));
    }
    assert_eq!(rbt, standard);
}

#[test]
fn test_delete_red_without_children() {
    let (standard, append, delete) = RedBlackTree::gen_data_for_delete_red_without_children();
    let mut rbt = RedBlackTree::new();
    for n in append {
        rbt.append(n);
    }
    for n in delete {
        assert_eq!(rbt.delete(&n), Some(n));
    }
    assert_eq!(rbt, standard);
}

#[test]
fn mod_test_delete_ll() {
    let (standard, append, delete) = RedBlackTree::gen_data_for_delete_ll();
    let mut rbt = RedBlackTree::new();
    for n in append {
        rbt.append(n);
    }
    for n in delete {
        assert_eq!(rbt.delete(&n), Some(n));
    }
    assert_eq!(rbt, standard);
}

#[test]
fn mod_test_delete_rr() {
    let (standard, append, delete) = RedBlackTree::gen_data_for_delete_rr();
    let mut rbt = RedBlackTree::new();
    for n in append {
        rbt.append(n);
    }
    for n in delete {
        assert_eq!(rbt.delete(&n), Some(n));
    }
    assert_eq!(rbt, standard);
}

#[test]
fn mod_test_delete_lr() {
    let (standard, append, delete) = RedBlackTree::gen_data_for_delete_lr();
    let mut rbt = RedBlackTree::new();
    for n in append {
        rbt.append(n);
    }
    for n in delete {
        assert_eq!(rbt.delete(&n), Some(n));
    }
    assert_eq!(rbt, standard);
}

#[test]
fn mod_test_delete_rl() {
    let (standard, append, delete) = RedBlackTree::gen_data_for_delete_rl();
    let mut rbt = RedBlackTree::new();
    for n in append {
        rbt.append(n);
    }
    for n in delete {
        assert_eq!(rbt.delete(&n), Some(n));
    }
    assert_eq!(rbt, standard);
}

#[test]
fn test_delete_just_a_node() {
    let (standard, append, delete) = RedBlackTree::gen_data_for_delete_just_a_node();
    let mut rbt = RedBlackTree::new();
    for n in append {
        rbt.append(n);
    }
    for n in delete {
        assert_eq!(rbt.delete(&n), Some(n));
    }
    assert_eq!(rbt, standard);
}

#[test]
fn test_delete_black_sbling_and_black_children_and_black_parent() {
    let (mut rbt, standard, delete) =
        RedBlackTree::gen_data_for_delete_black_sbling_and_black_children_and_black_parent();
    assert_eq!(rbt.delete(&delete), Some(delete));
    assert_eq!(rbt, standard);
}

#[test]
fn test_delete_black_sbling_and_black_children_and_red_parent() {
    let (mut rbt, standard, delete) =
        RedBlackTree::gen_data_for_delete_black_sbling_and_black_children_and_red_parent();
    assert_eq!(rbt.delete(&delete), Some(delete));
    assert_eq!(rbt, standard);
}

#[test]
fn test_delete_black_sbling_and_black_children_and_root_parent() {
    let (mut rbt, standard, delete) =
        RedBlackTree::gen_data_for_delete_black_sbling_and_black_children_and_root_parent();
    assert_eq!(rbt.delete(&delete), Some(delete));
    assert_eq!(rbt, standard);
}

#[test]
fn test_delete_red_sbling() {
    let (mut rbt, standard, delete) = RedBlackTree::gen_data_for_delete_red_sbling();
    assert_eq!(rbt.delete(&delete), Some(delete));
    assert_eq!(rbt, standard);
}

#[test]
fn mod_test_delete() {
    let (mut rbt, standards, nums) = RedBlackTree::gen_data_for_delete();
    let mut index = 0;
    for n in nums {
        assert_eq!(rbt.delete(&n), Some(n));
        assert_eq!(rbt, standards[index]);
        index += 1;
    }
}

#[test]
fn test_append_then_delete_restores_empty() {
    let mut rbt = RedBlackTree::new();
    rbt.append(42);
    assert_eq!(rbt.delete(&42), Some(42));
    assert_eq!(rbt, RedBlackTree::new());
    assert_eq!(rbt.size, 0);
    assert!(rbt.root.is_none());
}

#[test]
fn test_delete_absent_leaves_tree_identical() {
    let mut rbt = RedBlackTree::new();
    for n in [8, 3, 11, 1, 5, 9, 14] {
        rbt.append(n);
    }
    let before = format!("{:?}", rbt);
    assert_eq!(rbt.delete(&4), None);
    let after = format!("{:?}", rbt);
    assert_eq!(before, after);
    assert_eq!(rbt.size, 7);
}

#[test]
fn test_append_duplicates_and_delete_each() {
    let mut rbt = RedBlackTree::new();
    for n in [5, 5, 5, 2, 9] {
        rbt.append(n);
    }
    assert_eq!(rbt.size, 5);
    assert_eq!(rbt.delete(&5), Some(5));
    assert_eq!(rbt.delete(&5), Some(5));
    assert_eq!(rbt.delete(&5), Some(5));
    assert_eq!(rbt.delete(&5), None);
    assert_eq!(rbt.size, 2);
}

#[test]
fn test_same_side_rebalance_scenario() {
    let mut rbt = RedBlackTree::new();
    rbt.append(5);
    rbt.append(1);
    rbt.append(7);
    assert_eq!(rbt.size, 3);
    let root = rbt.root.as_ref().unwrap();
    assert_eq!(root.key, 5);
    assert_eq!(root.color, Color::Black);
    assert_eq!(root.left.as_ref().unwrap().key, 1);
    assert_eq!(root.right.as_ref().unwrap().key, 7);
}

#[test]
fn test_single_root_delete_scenario() {
    let mut rbt = RedBlackTree::new();
    rbt.append(5);
    assert_eq!(rbt.size, 1);
    assert_eq!(rbt.delete(&5), Some(5));
    assert_eq!(rbt.size, 0);
    assert!(rbt.root.is_none());
}

#[test]
fn test_delete_leaf_scenario() {
    let mut rbt = RedBlackTree::new();
    rbt.append(10);
    rbt.append(20);
    assert_eq!(rbt.delete(&20), Some(20));
    assert_eq!(rbt.size, 1);
    let root = rbt.root.as_ref().unwrap();
    assert_eq!(root.key, 10);
    assert_eq!(root.color, Color::Black);
    assert!(root.left.is_none());
    assert!(root.right.is_none());
}

#[test]
fn test_root_stays_black_under_churn() {
    let mut rbt = RedBlackTree::new();
    for n in 0..64 {
        rbt.append(n * 7 % 64);
        assert_eq!(rbt.root.as_ref().unwrap().color, Color::Black);
    }
    for n in 0..64 {
        assert!(rbt.delete(&(n * 7 % 64)).is_some());
        if let Some(root) = rbt.root.as_ref() {
            assert_eq!(root.color, Color::Black);
        }
    }
    assert_eq!(rbt.size, 0);
}
