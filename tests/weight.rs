use taproot_desc::descriptor::Tr;
use taproot_desc::error::Error;
use taproot_desc::leaf::TapLeaf;
use taproot_desc::tree::TapTree;
use taproot_desc::weight::varint_len;

fn leaf(script_len: usize, elems: Option<usize>, size: Option<usize>) -> TapLeaf {
    TapLeaf::new("pk(A)".to_string(), vec![0x20; script_len], true, elems, size)
}

#[test]
fn key_only_bound() {
    let d: Tr<TapLeaf> = Tr::new("K".to_string(), None).unwrap();
    assert_eq!(d.max_weight_to_satisfy(), Ok(66));
    assert_eq!(d.max_satisfaction_weight(), Ok(71));
}

#[test]
fn script_bound_is_the_largest_leaf() {
    let t = TapTree::combine(
        TapTree::leaf(leaf(34, Some(2), Some(66))),
        TapTree::leaf(leaf(10, Some(2), Some(66))),
    );
    let d = Tr::new("K".to_string(), Some(t)).unwrap();
    // 0 + 66 + (1 + 34) + (1 + 65)
    assert_eq!(d.max_weight_to_satisfy(), Ok(167));
    // 4 + 1 + 66 + (1 + 34) + (1 + 65)
    assert_eq!(d.max_satisfaction_weight(), Ok(172));
}

#[test]
fn unsatisfiable_leaves_leave_the_key_path_bound() {
    let t = TapTree::combine(TapTree::leaf(leaf(34, None, Some(66))), TapTree::leaf(leaf(10, Some(2), None)));
    let d = Tr::new("K".to_string(), Some(t)).unwrap();
    // the key path remains, so the bound is the key-path bound
    assert_eq!(d.max_weight_to_satisfy(), Ok(66));
    assert_eq!(d.max_satisfaction_weight(), Err(Error::ImpossibleSatisfaction));
}

#[test]
fn deep_leaf_costs_more() {
    let t = TapTree::combine(
        TapTree::leaf(leaf(1, Some(1), Some(1))),
        TapTree::combine(TapTree::leaf(leaf(1, Some(1), Some(1))), TapTree::leaf(leaf(1, Some(1), Some(1)))),
    );
    let d = Tr::new("K".to_string(), Some(t)).unwrap();
    // 0 + 1 + (1 + 1) + (1 + 97)
    assert_eq!(d.max_weight_to_satisfy(), Ok(101));
}

#[test]
fn varint_lengths() {
    assert_eq!(varint_len(0), 1);
    assert_eq!(varint_len(252), 1);
    assert_eq!(varint_len(253), 3);
    assert_eq!(varint_len(0xffff), 3);
    assert_eq!(varint_len(0x10000), 5);
    assert_eq!(varint_len(0x1_0000_0000), 9);
}

#[test]
fn non_top_level_leaf_is_reported() {
    let bad = TapLeaf::new("v:pk(A)".to_string(), vec![1], false, Some(1), Some(1));
    let t = TapTree::combine(TapTree::leaf(leaf(1, Some(1), Some(1))), TapTree::leaf(bad));
    let d = Tr::new("K".to_string(), Some(t)).unwrap();
    assert_eq!(d.check_top_level(), Err(Error::NonTopLevel("v:pk(A)".to_string())));
    let good: Tr<TapLeaf> = Tr::new("K".to_string(), Some(TapTree::leaf(leaf(1, Some(1), Some(1))))).unwrap();
    assert_eq!(good.check_top_level(), Ok(()));
}

#[test]
fn tree_bound_covers_the_key_path() {
    let t = TapTree::leaf(leaf(0, Some(1), Some(0)));
    let d = Tr::new("K".to_string(), Some(t)).unwrap();
    // the leaf alone needs 0 + 0 + (1 + 0) + (1 + 33) = 35, the key path 66
    assert_eq!(d.max_weight_to_satisfy(), Ok(66));
}
