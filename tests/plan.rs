use taproot_desc::descriptor::Tr;
use taproot_desc::error::Error;
use taproot_desc::leaf::TapLeaf;
use taproot_desc::plan::{witness_size, Placeholder, Satisfaction, Witness};
use taproot_desc::tree::TapTree;
use taproot_desc::weight::control_block_len;

fn leaf(byte: u8, script_len: usize) -> TapLeaf {
    TapLeaf::new(format!("pk({})", byte), vec![byte; script_len], true, Some(2), Some(66))
}

fn two_leaves(a: TapLeaf, b: TapLeaf) -> Tr<TapLeaf> {
    Tr::new("K".to_string(), Some(TapTree::combine(TapTree::leaf(a), TapTree::leaf(b)))).unwrap()
}

fn template(sizes: &[usize], has_sig: bool, after: Option<u32>) -> Satisfaction {
    Satisfaction {
        stack: Witness::Stack(sizes.iter().map(|s| Placeholder::Item(*s)).collect()),
        has_sig,
        absolute_timelock: after,
        relative_timelock: None,
    }
}

fn unavailable() -> Satisfaction {
    Satisfaction {
        stack: Witness::Unavailable,
        has_sig: false,
        absolute_timelock: None,
        relative_timelock: None,
    }
}

fn blocks(n: usize, len: usize) -> Vec<Vec<u8>> {
    (0..n).map(|i| vec![i as u8; len]).collect()
}

#[test]
fn key_path_wins_over_any_leaf() {
    let d = two_leaves(leaf(1, 1), leaf(2, 1));
    let r = d.best_tap_spend(Some(64), vec![template(&[], false, None), template(&[], false, None)], &blocks(2, 65));
    assert_eq!(r.stack, Witness::Stack(vec![Placeholder::KeySpendSig(64)]));
    assert!(r.has_sig);
    assert_eq!(r.absolute_timelock, None);
    assert_eq!(r.relative_timelock, None);
}

#[test]
fn equal_sizes_keep_the_first_leaf() {
    let d = two_leaves(leaf(1, 10), leaf(2, 10));
    let r = d.best_tap_spend(None, vec![template(&[64], true, None), template(&[64], true, Some(7))], &blocks(2, 65));
    match r.stack {
        Witness::Stack(v) => {
            assert_eq!(v.len(), 3);
            assert_eq!(v[0], Placeholder::Item(64));
            assert_eq!(v[1], Placeholder::TapScript(vec![1; 10]));
            assert_eq!(v[2], Placeholder::TapControlBlock(vec![0; 65]));
        }
        _ => panic!("expected a witness stack"),
    }
    assert_eq!(r.absolute_timelock, None);
}

#[test]
fn smaller_later_leaf_wins() {
    let d = two_leaves(leaf(1, 10), leaf(2, 10));
    let r = d.best_tap_spend(None, vec![template(&[64, 64], true, None), template(&[64], true, Some(7))], &blocks(2, 65));
    match r.stack {
        Witness::Stack(v) => {
            assert_eq!(v.len(), 3);
            assert_eq!(v[1], Placeholder::TapScript(vec![2; 10]));
            assert_eq!(v[2], Placeholder::TapControlBlock(vec![1; 65]));
        }
        _ => panic!("expected a witness stack"),
    }
    assert_eq!(r.absolute_timelock, Some(7));
}

#[test]
fn unsatisfiable_leaves_are_skipped() {
    let d = two_leaves(leaf(1, 10), leaf(2, 10));
    let r = d.best_tap_spend(None, vec![unavailable(), template(&[64, 64, 64], true, None)], &blocks(2, 65));
    match r.stack {
        Witness::Stack(v) => assert_eq!(v[3], Placeholder::TapScript(vec![2; 10])),
        _ => panic!("expected a witness stack"),
    }
}

#[test]
fn nothing_available() {
    let d = two_leaves(leaf(1, 10), leaf(2, 10));
    let r = d.best_tap_spend(None, vec![unavailable(), unavailable()], &blocks(2, 65));
    assert_eq!(r.stack, Witness::Unavailable);
    assert!(!r.has_sig);
    let e = d.get_satisfaction(None, vec![unavailable(), unavailable()], &blocks(2, 65));
    assert_eq!(e, Err(Error::CouldNotSatisfy));
    let k: Tr<TapLeaf> = Tr::new("K".to_string(), None).unwrap();
    assert_eq!(k.plan_satisfaction(None, vec![], &vec![]).stack, Witness::Unavailable);
}

#[test]
fn control_block_at_depth_one_is_65_bytes() {
    assert_eq!(control_block_len(0), 33);
    assert_eq!(control_block_len(1), 65);
    assert_eq!(control_block_len(128), 33 + 32 * 128);
    let d = two_leaves(leaf(1, 10), leaf(2, 10));
    let cbs = vec![vec![0u8; control_block_len(1)], vec![1u8; control_block_len(1)]];
    let v = d.get_satisfaction_mall(None, vec![template(&[64], true, None), unavailable()], &cbs).unwrap();
    // count prefix 1, signature 1 + 64, script 1 + 10, control block 1 + 65
    assert_eq!(witness_size(&v), 143);
}

#[test]
fn witness_size_counts_prefixes() {
    assert_eq!(witness_size(&vec![]), 1);
    assert_eq!(witness_size(&vec![Placeholder::KeySpendSig(65)]), 67);
    assert_eq!(witness_size(&vec![Placeholder::Item(300)]), 1 + 3 + 300);
}

#[test]
fn planned_witness_within_estimate() {
    let d = two_leaves(leaf(1, 34), leaf(2, 34));
    let cbs = vec![vec![0u8; 65], vec![1u8; 65]];
    let v = d.plan_satisfaction_mall(None, vec![template(&[64], true, None), template(&[64], true, None)], &cbs);
    let bound = d.max_weight_to_satisfy().unwrap();
    match v.stack {
        Witness::Stack(v) => assert!(witness_size(&v) as u64 - 1 <= bound),
        _ => panic!("expected a witness stack"),
    }
}
