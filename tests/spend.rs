use taproot_desc::descriptor::Tr;
use taproot_desc::leaf::TapLeaf;
use taproot_desc::plan::{witness_size, Placeholder, Satisfaction, Witness};
use taproot_desc::tree::TapTree;

const G: &str = "79be667ef9dcbbac55a06295ce870b07029bfcdb2dce28d959f2815b16f81798";

fn leaf(byte: u8) -> TapLeaf {
    TapLeaf::new("pk(A)".to_string(), vec![byte, 0xac], true, Some(2), Some(66))
}

#[test]
fn key_spend_info() {
    let d: Tr<TapLeaf> = Tr::new(G.to_string(), None).unwrap();
    let info = d.spend_info().unwrap();
    assert_eq!(info.output_key.len(), 32);
    assert_eq!(info.merkle_root, None);
    assert!(info.control_blocks.is_empty());
    let spk = info.script_pubkey();
    assert_eq!(spk.len(), 34);
    assert_eq!(&spk[..2], &[0x51, 0x20]);
    assert_eq!(&spk[2..], &info.output_key[..]);
    // the output key is tweaked, not the internal key
    assert_ne!(info.output_key, (0..32).map(|i| u8::from_str_radix(&G[2 * i..2 * i + 2], 16).unwrap()).collect::<Vec<u8>>());
}

#[test]
fn two_leaf_control_blocks() {
    let t = TapTree::combine(TapTree::leaf(leaf(1)), TapTree::leaf(leaf(2)));
    let d = Tr::new(G.to_string(), Some(t)).unwrap();
    let info = d.spend_info().unwrap();
    assert_eq!(info.control_blocks.len(), 2);
    assert_eq!(info.control_blocks[0].len(), 65);
    assert_eq!(info.control_blocks[1].len(), 65);
    assert_eq!(info.merkle_root.as_ref().map(|m| m.len()), Some(32));
}

#[test]
fn deeper_leaf_has_longer_control_block() {
    let t = TapTree::combine(
        TapTree::leaf(leaf(1)),
        TapTree::combine(TapTree::leaf(leaf(2)), TapTree::leaf(leaf(3))),
    );
    let d = Tr::new(G.to_string(), Some(t)).unwrap();
    let info = d.spend_info().unwrap();
    let lens: Vec<usize> = info.control_blocks.iter().map(|c| c.len()).collect();
    assert_eq!(lens, vec![65, 97, 97]);
}

#[test]
fn text_key_has_no_spend_info() {
    let d: Tr<TapLeaf> = Tr::new("K".to_string(), None).unwrap();
    assert!(d.spend_info().is_none());
}

#[test]
fn address_on_mainnet() {
    let d: Tr<TapLeaf> = Tr::new(G.to_string(), None).unwrap();
    let info = d.spend_info().unwrap();
    let a = info.address(0);
    assert!(a.starts_with("bc1p"));
    assert_eq!(a.len(), 62);
    let t = info.address(1);
    assert!(t.starts_with("tb1p"));
}

#[test]
fn cached_spend_info_is_stable() {
    let t = TapTree::combine(TapTree::leaf(leaf(1)), TapTree::leaf(leaf(2)));
    let d = Tr::new(G.to_string(), Some(t)).unwrap();
    let direct = d.spend_info().unwrap();
    let c = taproot_desc::cache::CachedTr::new(d);
    let first = c.spend_info().unwrap();
    let second = c.spend_info().unwrap();
    assert_eq!(first.output_key, second.output_key);
    assert_eq!(first.control_blocks, second.control_blocks);
    assert_eq!(first.output_key, direct.output_key);
    assert_eq!(first.merkle_root, direct.merkle_root);
    assert_eq!(c.descriptor().internal_key(), G);
}

#[test]
fn cached_spend_info_of_text_key_is_none() {
    let d: Tr<TapLeaf> = Tr::new("K".to_string(), None).unwrap();
    let c = taproot_desc::cache::CachedTr::new(d);
    assert!(c.spend_info().is_none());
    assert!(c.spend_info().is_none());
}

#[test]
fn planner_uses_cached_control_blocks() {
    let t = TapTree::combine(TapTree::leaf(leaf(1)), TapTree::leaf(leaf(2)));
    let d = Tr::new(G.to_string(), Some(t)).unwrap();
    let c = taproot_desc::cache::CachedTr::new(d);
    let tmpl = |n: usize| Satisfaction {
        stack: Witness::Stack(vec![Placeholder::Item(n)]),
        has_sig: true,
        absolute_timelock: None,
        relative_timelock: None,
    };
    let p = c.plan_satisfaction(None, vec![tmpl(64), tmpl(64)]).unwrap();
    match p.stack {
        Witness::Stack(v) => {
            assert_eq!(v.len(), 3);
            assert_eq!(v[1], Placeholder::TapScript(vec![1, 0xac]));
            match &v[2] {
                Placeholder::TapControlBlock(cb) => assert_eq!(cb.len(), 65),
                _ => panic!("expected a control block"),
            }
            // count 1, item 1 + 64, script 1 + 2, control block 1 + 65
            assert_eq!(witness_size(&v), 135);
        }
        _ => panic!("expected a witness stack"),
    }
    let k = c.plan_satisfaction(Some(64), vec![tmpl(1), tmpl(1)]).unwrap();
    assert_eq!(k.stack, Witness::Stack(vec![Placeholder::KeySpendSig(64)]));
}

#[test]
fn duplicate_keeps_the_cached_value() {
    let t = TapTree::combine(TapTree::leaf(leaf(1)), TapTree::leaf(leaf(2)));
    let d = Tr::new(G.to_string(), Some(t)).unwrap();
    let c = taproot_desc::cache::CachedTr::new(d);
    let first = c.spend_info().unwrap();
    let e = c.duplicate();
    let again = e.spend_info().unwrap();
    assert_eq!(first.output_key, again.output_key);
    assert_eq!(first.control_blocks, again.control_blocks);
    assert_eq!(e.descriptor().internal_key(), G);
}

#[test]
fn single_leaf_has_bare_control_block() {
    let d = Tr::new(G.to_string(), Some(TapTree::leaf(leaf(7)))).unwrap();
    let info = d.spend_info().unwrap();
    assert_eq!(info.control_blocks[0].len(), 33);
    assert!(info.merkle_root.is_some());
}
