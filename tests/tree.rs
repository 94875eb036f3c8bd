use taproot_desc::descriptor::{Tr, TranslateErr};
use taproot_desc::error::ParseError;
use taproot_desc::policy::Policy;
use taproot_desc::error::Error;
use taproot_desc::tree::TapTree;

fn descriptor() -> String {
    let desc = "tr(acc0, {
            multi_a(3, acc10, acc11, acc12), {
              and_v(
                v:multi_a(2, acc10, acc11, acc12),
                after(10)
              ),
              and_v(
                v:multi_a(1, acc10, acc11, ac12),
                after(100)
              )
            }
         })";
    desc.replace(&[' ', '\n'][..], "")
}

fn leaf(s: &str) -> TapTree<String> {
    TapTree::leaf(s.to_string())
}

fn chain(height: usize) -> TapTree<String> {
    let mut t = leaf("pk(A)");
    for _ in 0..height {
        t = TapTree::combine(t, leaf("pk(B)"));
    }
    t
}

fn walk(t: &TapTree<String>) -> Vec<(u8, String)> {
    let mut it = t.iter();
    let mut out = Vec::new();
    while let Some((d, l)) = it.next() {
        out.push((d, l.clone()));
    }
    out
}

#[test]
fn height() {
    let desc = descriptor();
    let tr = Tr::<String>::from_str(&desc).unwrap();
    assert_eq!(tr.tap_tree().as_ref().unwrap().height(), 2);
}

#[test]
fn leaf_has_height_zero() {
    assert_eq!(leaf("pk(A)").height(), 0);
}

#[test]
fn combine_adds_one_to_the_higher_side() {
    let t = TapTree::combine(chain(3), leaf("pk(C)"));
    assert_eq!(t.height(), 4);
    let u = TapTree::combine(leaf("pk(C)"), chain(5));
    assert_eq!(u.height(), 6);
    let v = TapTree::combine(leaf("pk(C)"), leaf("pk(D)"));
    assert_eq!(v.height(), 1);
}

#[test]
fn walk_is_depth_first_left_to_right() {
    let t = TapTree::combine(TapTree::combine(leaf("A"), leaf("B")), leaf("C"));
    assert_eq!(
        walk(&t),
        vec![(2, "A".to_string()), (2, "B".to_string()), (1, "C".to_string())]
    );
}

#[test]
fn walk_of_deeper_tree() {
    let n3 = TapTree::combine(leaf("D"), leaf("E"));
    let n2 = TapTree::combine(leaf("C"), n3);
    let n1 = TapTree::combine(leaf("A"), leaf("B"));
    let t = TapTree::combine(n1, n2);
    let got: Vec<(u8, String)> = walk(&t);
    let want: Vec<(u8, String)> = vec![
        (2, "A".to_string()),
        (2, "B".to_string()),
        (2, "C".to_string()),
        (3, "D".to_string()),
        (3, "E".to_string()),
    ];
    assert_eq!(got, want);
}

#[test]
fn walk_can_restart() {
    let t = TapTree::combine(leaf("A"), leaf("B"));
    assert_eq!(walk(&t), walk(&t));
    assert_eq!(walk(&leaf("A")), vec![(0, "A".to_string())]);
}

#[test]
fn height_limit_is_inclusive() {
    let ok = Tr::new("K".to_string(), Some(chain(128)));
    assert!(ok.is_ok());
    let too_high = Tr::new("K".to_string(), Some(chain(129)));
    assert_eq!(too_high.err(), Some(Error::MaxRecursiveDepthExceeded));
}

#[test]
fn descriptor_without_tree_has_no_scripts() {
    let d: Tr<String> = Tr::new("K".to_string(), None).unwrap();
    assert!(d.tap_tree().is_none());
    assert_eq!(d.internal_key(), "K");
    assert!(d.iter_scripts().next().is_none());
}

#[test]
fn translate_keeps_shape_and_replaces_leaves() {
    let t = TapTree::combine(TapTree::combine(leaf("A"), leaf("B")), leaf("C"));
    let d = Tr::new("K".to_string(), Some(t)).unwrap();
    let u: Tr<usize> = d.translate_pk("K2".to_string(), vec![1, 2, 3]);
    assert_eq!(u.internal_key(), "K2");
    let mut it = u.iter_scripts();
    assert_eq!(it.next(), Some((2, &1)));
    assert_eq!(it.next(), Some((2, &2)));
    assert_eq!(it.next(), Some((1, &3)));
    assert_eq!(it.next(), None);
    assert_eq!(u.tap_tree().as_ref().unwrap().height(), 2);
}

#[test]
fn bad_keys_are_refused_before_depth() {
    assert_eq!(Tr::<String>::new("".to_string(), None).err(), Some(Error::Parse(ParseError::BadKey)));
    assert_eq!(Tr::<String>::new("a(b)".to_string(), None).err(), Some(Error::Parse(ParseError::BadKey)));
    assert_eq!(Tr::new("K,L".to_string(), Some(chain(129))).err(), Some(Error::Parse(ParseError::BadKey)));
}

#[test]
fn translation_stops_at_first_failed_leaf() {
    let t = TapTree::combine(TapTree::combine(leaf("A"), leaf("B")), leaf("C"));
    let d = Tr::new("K".to_string(), Some(t)).unwrap();
    let r = d.translate_results(Some("K2".to_string()), vec![Some(1), None, None]);
    assert_eq!(r.err(), Some(TranslateErr::Leaf(1)));
    let r = d.translate_results(None, vec![Some(1), Some(2), Some(3)]);
    assert_eq!(r.err(), Some(TranslateErr::Key));
    let r = d.translate_results(Some("(".to_string()), vec![Some(1), Some(2), Some(3)]);
    assert!(matches!(r, Err(TranslateErr::Outer(_))));
    let u: Tr<i32> = d.translate_results(Some("K2".to_string()), vec![Some(1), Some(2), Some(3)]).unwrap();
    let mut it = u.iter_scripts();
    assert_eq!(it.next(), Some((2, &1)));
    assert_eq!(it.next(), Some((2, &2)));
    assert_eq!(it.next(), Some((1, &3)));
    assert_eq!(u.internal_key(), "K2");
}

#[test]
fn lift_mirrors_the_tree() {
    let t = TapTree::combine(TapTree::combine(leaf("A"), leaf("B")), leaf("C"));
    let d = Tr::new("K".to_string(), Some(t)).unwrap();
    let p = d.lift(vec!["a", "b", "c"]);
    assert_eq!(format!("{:?}", p), "Or(Key(\"K\"), Or(Or(Leaf(\"a\"), Leaf(\"b\")), Leaf(\"c\")))");
    let k: Tr<String> = Tr::new("K".to_string(), None).unwrap();
    assert!(matches!(k.lift(Vec::<u8>::new()), Policy::Key(s) if s == "K"));
}

#[test]
fn for_each() {
    let desc = descriptor();
    let tr = Tr::<String>::from_str(&desc).unwrap();
    // each leaf answers for the keys in its script; the last ac12 only has ac
    // and fails the predicate
    let pred = |k: &str| k.starts_with("acc");
    let mut leaf_results = Vec::new();
    let mut it = tr.iter_scripts();
    while let Some((_d, ms)) = it.next() {
        let keys: Vec<&str> = ms
            .split(|c: char| !c.is_ascii_alphanumeric())
            .filter(|t| t.starts_with("ac"))
            .collect();
        leaf_results.push(keys.iter().all(|k| pred(k)));
    }
    assert!(!tr.for_each_key(&leaf_results, pred(tr.internal_key())));
}

#[test]
fn for_each_key_all_pass() {
    let d: Tr<String> = Tr::new("K".to_string(), Some(TapTree::combine(leaf("A"), leaf("B")))).unwrap();
    assert!(d.for_each_key(&vec![true, true], true));
    assert!(!d.for_each_key(&vec![true, true], false));
    assert!(!d.for_each_key(&vec![false, true], true));
}

#[test]
fn sanity_check_reports_first_failure() {
    let d: Tr<String> = Tr::new("K".to_string(), Some(TapTree::combine(leaf("A"), leaf("B")))).unwrap();
    assert_eq!(d.sanity_check(vec![Ok(()), Ok(())]), Ok(()));
    assert_eq!(
        d.sanity_check(vec![Err(Error::CouldNotSatisfy), Err(Error::ImpossibleSatisfaction)]),
        Err(Error::CouldNotSatisfy)
    );
    assert_eq!(d.sanity_check(vec![Ok(()), Err(Error::ImpossibleSatisfaction)]), Err(Error::ImpossibleSatisfaction));
}
