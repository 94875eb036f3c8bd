use taproot_desc::descriptor::Tr;
use taproot_desc::error::{Error, ParseError};
use taproot_desc::tree::TapTree;

fn leaf(s: &str) -> TapTree<String> {
    TapTree::leaf(s.to_string())
}

fn leaves(d: &Tr<String>) -> Vec<(u8, String)> {
    let mut it = d.iter_scripts();
    let mut out = Vec::new();
    while let Some((depth, l)) = it.next() {
        out.push((depth, l.clone()));
    }
    out
}

#[test]
fn parses_key_only() {
    let d = Tr::<String>::from_str("tr(K)").unwrap();
    assert_eq!(d.internal_key(), "K");
    assert!(d.tap_tree().is_none());
}

#[test]
fn parses_nested_tree() {
    let d = Tr::<String>::from_str("tr(K,{{pk(A),and_v(v:pk(B),older(5))},pk(C)})").unwrap();
    assert_eq!(d.internal_key(), "K");
    assert_eq!(d.tap_tree().as_ref().unwrap().height(), 2);
    assert_eq!(
        leaves(&d),
        vec![
            (2, "pk(A)".to_string()),
            (2, "and_v(v:pk(B),older(5))".to_string()),
            (1, "pk(C)".to_string())
        ]
    );
}

#[test]
fn text_round_trip() {
    let t = TapTree::combine(
        leaf("multi_a(2,A,B,C)"),
        TapTree::combine(leaf("pk(D)"), TapTree::combine(leaf("pk(E)"), leaf("after(10)"))),
    );
    let d = Tr::new("K".to_string(), Some(t)).unwrap();
    let text = d.to_text();
    assert_eq!(text, "tr(K,{multi_a(2,A,B,C),{pk(D),{pk(E),after(10)}}})");
    let back = Tr::<String>::from_str(&text).unwrap();
    assert_eq!(leaves(&back), leaves(&d));
    assert_eq!(back.internal_key(), "K");
    assert_eq!(back.to_text(), text);
}

#[test]
fn rejects_other_wrappers() {
    assert_eq!(Tr::<String>::from_str("wsh(K)").err(), Some(Error::Parse(ParseError::NotTr)));
    assert_eq!(Tr::<String>::from_str("tr(K").err(), Some(Error::Parse(ParseError::NotTr)));
}

#[test]
fn rejects_missing_key() {
    assert_eq!(Tr::<String>::from_str("tr()").err(), Some(Error::Parse(ParseError::BadKey)));
    assert_eq!(Tr::<String>::from_str("tr(,pk(A))").err(), Some(Error::Parse(ParseError::BadKey)));
}

#[test]
fn rejects_three_children() {
    assert_eq!(
        Tr::<String>::from_str("tr(K,{pk(A),pk(B),pk(C)})").err(),
        Some(Error::Parse(ParseError::BranchChildren))
    );
    assert_eq!(
        Tr::<String>::from_str("tr(K,{pk(A)})").err(),
        Some(Error::Parse(ParseError::BranchChildren))
    );
}

#[test]
fn rejects_named_branch() {
    assert_eq!(
        Tr::<String>::from_str("tr(K,x{pk(A),pk(B)})").err(),
        Some(Error::Parse(ParseError::BranchName))
    );
}

#[test]
fn rejects_unbalanced_leaf() {
    assert_eq!(
        Tr::<String>::from_str("tr(K,pk(A)))").err(),
        Some(Error::Parse(ParseError::BadLeaf))
    );
}

#[test]
fn key_with_parentheses_is_refused() {
    assert_eq!(Tr::<String>::from_str("tr(a(b))").err(), Some(Error::Parse(ParseError::BadKey)));
    assert!(Tr::<String>::from_str("tr(K,a(b)").is_err());
}

#[test]
fn deep_text_gives_the_depth_error() {
    let mut text = "pk(A)".to_string();
    for _ in 0..129 {
        text = format!("{{{},pk(B)}}", text);
    }
    let r = Tr::<String>::from_str(&format!("tr(K,{})", text));
    assert_eq!(r.err(), Some(Error::MaxRecursiveDepthExceeded));
    let mut ok = "pk(A)".to_string();
    for _ in 0..128 {
        ok = format!("{{{},pk(B)}}", ok);
    }
    assert!(Tr::<String>::from_str(&format!("tr(K,{})", ok)).is_ok());
}
