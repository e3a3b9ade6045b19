use fortress_models::identifier::{Identifier, MaterialIdentifierElement};
use fortress_models::cache::CacheKey;

#[test]
fn from_string_splits_and_upper_cases() {
    let id = Identifier::from_string("wood:Bark:x1");
    assert_eq!(id.len(), 3);
    assert_eq!(id.segment(0).as_str(), "WOOD");
    assert_eq!(id.segment(1).as_str(), "BARK");
    assert_eq!(id.segment(2).as_str(), "X1");
    assert_eq!(id.last(), Some("X1"));
}

#[test]
fn from_string_keeps_empty_segments() {
    let id = Identifier::from_string("a::b");
    assert_eq!(id.len(), 3);
    assert_eq!(id.segment(1).as_str(), "");
    let empty = Identifier::from_string("");
    assert_eq!(empty.len(), 1);
}

#[test]
fn parent_drops_last_segment_and_root_has_none() {
    let id = Identifier::from_string("wood:bark");
    let p = id.parent().unwrap();
    assert!(p == Identifier::from_string("WOOD"));
    let root = p.parent().unwrap();
    assert!(root.is_empty());
    assert!(root.parent().is_none());
    assert!(id.is_child_of(&p));
    assert!(!p.is_child_of(&id));
    assert!(CacheKey::is_child_of(&p, &root));
}

#[test]
fn ignorable_segment_is_structural() {
    assert!(MaterialIdentifierElement::new("structural").is_ignorable());
    assert!(!MaterialIdentifierElement::new("bark").is_ignorable());
    assert!(Identifier::from_string("wood:structural").last_is_ignorable());
    assert!(!Identifier::from_string("structural:wood").last_is_ignorable());
}

#[test]
fn equality_is_segment_wise() {
    assert!(Identifier::from_string("a:b") == Identifier::from_string("A:B"));
    assert!(Identifier::from_string("a:b") != Identifier::from_string("a:b:c"));
    assert!(Identifier::from_string("a:b") != Identifier::from_string("a:c"));
}

#[test]
fn order_is_segment_wise_with_prefix_first() {
    let a = Identifier::from_string("a");
    let ab = Identifier::from_string("a:b");
    let b = Identifier::from_string("b");
    let aa = Identifier::from_string("aa");
    assert!(a < ab);
    assert!(ab < b);
    assert!(ab < aa);
    assert_eq!(a.partial_cmp(&Identifier::from_string("A")), Some(std::cmp::Ordering::Equal));
}
