use mbe::attribute::{
    applicable_attributes, attr, attributes, known_attribute_input, select_attributes, AttrInput,
    AttrTarget,
};

#[test]
fn attributes_are_sorted() {
    let all = attributes();
    let mut attrs = all.iter().map(|attr| attr.key());
    let mut prev = attrs.next().unwrap();

    attrs.for_each(|next| {
        assert!(
            prev < next,
            r#"ATTRIBUTES array is not sorted, "{}" should come after "{}""#,
            prev,
            next
        );
        prev = next;
    });
}

#[test]
fn key_prefers_lookup_over_label() {
    let a = attr("allow(…)", Some("allow"), Some("allow(${0:lint})"));
    assert_eq!(a.key(), "allow");
    let b = attr("cold", None, None);
    assert_eq!(b.key(), "cold");
    assert!(!b.prefer_inner);
}

#[test]
fn prefer_inner_marks_entry() {
    let a = attr("no_std", None, None).prefer_inner();
    assert!(a.prefer_inner);
    assert_eq!(a.label, "no_std");
    assert_eq!(a.key(), "no_std");
}

#[test]
fn table_marks_crate_level_entries_inner() {
    let all = attributes();
    let no_std = all.iter().find(|a| a.key() == "no_std").unwrap();
    assert!(no_std.prefer_inner);
    let cold = all.iter().find(|a| a.key() == "cold").unwrap();
    assert!(!cold.prefer_inner);
}

#[test]
fn fn_attributes_in_outer_position() {
    let all = attributes();
    let names = applicable_attributes(AttrTarget::Fn);
    let offered = select_attributes(&all, Some(&names), false);
    let keys: Vec<&str> = offered.iter().map(|a| a.key()).collect();
    assert_eq!(keys.len(), 27);
    assert_eq!(keys[0], "allow");
    assert!(keys.contains(&"inline"));
    assert!(keys.contains(&"track_caller"));
    assert!(!keys.contains(&"no_std"));
}

#[test]
fn crate_level_attributes_need_inner_position() {
    let all = attributes();
    let names = applicable_attributes(AttrTarget::SourceFile);
    let outer = select_attributes(&all, Some(&names), false);
    let inner = select_attributes(&all, Some(&names), true);
    assert_eq!(outer.len(), 12);
    assert_eq!(inner.len(), 20);
    assert!(inner.iter().any(|a| a.key() == "no_std"));
    assert!(outer.iter().all(|a| !a.prefer_inner));
}

#[test]
fn expression_attributes_are_the_universal_ones() {
    let all = attributes();
    let names = applicable_attributes(AttrTarget::Expr);
    let keys: Vec<&str> = select_attributes(&all, Some(&names), false).iter().map(|a| a.key()).collect();
    assert_eq!(keys, vec!["allow", "cfg", "cfg_attr", "deny", "forbid", "warn"]);
}

#[test]
fn unknown_target_offers_whole_table() {
    let all = attributes();
    let inner = select_attributes(&all, None, true);
    assert_eq!(inner.len(), all.len());
    let outer = select_attributes(&all, None, false);
    assert_eq!(outer.len(), all.len() - 9);
    assert!(outer.iter().all(|a| !a.prefer_inner));
}

#[test]
fn unknown_names_are_skipped() {
    let all = attributes();
    let names = vec!["cold", "no_such_attribute", "test"];
    let keys: Vec<&str> = select_attributes(&all, Some(&names), false).iter().map(|a| a.key()).collect();
    assert_eq!(keys, vec!["cold", "test"]);
}

#[test]
fn known_inputs_by_name() {
    assert_eq!(known_attribute_input("repr"), Some(AttrInput::Repr));
    assert_eq!(known_attribute_input("derive"), Some(AttrInput::Derive));
    assert_eq!(known_attribute_input("feature"), Some(AttrInput::Feature));
    assert_eq!(known_attribute_input("allow"), Some(AttrInput::Lint));
    assert_eq!(known_attribute_input("forbid"), Some(AttrInput::Lint));
    assert_eq!(known_attribute_input("cfg"), Some(AttrInput::Cfg));
    assert_eq!(known_attribute_input("inline"), None);
    assert_eq!(known_attribute_input("cfg_attr"), None);
}
