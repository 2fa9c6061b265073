//! Tests of the smaller library types and the catalog-row dump.

use bal_save::catalog::{catalog_entries, catalog_lookup, Capability};
use bal_save::codec::compress;
use bal_save::dump::{make_meta_defaults, option_parser};
use bal_save::filters::Filters;
use bal_save::metaitem::MetaItem;
use bal_save::ui_state::{Popup, PopupType, TabState};
use bal_save::CoreError;

#[test]
fn option_parser_renders_source_text() {
    assert_eq!(option_parser(Some(true)), "Some(true)");
    assert_eq!(option_parser(Some(false)), "Some(false)");
    assert_eq!(option_parser(None), "None");
}

#[test]
fn make_meta_defaults_renders_sorted_rows() {
    let text = "return { [\"alerted\"]={[\"x_fooitem\"]=true,[\"j_joker\"]=true,[\"j_cry_odd\"]=true,}, [\"discovered\"]={[\"j_joker\"]=false,}, [\"unlocked\"]={} }";
    let rows = make_meta_defaults(&compress(text)).expect("save should load");
    assert_eq!(
        rows,
        vec![
            "(\"j_joker\", Some(true), Some(false), None),",
            "(\"x_fooitem\", Some(true), None, None),"
        ]
    );
}

#[test]
fn make_meta_defaults_propagates_load_errors() {
    assert_eq!(make_meta_defaults(&[0x07]), Err(CoreError::CorruptStream));
    let text = "return { [\"alerted\"]={} }";
    assert_eq!(
        make_meta_defaults(&compress(text)),
        Err(CoreError::MissingSubtable("discovered".to_string()))
    );
}

#[test]
fn metaitem_new_derives_capabilities_from_presence() {
    let it = MetaItem::new(Some(true), Some(false), None);
    assert!(it.alerted && !it.discovered && !it.unlocked);
    assert!(it.can_be_alerted() && it.can_be_discovered() && !it.can_be_unlocked());
    let none = MetaItem::new(None, None, None);
    assert!(!none.alerted && !none.discovered && !none.unlocked);
    assert!(!none.can_be_alerted() && !none.can_be_discovered() && !none.can_be_unlocked());
}

#[test]
fn filters_start_empty() {
    let f = Filters::new();
    assert_eq!(f.joker, "");
    assert_eq!(f.misc, "");
    assert_eq!(f.card, "");
    assert_eq!(f.voucher, "");
}

#[test]
fn popup_keeps_kind_and_message() {
    let p = Popup::new(PopupType::ErrorLoad, "no good".to_string());
    assert!(matches!(p.get_type(), PopupType::ErrorLoad));
    assert_eq!(p.get_message(), "no good");
}

#[test]
fn tab_states_compare_structurally() {
    assert_eq!(TabState::Editor, TabState::Editor);
    assert_ne!(TabState::Editor, TabState::Help);
    assert_ne!(TabState::Settings, TabState::NoTab);
}

#[test]
fn catalog_lookup_agrees_with_entries() {
    let entries = catalog_entries();
    assert!(!entries.is_empty());
    for e in &entries {
        let d = catalog_lookup(&e.name).expect("entry should be found");
        assert_eq!(d, e.defaults);
    }
    assert!(catalog_lookup(&"x_fooitem".to_string()).is_none());
    let red = catalog_lookup(&"b_red".to_string()).unwrap();
    assert_eq!(red.alerted, Capability::NotApplicable);
    assert_eq!(red.discovered, Capability::Applicable(true));
    assert!(red.unlocked.applicable() && red.unlocked.baseline());
}
