//! Tests of the reconciliation engine: loading, saving, unlocking, the
//! capability invariant and the display accessors.

use bal_save::codec::compress;
use bal_save::default_meta;
use bal_save::load;
use bal_save::meta::Meta;
use bal_save::save;
use bal_save::unlock_all;
use bal_save::CoreError;

fn load_text(text: &str) -> Result<Meta, CoreError> {
    load(&compress(text))
}

const EMPTY_SAVE: &str = "return {[\"alerted\"]={},[\"discovered\"]={},[\"unlocked\"]={},}";

fn all_known_names(m: &Meta) -> Vec<String> {
    let mut names = Vec::new();
    for n in m.get_joker_names() {
        names.push(n);
    }
    for n in m.get_voucher_names() {
        names.push(n);
    }
    for n in m.get_card_names() {
        names.push(n);
    }
    for n in m.get_misc_names() {
        names.push(n);
    }
    names
}

#[test]
fn default_meta_has_catalog_baseline() {
    let m = default_meta();
    let red = m.get_item("b_red").expect("b_red is in the catalog");
    assert!(red.discovered && red.unlocked);
    assert!(!red.can_be_alerted() && red.can_be_discovered() && red.can_be_unlocked());
    let stencil = m.get_item("j_stencil").expect("j_stencil is in the catalog");
    assert!(!stencil.alerted && !stencil.discovered && !stencil.unlocked);
    assert!(stencil.can_be_alerted() && stencil.can_be_discovered() && stencil.can_be_unlocked());
    let joker = m.get_item("j_joker").expect("j_joker is in the catalog");
    assert!(joker.discovered && !joker.can_be_unlocked());
    assert!(m.get_item("x_fooitem").is_none());
}

#[test]
fn modded_item_gets_all_capabilities() {
    // The concrete modded-item scenario: a name outside the catalog with
    // only alerted=true in the file.
    let text =
        "return { [\"alerted\"]={[\"x_fooitem\"]=true,}, [\"discovered\"]={}, [\"unlocked\"]={} }";
    let m = load_text(text).expect("well-formed save should load");
    let it = m.get_item("x_fooitem").expect("modded item should be present");
    assert!(it.alerted && !it.discovered && !it.unlocked);
    assert!(it.can_be_alerted() && it.can_be_discovered() && it.can_be_unlocked());
}

#[test]
fn absent_known_item_keeps_baseline() {
    // A known item entirely absent from all three subtables comes back with
    // its catalog baseline, not all-false.
    let m = load_text(EMPTY_SAVE).expect("empty save should load");
    let red = m.get_item("b_red").expect("catalog item should be seeded");
    assert!(red.discovered && red.unlocked);
    let blue = m.get_item("b_blue").expect("catalog item should be seeded");
    assert!(!blue.discovered && !blue.unlocked);
}

#[test]
fn decoded_presence_wins_over_baseline() {
    // A mentioned item takes the decoded value on every axis, even where
    // the baseline was true: absence on an axis of a mentioned name reads
    // as false.
    let text = "return {[\"alerted\"]={},[\"discovered\"]={[\"b_red\"]=false,},[\"unlocked\"]={},}";
    let m = load_text(text).expect("save should load");
    let red = m.get_item("b_red").unwrap();
    assert!(!red.discovered);
    assert!(!red.unlocked);
}

#[test]
fn inapplicable_axis_stays_false_after_load() {
    // b_red cannot be alerted; a stray alerted=true in the file must not
    // violate the capability invariant.
    let text = "return {[\"alerted\"]={[\"b_red\"]=true,},[\"discovered\"]={},[\"unlocked\"]={},}";
    let m = load_text(text).expect("save should load");
    let red = m.get_item("b_red").unwrap();
    assert!(!red.can_be_alerted());
    assert!(!red.alerted);
}

#[test]
fn save_then_load_round_trips() {
    let text =
        "return { [\"alerted\"]={[\"x_fooitem\"]=true,}, [\"discovered\"]={}, [\"unlocked\"]={} }";
    let m = load_text(text).expect("save should load");
    let bytes = save(&m).expect("saving cannot fail");
    let m2 = load(&bytes).expect("saved bytes should load back");
    let mut names = all_known_names(&m);
    names.push("x_fooitem".to_string());
    assert!(!names.is_empty());
    for n in &names {
        assert_eq!(m.get_item(n), m2.get_item(n), "mismatch at {}", n);
    }
}

#[test]
fn default_meta_round_trips() {
    let m = default_meta();
    let bytes = save(&m).expect("saving cannot fail");
    let m2 = load(&bytes).expect("saved bytes should load back");
    for n in &all_known_names(&m) {
        assert_eq!(m.get_item(n), m2.get_item(n), "mismatch at {}", n);
    }
}

#[test]
fn unlock_all_type_is_idempotent() {
    let mut m = default_meta();
    m.unlock_all_type("j_");
    let once: Vec<_> = all_known_names(&m)
        .iter()
        .map(|n| *m.get_item(n).unwrap())
        .collect();
    m.unlock_all_type("j_");
    let twice: Vec<_> = all_known_names(&m)
        .iter()
        .map(|n| *m.get_item(n).unwrap())
        .collect();
    assert_eq!(once, twice);
}

#[test]
fn unlock_all_respects_capabilities() {
    let mut m = default_meta();
    unlock_all(&mut m, "j_");
    let joker = m.get_item("j_joker").unwrap();
    // Applicable axes come on; the inapplicable unlock axis stays off.
    assert!(joker.alerted && joker.discovered && !joker.unlocked);
    assert!(!joker.can_be_unlocked());
    // Other categories are untouched.
    let blank = m.get_item("v_blank").unwrap();
    assert!(!blank.alerted && !blank.discovered && !blank.unlocked);
}

#[test]
fn unlock_all_forces_modded_items_on() {
    let text =
        "return { [\"alerted\"]={[\"x_fooitem\"]=true,}, [\"discovered\"]={}, [\"unlocked\"]={} }";
    let mut m = load_text(text).expect("save should load");
    unlock_all(&mut m, "x_");
    let it = m.get_item("x_fooitem").unwrap();
    assert!(it.alerted && it.discovered && it.unlocked);
}

#[test]
fn capability_invariant_holds_everywhere() {
    let text =
        "return { [\"alerted\"]={[\"x_fooitem\"]=true,[\"b_red\"]=true,}, [\"discovered\"]={}, [\"unlocked\"]={[\"c_empress\"]=true,} }";
    let mut m = load_text(text).expect("save should load");
    let mut names = all_known_names(&m);
    names.push("x_fooitem".to_string());
    for pass in 0..2 {
        for n in &names {
            let it = m.get_item(n).unwrap();
            assert!(it.can_be_alerted() || !it.alerted, "{} pass {}", n, pass);
            assert!(it.can_be_discovered() || !it.discovered, "{} pass {}", n, pass);
            assert!(it.can_be_unlocked() || !it.unlocked, "{} pass {}", n, pass);
        }
        unlock_all(&mut m, "");
    }
}

#[test]
fn missing_subtable_is_reported_by_name() {
    let text = "return { [\"alerted\"]={}, [\"discovered\"]={} }";
    let err = match load_text(text) {
        Err(e) => e,
        Ok(_) => panic!("unlocked subtable is missing"),
    };
    assert_eq!(err, CoreError::MissingSubtable("unlocked".to_string()));
    let text2 = "return { [\"discovered\"]={}, [\"unlocked\"]={} }";
    let err2 = match load_text(text2) {
        Err(e) => e,
        Ok(_) => panic!("alerted subtable is missing"),
    };
    assert_eq!(err2, CoreError::MissingSubtable("alerted".to_string()));
}

#[test]
fn subtable_must_itself_be_a_table() {
    let text = "return { [\"alerted\"]=true, [\"discovered\"]={}, [\"unlocked\"]={} }";
    let err = match load_text(text) {
        Err(e) => e,
        Ok(_) => panic!("alerted is not a table"),
    };
    assert_eq!(err, CoreError::MissingSubtable("alerted".to_string()));
}

#[test]
fn corrupt_stream_is_rejected_without_panic() {
    assert!(matches!(load(&[0x07, 0x99, 0x00]), Err(CoreError::CorruptStream)));
    assert!(matches!(load(&[]), Err(CoreError::CorruptStream)));
}

#[test]
fn non_record_document_is_a_parse_error() {
    assert!(matches!(load_text("return 5"), Err(CoreError::ParseError)));
    assert!(matches!(
        load_text("return {[\"alerted\"]={[\"a\"]=5,},[\"discovered\"]={},[\"unlocked\"]={},}"),
        Err(CoreError::ParseError)
    ));
}

#[test]
fn name_lists_are_sorted_and_filtered() {
    let m = default_meta();
    assert_eq!(
        m.get_joker_names(),
        vec!["j_banner", "j_greedy_joker", "j_joker", "j_stencil"]
    );
    assert_eq!(m.get_voucher_names(), vec!["v_blank", "v_overstock_norm"]);
    assert_eq!(m.get_deck_names(), vec!["b_blue", "b_checkered", "b_red"]);
    assert_eq!(m.get_card_names(), vec!["c_empress", "c_heirophant", "c_planet_x"]);
    assert_eq!(m.get_edition_names(), vec!["e_foil", "e_negative"]);
    assert_eq!(
        m.get_misc_names(),
        vec![
            "b_blue",
            "b_checkered",
            "b_red",
            "bl_ox",
            "e_foil",
            "e_negative",
            "p_arcana_normal_1",
            "tag_uncommon"
        ]
    );
}

#[test]
fn modded_names_show_up_in_their_category() {
    let text =
        "return { [\"alerted\"]={[\"j_aardvark\"]=true,}, [\"discovered\"]={}, [\"unlocked\"]={} }";
    let m = load_text(text).expect("save should load");
    assert_eq!(
        m.get_joker_names(),
        vec!["j_aardvark", "j_banner", "j_greedy_joker", "j_joker", "j_stencil"]
    );
}

#[test]
fn later_duplicate_keys_win() {
    // Within a subtable a repeated key keeps its last assignment, as a Lua
    // constructor would.
    let text =
        "return {[\"alerted\"]={[\"x_m\"]=true,[\"x_m\"]=false,},[\"discovered\"]={},[\"unlocked\"]={},}";
    let m = load_text(text).expect("save should load");
    assert!(!m.get_item("x_m").unwrap().alerted);
    // The same holds for a repeated subtable at the root.
    let text2 = "return {[\"alerted\"]={[\"x_m\"]=true,},[\"alerted\"]={},[\"discovered\"]={},[\"unlocked\"]={},}";
    let m2 = load_text(text2).expect("save should load");
    assert!(m2.get_item("x_m").is_none());
}

#[test]
fn extra_root_entries_are_tolerated() {
    // Integer keys and unrelated entries elsewhere in the document do not
    // disturb the three subtables.
    let text = "return {[1]=77,[\"VERSION\"]=\"1.0\",[\"alerted\"]={},[\"discovered\"]={},[\"unlocked\"]={},}";
    let m = load_text(text).expect("save should load");
    assert!(m.get_item("b_red").unwrap().unlocked);
}

#[test]
fn set_item_masks_by_capability() {
    let mut m = default_meta();
    assert!(m.set_item("j_stencil", true, true, true));
    let st = m.get_item("j_stencil").unwrap();
    assert!(st.alerted && st.discovered && st.unlocked);
    assert!(m.set_item("b_red", true, false, false));
    let red = m.get_item("b_red").unwrap();
    assert!(!red.alerted && !red.discovered && !red.unlocked);
    assert!(!m.set_item("x_nothere", true, true, true));
}
