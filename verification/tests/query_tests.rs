use hanzi_store::query::{get_character_details, get_component_details};
use hanzi_store::store::CharacterStore;

#[test]
fn point_lookup_of_absent_character_is_an_error_not_a_default_record() {
    let s = CharacterStore::new();
    let r = get_character_details(&s, &"\u{4F60}".to_string());
    assert!(r.is_err());
    assert_eq!(r.unwrap_err(), "character not found");
}

#[test]
fn point_lookup_returns_the_stored_record() {
    let mut s = CharacterStore::new();
    s.upsert_level(&"\u{4F60}".to_string(), 2);
    s.update_structure(
        &"\u{4F60}".to_string(),
        &"\u{2FF0}\u{4EBB}\u{5C14}".to_string(),
        &"t: h".to_string(),
    );
    let r = get_character_details(&s, &"\u{4F60}".to_string()).unwrap();
    assert_eq!(r.character, "\u{4F60}");
    assert_eq!(r.hsk_level, Some(2));
    assert_eq!(r.decomposition, Some("\u{2FF0}\u{4EBB}\u{5C14}".to_string()));
}

#[test]
fn component_lookup_collapses_duplicated_components() {
    let mut s = CharacterStore::new();
    s.upsert_level(&"\u{53E3}".to_string(), 1);
    let rows = get_component_details(&s, "\u{2FF0}\u{53E3}\u{53E3}");
    assert_eq!(rows.len(), 1);
    assert_eq!(rows[0].character, "\u{53E3}");
}

#[test]
fn component_lookup_of_unknown_components_is_empty_without_error() {
    let mut s = CharacterStore::new();
    s.upsert_level(&"\u{4F60}".to_string(), 1);
    let rows = get_component_details(&s, "\u{2FF0}\u{4E00}\u{4E8C}");
    assert!(rows.is_empty());
}

#[test]
fn component_lookup_of_operator_only_decomposition_is_empty() {
    let mut s = CharacterStore::new();
    s.upsert_level(&"\u{4F60}".to_string(), 1);
    assert!(get_component_details(&s, "").is_empty());
    assert!(get_component_details(&s, "\u{2FF0}\u{2FF1}").is_empty());
}

#[test]
fn component_lookup_returns_records_in_store_order() {
    let mut s = CharacterStore::new();
    s.upsert_level(&"\u{4E00}".to_string(), 1);
    s.upsert_level(&"\u{53E3}".to_string(), 1);
    let rows = get_component_details(&s, "\u{2FF1}\u{53E3}\u{4E00}");
    assert_eq!(rows.len(), 2);
    assert_eq!(rows[0].character, "\u{4E00}");
    assert_eq!(rows[1].character, "\u{53E3}");
}
