use hanzi_store::record::CharacterData;
use hanzi_store::store::CharacterStore;

fn record(id: i32, character: &str, hsk_level: Option<i32>) -> CharacterData {
    CharacterData {
        id,
        character: character.to_string(),
        pinyin: String::new(),
        radical: String::new(),
        definition: String::new(),
        hsk_level,
        is_radical: false,
        script_type: None,
        stroke_count: None,
        decomposition: None,
        variants: None,
        radical_variants: None,
        etymology: None,
    }
}

#[test]
fn upsert_creates_minimal_record() {
    let mut s = CharacterStore::new();
    s.upsert_level(&"\u{4F60}".to_string(), 3);
    let rows = s.records();
    assert_eq!(rows.len(), 1);
    assert_eq!(rows[0].id, 1);
    assert_eq!(rows[0].character, "\u{4F60}");
    assert_eq!(rows[0].hsk_level, Some(3));
    assert_eq!(rows[0].pinyin, "");
    assert_eq!(rows[0].decomposition, None);
    assert!(!rows[0].is_radical);
}

#[test]
fn higher_incoming_level_leaves_record_unchanged() {
    let mut s = CharacterStore::new();
    s.upsert_level(&"\u{4F60}".to_string(), 3);
    s.upsert_level(&"\u{4F60}".to_string(), 5);
    let rows = s.records();
    assert_eq!(rows.len(), 1);
    assert_eq!(rows[0].hsk_level, Some(3));
}

#[test]
fn lower_incoming_level_wins() {
    let mut s = CharacterStore::new();
    s.upsert_level(&"\u{4F60}".to_string(), 4);
    s.upsert_level(&"\u{4F60}".to_string(), 1);
    let rows = s.records();
    assert_eq!(rows.len(), 1);
    assert_eq!(rows[0].hsk_level, Some(1));
}

#[test]
fn null_level_takes_any_incoming_level() {
    let s0 = CharacterStore::from_records(vec![record(1, "\u{4F60}", None)]).unwrap();
    let mut s = s0;
    s.upsert_level(&"\u{4F60}".to_string(), 2);
    assert_eq!(s.records()[0].hsk_level, Some(2));
}

#[test]
fn update_structure_on_absent_character_is_a_noop() {
    let mut s = CharacterStore::new();
    s.update_structure(
        &"\u{4F60}".to_string(),
        &"\u{2FF0}\u{4EBB}\u{5C14}".to_string(),
        &"t: h".to_string(),
    );
    assert_eq!(s.records().len(), 0);
}

#[test]
fn update_structure_sets_both_fields() {
    let mut s = CharacterStore::new();
    s.upsert_level(&"\u{4F60}".to_string(), 1);
    s.update_structure(
        &"\u{4F60}".to_string(),
        &"\u{2FF0}\u{4EBB}\u{5C14}".to_string(),
        &"pictophonetic: person".to_string(),
    );
    let rows = s.records();
    assert_eq!(rows[0].decomposition, Some("\u{2FF0}\u{4EBB}\u{5C14}".to_string()));
    assert_eq!(rows[0].etymology, Some("pictophonetic: person".to_string()));
    assert_eq!(rows[0].hsk_level, Some(1));
}

#[test]
fn update_metadata_on_absent_character_is_a_noop() {
    let mut s = CharacterStore::new();
    s.update_metadata(&"\u{4F60}".to_string(), &"simplified".to_string(), 7, &None);
    assert_eq!(s.records().len(), 0);
}

#[test]
fn update_metadata_can_set_variants_to_null() {
    let mut s = CharacterStore::new();
    s.upsert_level(&"\u{4F60}".to_string(), 1);
    s.update_metadata(
        &"\u{4F60}".to_string(),
        &"simplified".to_string(),
        7,
        &Some("\u{4F32}".to_string()),
    );
    assert_eq!(s.records()[0].variants, Some("\u{4F32}".to_string()));
    s.update_metadata(&"\u{4F60}".to_string(), &"simplified".to_string(), 7, &None);
    let rows = s.records();
    assert_eq!(rows[0].variants, None);
    assert_eq!(rows[0].script_type, Some("simplified".to_string()));
    assert_eq!(rows[0].stroke_count, Some(7));
}

#[test]
fn reset_variants_clears_every_row() {
    let mut s = CharacterStore::new();
    s.upsert_level(&"\u{4F60}".to_string(), 1);
    s.upsert_level(&"\u{597D}".to_string(), 2);
    s.update_metadata(&"\u{4F60}".to_string(), &"s".to_string(), 7, &Some("x".to_string()));
    s.update_metadata(&"\u{597D}".to_string(), &"s".to_string(), 6, &Some("y".to_string()));
    s.reset_variants_field();
    for r in s.records() {
        assert_eq!(r.variants, None);
    }
    assert_eq!(s.records().len(), 2);
}

#[test]
fn get_by_character_absent_yields_nothing() {
    let s = CharacterStore::new();
    assert!(s.get_by_character(&"\u{4F60}".to_string()).is_none());
}

#[test]
fn get_by_character_returns_the_full_record() {
    let mut s = CharacterStore::new();
    s.upsert_level(&"\u{4F60}".to_string(), 2);
    let r = s.get_by_character(&"\u{4F60}".to_string()).unwrap();
    assert_eq!(r.character, "\u{4F60}");
    assert_eq!(r.hsk_level, Some(2));
    assert_eq!(r.id, 1);
}

#[test]
fn get_by_characters_collapses_duplicates_and_skips_absent() {
    let mut s = CharacterStore::new();
    s.upsert_level(&"\u{53E3}".to_string(), 1);
    let keys = vec![
        "\u{53E3}".to_string(),
        "\u{53E3}".to_string(),
        "\u{4E00}".to_string(),
    ];
    let rows = s.get_by_characters(&keys);
    assert_eq!(rows.len(), 1);
    assert_eq!(rows[0].character, "\u{53E3}");
}

#[test]
fn from_records_rejects_duplicate_characters() {
    let r = CharacterStore::from_records(vec![
        record(1, "\u{4F60}", Some(1)),
        record(2, "\u{4F60}", Some(2)),
    ]);
    assert!(r.is_err());
}

#[test]
fn from_records_rejects_ids_out_of_order() {
    let r = CharacterStore::from_records(vec![record(7, "\u{4F60}", Some(1))]);
    assert!(r.is_err());
}

#[test]
fn from_records_rejects_empty_character() {
    let r = CharacterStore::from_records(vec![record(1, "", Some(1))]);
    assert!(r.is_err());
}

#[test]
fn from_records_accepts_well_formed_rows() {
    let r = CharacterStore::from_records(vec![
        record(1, "\u{4F60}", Some(1)),
        record(2, "\u{597D}", None),
    ]);
    assert!(r.is_ok());
    assert_eq!(r.unwrap().records().len(), 2);
}
