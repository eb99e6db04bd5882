use hanzi_store::pipeline::{
    import_dictionary_data, parse_level_descriptor, sync_hsk_levels, sync_json_metadata,
};
use hanzi_store::store::CharacterStore;

#[test]
fn descriptor_range_takes_first_segment() {
    assert_eq!(parse_level_descriptor("4-5"), Some(4));
}

#[test]
fn descriptor_zero_parses_to_zero() {
    // A zero level means "skip, no write" to the pipeline.
    assert_eq!(parse_level_descriptor("0"), Some(0));
}

#[test]
fn descriptor_text_does_not_parse() {
    assert_eq!(parse_level_descriptor("advanced"), None);
    assert_eq!(parse_level_descriptor(""), None);
    assert_eq!(parse_level_descriptor("+"), None);
    assert_eq!(parse_level_descriptor("99999999999"), None);
}

#[test]
fn descriptor_plain_and_signed_numbers_parse() {
    assert_eq!(parse_level_descriptor("7"), Some(7));
    assert_eq!(parse_level_descriptor("+7"), Some(7));
    assert_eq!(parse_level_descriptor("-4"), None);
}

const LEVEL_CSV: &str = "\
word,pinyin,meaning,pos,level
\u{4F60},a,b,c,4-5
\u{597D}\u{7684},a,b,c,2
\u{6C34},a,b,c,0
\u{706B},a,b,c,advanced
\u{4E00},a,b,c,1
";

#[test]
fn level_sync_applies_only_eligible_rows() {
    let mut s = CharacterStore::new();
    let n = sync_hsk_levels(&mut s, LEVEL_CSV).unwrap();
    // The two-character row, the zero level and the unparsable level are
    // skipped; two rows are applied.
    assert_eq!(n, 2);
    let rows = s.records();
    assert_eq!(rows.len(), 2);
    assert_eq!(rows[0].character, "\u{4F60}");
    assert_eq!(rows[0].hsk_level, Some(4));
    assert_eq!(rows[1].character, "\u{4E00}");
    assert_eq!(rows[1].hsk_level, Some(1));
}

#[test]
fn level_sync_twice_keeps_one_row_per_character_and_the_minimum() {
    let csv = "\
word,pinyin,meaning,pos,level
\u{4F60},a,b,c,3
\u{4F60},a,b,c,5
";
    let mut s = CharacterStore::new();
    sync_hsk_levels(&mut s, csv).unwrap();
    sync_hsk_levels(&mut s, csv).unwrap();
    let rows = s.records();
    assert_eq!(rows.len(), 1);
    assert_eq!(rows[0].character, "\u{4F60}");
    assert_eq!(rows[0].hsk_level, Some(3));
    assert_eq!(rows[0].id, 1);
}

#[test]
fn level_sync_aborts_on_a_malformed_table_and_writes_nothing() {
    // The second data row has a field count different from the header's.
    let csv = "word,pinyin,meaning,pos,level\n\u{4F60},a,b,c,3\nbroken,row\n";
    let mut s = CharacterStore::new();
    let r = sync_hsk_levels(&mut s, csv);
    assert!(r.is_err());
    assert_eq!(s.records().len(), 0);
}

#[test]
fn dictionary_sync_enriches_existing_characters() {
    let mut s = CharacterStore::new();
    s.upsert_level(&"\u{4F60}".to_string(), 2);
    let lines = vec![
        "{\"character\":\"\u{4F60}\",\"decomposition\":\"\u{2FF0}\u{4EBB}\u{5C14}\",\"etymology\":{\"type\":\"pictophonetic\",\"hint\":\"person\"}}".to_string(),
    ];
    let n = import_dictionary_data(&mut s, &lines).unwrap();
    assert_eq!(n, 1);
    let rows = s.records();
    assert_eq!(rows[0].decomposition, Some("\u{2FF0}\u{4EBB}\u{5C14}".to_string()));
    assert_eq!(rows[0].etymology, Some("pictophonetic: person".to_string()));
}

#[test]
fn dictionary_sync_defaults_missing_fields_to_empty() {
    let mut s = CharacterStore::new();
    s.upsert_level(&"\u{4F60}".to_string(), 2);
    let lines = vec!["{\"character\":\"\u{4F60}\"}".to_string()];
    let n = import_dictionary_data(&mut s, &lines).unwrap();
    assert_eq!(n, 1);
    let rows = s.records();
    assert_eq!(rows[0].decomposition, Some(String::new()));
    assert_eq!(rows[0].etymology, Some(": ".to_string()));
}

#[test]
fn dictionary_sync_counts_absent_characters_without_writing() {
    let mut s = CharacterStore::new();
    let lines = vec![
        "{\"character\":\"\u{4F60}\",\"decomposition\":\"x\",\"etymology\":{\"type\":\"t\",\"hint\":\"h\"}}".to_string(),
    ];
    let n = import_dictionary_data(&mut s, &lines).unwrap();
    assert_eq!(n, 1);
    assert_eq!(s.records().len(), 0);
}

#[test]
fn dictionary_sync_skips_lines_without_a_character() {
    let mut s = CharacterStore::new();
    s.upsert_level(&"\u{4F60}".to_string(), 2);
    let lines = vec![
        "{\"character\":\"\",\"decomposition\":\"x\"}".to_string(),
        "{\"decomposition\":\"y\"}".to_string(),
    ];
    let n = import_dictionary_data(&mut s, &lines).unwrap();
    assert_eq!(n, 0);
    assert_eq!(s.records()[0].decomposition, None);
}

#[test]
fn dictionary_sync_aborts_on_a_malformed_line_keeping_only_the_variants_reset() {
    let mut s = CharacterStore::new();
    s.upsert_level(&"\u{4F60}".to_string(), 2);
    s.update_metadata(
        &"\u{4F60}".to_string(),
        &"simplified".to_string(),
        7,
        &Some("\u{4F32}".to_string()),
    );
    let lines = vec![
        "{\"character\":\"\u{4F60}\",\"decomposition\":\"x\"}".to_string(),
        "not json".to_string(),
    ];
    let r = import_dictionary_data(&mut s, &lines);
    assert!(r.is_err());
    let rows = s.records();
    // The batch is rolled back; only the store-wide variants reset remains.
    assert_eq!(rows[0].decomposition, None);
    assert_eq!(rows[0].etymology, None);
    assert_eq!(rows[0].variants, None);
    assert_eq!(rows[0].script_type, Some("simplified".to_string()));
}

#[test]
fn metadata_sync_enriches_existing_characters() {
    let mut s = CharacterStore::new();
    s.upsert_level(&"\u{4F60}".to_string(), 2);
    let text = "{\"\u{4F60}\":{\"script\":\"simplified\",\"strokes\":7,\"variant\":\"\u{4F32}\"}}";
    let n = sync_json_metadata(&mut s, text).unwrap();
    assert_eq!(n, 1);
    let rows = s.records();
    assert_eq!(rows[0].script_type, Some("simplified".to_string()));
    assert_eq!(rows[0].stroke_count, Some(7));
    assert_eq!(rows[0].variants, Some("\u{4F32}".to_string()));
}

#[test]
fn metadata_sync_defaults_absent_fields() {
    let mut s = CharacterStore::new();
    s.upsert_level(&"\u{4F60}".to_string(), 2);
    let text = "{\"\u{4F60}\":{\"variant\":null}}";
    let n = sync_json_metadata(&mut s, text).unwrap();
    assert_eq!(n, 1);
    let rows = s.records();
    assert_eq!(rows[0].script_type, Some(String::new()));
    assert_eq!(rows[0].stroke_count, Some(0));
    assert_eq!(rows[0].variants, None);
}

#[test]
fn metadata_sync_counts_absent_characters_without_writing() {
    let mut s = CharacterStore::new();
    let text = "{\"\u{4F60}\":{\"script\":\"s\",\"strokes\":7,\"variant\":null}}";
    let n = sync_json_metadata(&mut s, text).unwrap();
    assert_eq!(n, 1);
    assert_eq!(s.records().len(), 0);
}

#[test]
fn metadata_sync_twice_matches_a_single_run() {
    let text = "{\"\u{4F60}\":{\"script\":\"simplified\",\"strokes\":7,\"variant\":null},\
                \"\u{597D}\":{\"script\":\"both\",\"strokes\":6,\"variant\":\"x\"}}";
    let mut once = CharacterStore::new();
    once.upsert_level(&"\u{4F60}".to_string(), 2);
    once.upsert_level(&"\u{597D}".to_string(), 3);
    let mut twice = CharacterStore::new();
    twice.upsert_level(&"\u{4F60}".to_string(), 2);
    twice.upsert_level(&"\u{597D}".to_string(), 3);
    sync_json_metadata(&mut once, text).unwrap();
    sync_json_metadata(&mut twice, text).unwrap();
    sync_json_metadata(&mut twice, text).unwrap();
    assert_eq!(once.records(), twice.records());
}

#[test]
fn metadata_sync_aborts_on_malformed_source() {
    let mut s = CharacterStore::new();
    s.upsert_level(&"\u{4F60}".to_string(), 2);
    let r = sync_json_metadata(&mut s, "[1,2,3]");
    assert!(r.is_err());
    assert_eq!(s.records()[0].script_type, None);
}

#[test]
fn level_sync_aborts_when_the_level_column_is_missing() {
    // A consistent table, but without the fifth column the format promises.
    let csv = "word,pinyin\n\u{4F60},a\n";
    let mut s = CharacterStore::new();
    let r = sync_hsk_levels(&mut s, csv);
    assert!(r.is_err());
    assert_eq!(s.records().len(), 0);
}

#[test]
fn level_sync_on_an_empty_table_applies_nothing() {
    let mut s = CharacterStore::new();
    let n = sync_hsk_levels(&mut s, "").unwrap();
    assert_eq!(n, 0);
    assert_eq!(s.records().len(), 0);
}
