//! The source decoders at the ingestion boundary: raw file text is turned
//! into typed source records here, through trusted declarations over the
//! outside parsing crates. Everything downstream of these records is
//! verified.

use vstd::prelude::*;

use crate::record::opt_string_model;

verus! {

/// The data rows of `text` read as a comma-separated table with a header
/// row (the header row itself excluded), every field as text, in file
/// order; nothing when the table is malformed. A name for what the csv
/// reader returns: it is a function of the text alone.
pub uninterp spec fn csv_rows_of(text: Seq<char>) -> Option<Seq<Seq<Seq<char>>>>;

/// Relies on `csv::Reader::records` (with `has_headers` enabled, reading
/// from the given text): yields the data rows after the header row, each a
/// record of text fields, or an error on a malformed table.
#[verifier::external_body]
pub fn parse_csv_rows(text: &str) -> (r: Result<Vec<Vec<String>>, String>)
    ensures
        (r is Ok) == (csv_rows_of(text@) is Some),
        r matches Ok(rows) ==> Some(rows.deep_view()) == csv_rows_of(text@),
{
    let mut rdr = csv::ReaderBuilder::new().has_headers(true).from_reader(text.as_bytes());
    let mut out: Vec<Vec<String>> = Vec::new();
    for rec in rdr.records() {
        match rec {
            Ok(row) => out.push(row.iter().map(|f| f.to_string()).collect()),
            Err(e) => return Err(e.to_string()),
        }
    }
    Ok(out)
}

/// One structured dictionary line as read from the source, before the
/// per-field defaults are applied: each field is present only when the
/// line carries it as a string.
pub struct RawDictEntry {
    pub character: Option<String>,
    pub decomposition: Option<String>,
    pub etymology_type: Option<String>,
    pub etymology_hint: Option<String>,
}

/// The model of one raw dictionary entry: character, decomposition,
/// etymology type and etymology hint.
pub open spec fn dict_entry_model(e: RawDictEntry) -> (
    Option<Seq<char>>,
    Option<Seq<char>>,
    Option<Seq<char>>,
    Option<Seq<char>>,
) {
    (
        opt_string_model(e.character),
        opt_string_model(e.decomposition),
        opt_string_model(e.etymology_type),
        opt_string_model(e.etymology_hint),
    )
}

/// The fields of `line` read as one structured dictionary record: its
/// `character` and `decomposition` strings and the `type` and `hint`
/// strings of its `etymology` object, each present only when the line
/// carries it as a string; nothing when the line is not well-formed. A
/// name for what the json parser returns: a function of the line alone.
pub uninterp spec fn dict_fields_of(line: Seq<char>) -> Option<
    (Option<Seq<char>>, Option<Seq<char>>, Option<Seq<char>>, Option<Seq<char>>),
>;

/// Relies on `serde_json::from_str` for one line, `Value::as_str`, and
/// value indexing (which yields null for a missing or non-object path):
/// reads the four dictionary fields of the line, or an error when the
/// line is not valid json.
#[verifier::external_body]
pub fn parse_dict_line(line: &str) -> (r: Result<RawDictEntry, String>)
    ensures
        (r is Ok) == (dict_fields_of(line@) is Some),
        r matches Ok(e) ==> Some(dict_entry_model(e)) == dict_fields_of(line@),
{
    let v: serde_json::Value = serde_json::from_str(line).map_err(|e| e.to_string())?;
    Ok(RawDictEntry {
        character: v["character"].as_str().map(|s| s.to_string()),
        decomposition: v["decomposition"].as_str().map(|s| s.to_string()),
        etymology_type: v["etymology"]["type"].as_str().map(|s| s.to_string()),
        etymology_hint: v["etymology"]["hint"].as_str().map(|s| s.to_string()),
    })
}

/// One metadata entry as read from the flat keyed source, before the
/// per-field defaults are applied.
pub struct MetaEntry {
    pub character: String,
    pub script: Option<String>,
    pub strokes: Option<i64>,
    pub variant: Option<String>,
}

pub open spec fn opt_i64_model(v: Option<i64>) -> Option<int> {
    match v {
        Some(n) => Some(n as int),
        None => None,
    }
}

/// The model of one raw metadata entry's fields: script, strokes, variant.
pub open spec fn meta_fields_model(e: MetaEntry) -> (Option<Seq<char>>, Option<int>, Option<
    Seq<char>,
>) {
    (opt_string_model(e.script), opt_i64_model(e.strokes), opt_string_model(e.variant))
}

/// The contents of `text` read as one flat json object mapping each
/// character to its `script` string, `strokes` integer and `variant`
/// string, each present only when carried with that type; nothing when the
/// text is not such an object. A name for what the json parser returns: a
/// function of the text alone.
pub uninterp spec fn metadata_map_of(text: Seq<char>) -> Option<
    Map<Seq<char>, (Option<Seq<char>>, Option<int>, Option<Seq<char>>)>,
>;

/// Relies on `serde_json::from_str` into a map keyed by string,
/// `Value::as_str` and `Value::as_i64`: yields every entry of the object
/// exactly once, keys distinct, in no promised order, or an error when the
/// text is not such an object.
#[verifier::external_body]
pub fn parse_metadata_entries(text: &str) -> (r: Result<Vec<MetaEntry>, String>)
    ensures
        (r is Ok) == (metadata_map_of(text@) is Some),
        r matches Ok(v) ==> {
            let m = metadata_map_of(text@).unwrap();
            &&& forall|i: int|
                0 <= i < v@.len() ==> m.dom().contains(#[trigger] v@[i].character@)
                    && m[v@[i].character@] == meta_fields_model(v@[i])
            &&& forall|i: int, j: int|
                0 <= i < j < v@.len() ==> v@[i].character@ != v@[j].character@
            &&& forall|k: Seq<char>|
                m.dom().contains(k) ==> exists|i: int| 0 <= i < v@.len() && #[trigger] v@[i].character@ == k
        },
{
    let map: std::collections::HashMap<String, serde_json::Value> =
        serde_json::from_str(text).map_err(|e| e.to_string())?;
    let mut out: Vec<MetaEntry> = Vec::new();
    for (k, d) in map {
        out.push(MetaEntry {
            character: k,
            script: d["script"].as_str().map(|s| s.to_string()),
            strokes: d["strokes"].as_i64(),
            variant: d["variant"].as_str().map(|s| s.to_string()),
        });
    }
    Ok(out)
}

} // verus!
