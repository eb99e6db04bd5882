//! The character record: the sole entity of the store, one row per
//! logographic unit, together with its mathematical model.

use vstd::prelude::*;

verus! {

/// One character record as it is stored and as it is handed to callers.
///
/// `character` is the key: the store keeps at most one record per character
/// value. `pinyin`, `radical` and `definition` are optional in practice and
/// may be empty strings. `hsk_level` obeys "lowest non-null value wins" when
/// sources disagree. The remaining optional fields are enrichment-only.
#[derive(Debug, Clone, PartialEq)]
pub struct CharacterData {
    pub id: i32,
    pub character: String,
    pub pinyin: String,
    pub radical: String,
    pub definition: String,
    pub hsk_level: Option<i32>,
    pub is_radical: bool,
    pub script_type: Option<String>,
    pub stroke_count: Option<i32>,
    pub decomposition: Option<String>,
    pub variants: Option<String>,
    pub radical_variants: Option<String>,
    pub etymology: Option<String>,
}

/// The mathematical model of a record: every string as a sequence of
/// characters, every integer unbounded.
#[verifier::ext_equal]
pub struct RecordModel {
    pub id: int,
    pub character: Seq<char>,
    pub pinyin: Seq<char>,
    pub radical: Seq<char>,
    pub definition: Seq<char>,
    pub hsk_level: Option<int>,
    pub is_radical: bool,
    pub script_type: Option<Seq<char>>,
    pub stroke_count: Option<int>,
    pub decomposition: Option<Seq<char>>,
    pub variants: Option<Seq<char>>,
    pub radical_variants: Option<Seq<char>>,
    pub etymology: Option<Seq<char>>,
}

pub open spec fn opt_string_model(s: Option<String>) -> Option<Seq<char>> {
    match s {
        Some(v) => Some(v@),
        None => None,
    }
}

pub open spec fn opt_i32_model(v: Option<i32>) -> Option<int> {
    match v {
        Some(n) => Some(n as int),
        None => None,
    }
}

impl View for CharacterData {
    type V = RecordModel;

    open spec fn view(&self) -> RecordModel {
        RecordModel {
            id: self.id as int,
            character: self.character@,
            pinyin: self.pinyin@,
            radical: self.radical@,
            definition: self.definition@,
            hsk_level: opt_i32_model(self.hsk_level),
            is_radical: self.is_radical,
            script_type: opt_string_model(self.script_type),
            stroke_count: opt_i32_model(self.stroke_count),
            decomposition: opt_string_model(self.decomposition),
            variants: opt_string_model(self.variants),
            radical_variants: opt_string_model(self.radical_variants),
            etymology: opt_string_model(self.etymology),
        }
    }
}

/// The models of a sequence of records, in order.
pub open spec fn models_of(rows: Seq<CharacterData>) -> Seq<RecordModel> {
    rows.map_values(|r: CharacterData| r@)
}

impl CharacterData {
    /// An exact copy of the record, field by field.
    pub fn duplicate(&self) -> (r: CharacterData)
        ensures
            r == *self,
    {
        CharacterData {
            id: self.id,
            character: self.character.clone(),
            pinyin: self.pinyin.clone(),
            radical: self.radical.clone(),
            definition: self.definition.clone(),
            hsk_level: self.hsk_level,
            is_radical: self.is_radical,
            script_type: clone_opt_string(&self.script_type),
            stroke_count: self.stroke_count,
            decomposition: clone_opt_string(&self.decomposition),
            variants: clone_opt_string(&self.variants),
            radical_variants: clone_opt_string(&self.radical_variants),
            etymology: clone_opt_string(&self.etymology),
        }
    }
}

/// An exact copy of an optional string.
pub fn clone_opt_string(s: &Option<String>) -> (r: Option<String>)
    ensures
        r == *s,
{
    match s {
        Some(v) => Some(v.clone()),
        None => None,
    }
}

} // verus!
