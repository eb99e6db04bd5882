//! The character store: one record per character, with the conditional
//! upsert and update-only primitives that the ingestion pipelines use and
//! the point and membership queries that the query engine reads through.

use vstd::prelude::*;

use crate::record::{models_of, opt_string_model, CharacterData, RecordModel};

verus! {

/// Whether some record in `s` is keyed by the character `c`.
pub open spec fn has_char(s: Seq<RecordModel>, c: Seq<char>) -> bool {
    exists|i: int| 0 <= i < s.len() && s[i].character == c
}

/// The index of the record keyed by `c`; meaningful only when `has_char`
/// holds, and unique when the store is well formed.
pub open spec fn index_of_char(s: Seq<RecordModel>, c: Seq<char>) -> int {
    choose|i: int| 0 <= i < s.len() && s[i].character == c
}

/// The record keyed by `c`; meaningful only when `has_char` holds.
pub open spec fn record_for(s: Seq<RecordModel>, c: Seq<char>) -> RecordModel {
    s[index_of_char(s, c)]
}

/// No two records share a character: the uniqueness constraint of the store.
pub open spec fn chars_unique(s: Seq<RecordModel>) -> bool {
    forall|i: int, j: int| 0 <= i < j < s.len() ==> s[i].character != s[j].character
}

/// Well-formedness of the store contents: characters unique and non-empty,
/// surrogate ids assigned in creation order and immutable, and the row
/// count within the id type's range.
pub open spec fn store_wf(s: Seq<RecordModel>) -> bool {
    &&& chars_unique(s)
    &&& forall|i: int| 0 <= i < s.len() ==> s[i].character.len() > 0
    &&& forall|i: int| 0 <= i < s.len() ==> s[i].id == i + 1
    &&& s.len() <= i32::MAX
}

/// In a well-formed store two records with the same character are the same
/// record.
pub proof fn lemma_unique_index(s: Seq<RecordModel>, i: int, j: int)
    requires
        chars_unique(s),
        0 <= i < s.len(),
        0 <= j < s.len(),
        s[i].character == s[j].character,
    ensures
        i == j,
{
    if i < j {
        assert(s[i].character != s[j].character);
    } else if j < i {
        assert(s[j].character != s[i].character);
    }
}

/// The record `r` after merging an incoming level: the lowest non-null
/// level wins, so the incoming level is taken only when the record has no
/// level yet or a higher one.
pub open spec fn level_merged(r: RecordModel, level: int) -> RecordModel {
    if r.hsk_level is None || level < r.hsk_level.unwrap() {
        RecordModel { hsk_level: Some(level), ..r }
    } else {
        r
    }
}

/// The minimal record that a level upsert creates for a new character:
/// key and level set, every other field at its default.
pub open spec fn minimal_record(id: int, c: Seq<char>, level: int) -> RecordModel {
    RecordModel {
        id: id,
        character: c,
        pinyin: Seq::empty(),
        radical: Seq::empty(),
        definition: Seq::empty(),
        hsk_level: Some(level),
        is_radical: false,
        script_type: None,
        stroke_count: None,
        decomposition: None,
        variants: None,
        radical_variants: None,
        etymology: None,
    }
}

/// Effect of `upsert_level` on the store contents.
pub open spec fn spec_upsert_level(s: Seq<RecordModel>, c: Seq<char>, level: int) -> Seq<
    RecordModel,
> {
    if has_char(s, c) {
        let i = index_of_char(s, c);
        s.update(i, level_merged(s[i], level))
    } else {
        s.push(minimal_record(s.len() as int + 1, c, level))
    }
}

/// The record `r` with its structural fields replaced.
pub open spec fn with_structure(r: RecordModel, d: Seq<char>, e: Seq<char>) -> RecordModel {
    RecordModel { decomposition: Some(d), etymology: Some(e), ..r }
}

/// Effect of `update_structure` on the store contents: update-only, a
/// silent no-op when the character is absent.
pub open spec fn spec_update_structure(
    s: Seq<RecordModel>,
    c: Seq<char>,
    d: Seq<char>,
    e: Seq<char>,
) -> Seq<RecordModel> {
    if has_char(s, c) {
        let i = index_of_char(s, c);
        s.update(i, with_structure(s[i], d, e))
    } else {
        s
    }
}

/// The record `r` with its metadata fields replaced; `variant` may be
/// explicitly null.
pub open spec fn with_metadata(
    r: RecordModel,
    script: Seq<char>,
    strokes: int,
    variant: Option<Seq<char>>,
) -> RecordModel {
    RecordModel { script_type: Some(script), stroke_count: Some(strokes), variants: variant, ..r }
}

/// Effect of `update_metadata` on the store contents: update-only, a
/// silent no-op when the character is absent.
pub open spec fn spec_update_metadata(
    s: Seq<RecordModel>,
    c: Seq<char>,
    script: Seq<char>,
    strokes: int,
    variant: Option<Seq<char>>,
) -> Seq<RecordModel> {
    if has_char(s, c) {
        let i = index_of_char(s, c);
        s.update(i, with_metadata(s[i], script, strokes, variant))
    } else {
        s
    }
}

/// The record `r` with its variants field reset to null.
pub open spec fn cleared_variants(r: RecordModel) -> RecordModel {
    RecordModel { variants: None, ..r }
}

/// Effect of `reset_variants_field`: every record's variants reset.
pub open spec fn spec_clear_variants(s: Seq<RecordModel>) -> Seq<RecordModel> {
    s.map_values(|r: RecordModel| cleared_variants(r))
}

/// The store: the only component that owns the records. Its contents are
/// modelled as the sequence of record models, in creation order.
pub struct CharacterStore {
    rows: Vec<CharacterData>,
}

impl View for CharacterStore {
    type V = Seq<RecordModel>;

    closed spec fn view(&self) -> Seq<RecordModel> {
        models_of(self.rows@)
    }
}

impl CharacterStore {
    /// Well-formedness: the schema's uniqueness constraint and id rules.
    pub open spec fn wf(&self) -> bool {
        store_wf(self@)
    }

    /// A fresh, empty store. Creating the schema is idempotent: a new store
    /// holds no records and satisfies every constraint.
    pub fn new() -> (s: CharacterStore)
        ensures
            s.wf(),
            s@ == Seq::<RecordModel>::empty(),
    {
        let s = CharacterStore { rows: Vec::new() };
        proof {
            assert(s@ =~= Seq::<RecordModel>::empty());
        }
        s
    }

    /// The records, in creation order.
    pub fn records(&self) -> (r: &Vec<CharacterData>)
        ensures
            models_of(r@) == self@,
    {
        &self.rows
    }

    /// The number of records.
    pub fn len(&self) -> (n: usize)
        ensures
            n == self@.len(),
    {
        self.rows.len()
    }

    /// Builds a store from records read back from persistence, validating
    /// every well-formedness constraint; rejects contents that the store
    /// could never have produced.
    pub fn from_records(records: Vec<CharacterData>) -> (r: Result<CharacterStore, String>)
        ensures
            match r {
                Ok(s) => s.wf() && s@ == models_of(records@),
                Err(_) => !store_wf(models_of(records@)),
            },
    {
        let n = records.len();
        if n > i32::MAX as usize {
            return Err(string_of("too many records"));
        }
        for i in 0..n
            invariant
                n == records.len(),
                n <= i32::MAX,
                forall|j: int|
                    0 <= j < i ==> models_of(records@)[j].character.len() > 0 && models_of(
                        records@,
                    )[j].id == j + 1,
                forall|j: int, k: int|
                    0 <= j < k < i ==> models_of(records@)[j].character != models_of(
                        records@,
                    )[k].character,
        {
            if records[i].character.as_str().is_empty() {
                return Err(string_of("empty character key"));
            }
            if records[i].id != (i + 1) as i32 {
                return Err(string_of("ids not in creation order"));
            }
            let mut j: usize = 0;
            while j < i
                invariant
                    j <= i < n,
                    n == records.len(),
                    forall|k: int|
                        0 <= k < j ==> models_of(records@)[k].character != models_of(
                            records@,
                        )[i as int].character,
                decreases i - j,
            {
                if records[j].character == records[i].character {
                    proof {
                        assert(models_of(records@)[j as int].character == models_of(
                            records@,
                        )[i as int].character);
                        assert(!chars_unique(models_of(records@)));
                    }
                    return Err(string_of("duplicate character key"));
                }
                j += 1;
            }
        }
        let s = CharacterStore { rows: records };
        Ok(s)
    }

    /// The index of the record keyed by `character`, if any.
    fn find_index(&self, character: &String) -> (r: Option<usize>)
        requires
            self.wf(),
        ensures
            match r {
                Some(i) => i < self@.len() && self@[i as int].character == character@ && i
                    == index_of_char(self@, character@) && has_char(self@, character@),
                None => !has_char(self@, character@),
            },
    {
        let n = self.rows.len();
        for i in 0..n
            invariant
                self.wf(),
                n == self@.len(),
                forall|j: int| 0 <= j < i ==> self@[j].character != character@,
        {
            if self.rows[i].character == *character {
                proof {
                    lemma_unique_index(self@, i as int, index_of_char(self@, character@));
                }
                return Some(i);
            }
        }
        None
    }

    /// Conditional upsert: inserts a minimal record when the character is
    /// absent; when present, takes the incoming level only if the existing
    /// one is null or higher ("most basic level wins").
    pub fn upsert_level(&mut self, character: &String, level: i32)
        requires
            old(self).wf(),
            character@.len() > 0,
            old(self)@.len() < i32::MAX as int,
        ensures
            final(self).wf(),
            final(self)@ == spec_upsert_level(old(self)@, character@, level as int),
    {
        match self.find_index(character) {
            Some(i) => {
                let r = (&self.rows[i]).duplicate();
                let merged_level: Option<i32> = if r.hsk_level.is_none() || level
                    < r.hsk_level.unwrap() {
                    Some(level)
                } else {
                    r.hsk_level
                };
                let merged = CharacterData { hsk_level: merged_level, ..r };
                self.rows[i] = merged;
                proof {
                    assert(merged@ =~= level_merged(old(self)@[i as int], level as int));
                    assert(self@ =~= old(self)@.update(
                        i as int,
                        level_merged(old(self)@[i as int], level as int),
                    ));
                    assert(forall|j: int|
                        0 <= j < self@.len() ==> self@[j].character == old(
                            self,
                        )@[j].character && self@[j].id == old(self)@[j].id
                            && self@[j].character.len() > 0);
                }
            },
            None => {
                let id: i32 = (self.rows.len() + 1) as i32;
                let new_rec = CharacterData {
                    id,
                    character: character.clone(),
                    pinyin: String::new(),
                    radical: String::new(),
                    definition: String::new(),
                    hsk_level: Some(level),
                    is_radical: false,
                    script_type: None,
                    stroke_count: None,
                    decomposition: None,
                    variants: None,
                    radical_variants: None,
                    etymology: None,
                };
                self.rows.push(new_rec);
                proof {
                    assert(new_rec@ =~= minimal_record(
                        old(self)@.len() as int + 1,
                        character@,
                        level as int,
                    ));
                    assert(self@ =~= old(self)@.push(new_rec@));
                    assert(forall|j: int|
                        0 <= j < old(self)@.len() ==> self@[j] == old(self)@[j]);
                }
            },
        }
    }

    /// Update-only structural enrichment: sets decomposition and etymology
    /// on the record keyed by `character`; when absent, a silent no-op.
    pub fn update_structure(&mut self, character: &String, decomposition: &String, etymology: &String)
        requires
            old(self).wf(),
        ensures
            final(self).wf(),
            final(self)@ == spec_update_structure(old(self)@, character@, decomposition@, etymology@),
    {
        match self.find_index(character) {
            Some(i) => {
                let r = (&self.rows[i]).duplicate();
                let updated = CharacterData {
                    decomposition: Some(decomposition.clone()),
                    etymology: Some(etymology.clone()),
                    ..r
                };
                self.rows[i] = updated;
                proof {
                    assert(updated@ =~= with_structure(
                        old(self)@[i as int],
                        decomposition@,
                        etymology@,
                    ));
                    assert(self@ =~= old(self)@.update(
                        i as int,
                        with_structure(old(self)@[i as int], decomposition@, etymology@),
                    ));
                    assert(forall|j: int|
                        0 <= j < self@.len() ==> self@[j].character == old(
                            self,
                        )@[j].character && self@[j].id == old(self)@[j].id
                            && self@[j].character.len() > 0);
                }
            },
            None => {
            },
        }
    }

    /// Update-only metadata enrichment: sets script type, stroke count and
    /// variants (possibly explicitly null) on the record keyed by
    /// `character`; when absent, a silent no-op.
    pub fn update_metadata(
        &mut self,
        character: &String,
        script_type: &String,
        stroke_count: i32,
        variants: &Option<String>,
    )
        requires
            old(self).wf(),
        ensures
            final(self).wf(),
            final(self)@ == spec_update_metadata(
                old(self)@,
                character@,
                script_type@,
                stroke_count as int,
                opt_string_model(*variants),
            ),
    {
        match self.find_index(character) {
            Some(i) => {
                let r = (&self.rows[i]).duplicate();
                let updated = CharacterData {
                    script_type: Some(script_type.clone()),
                    stroke_count: Some(stroke_count),
                    variants: crate::record::clone_opt_string(variants),
                    ..r
                };
                self.rows[i] = updated;
                proof {
                    assert(updated@ =~= with_metadata(
                        old(self)@[i as int],
                        script_type@,
                        stroke_count as int,
                        opt_string_model(*variants),
                    ));
                    assert(self@ =~= old(self)@.update(
                        i as int,
                        with_metadata(
                            old(self)@[i as int],
                            script_type@,
                            stroke_count as int,
                            opt_string_model(*variants),
                        ),
                    ));
                    assert(forall|j: int|
                        0 <= j < self@.len() ==> self@[j].character == old(
                            self,
                        )@[j].character && self@[j].id == old(self)@[j].id
                            && self@[j].character.len() > 0);
                }
            },
            None => {
            },
        }
    }

    /// Bulk cleanup: resets the variants field to null on every record.
    pub fn reset_variants_field(&mut self)
        requires
            old(self).wf(),
        ensures
            final(self).wf(),
            final(self)@ == spec_clear_variants(old(self)@),
    {
        let n = self.rows.len();
        for i in 0..n
            invariant
                n == self@.len(),
                self@.len() == old(self)@.len(),
                forall|j: int| i <= j < n ==> self@[j] == old(self)@[j],
                forall|j: int| 0 <= j < i ==> self@[j] == cleared_variants(old(self)@[j]),
        {
            let ghost prev = self@;
            let r = (&self.rows[i]).duplicate();
            let updated = CharacterData { variants: None, ..r };
            self.rows[i] = updated;
            proof {
                assert(self@ =~= prev.update(i as int, updated@));
                assert(updated@ =~= cleared_variants(old(self)@[i as int]));
            }
        }
        proof {
            assert(self@ =~= spec_clear_variants(old(self)@));
            assert(forall|j: int|
                0 <= j < self@.len() ==> self@[j].character == old(self)@[j].character
                    && self@[j].id == old(self)@[j].id && self@[j].character.len() > 0);
        }
    }

    /// Bulk membership query: every record whose character occurs in
    /// `characters`, in store order. The result holds at most one record
    /// per requested character, however often it was requested, and simply
    /// omits characters that are absent from the store.
    pub fn get_by_characters(&self, characters: &Vec<String>) -> (r: Vec<CharacterData>)
        requires
            self.wf(),
        ensures
            models_of(r@) == spec_lookup_all(self@, characters.deep_view()),
    {
        let mut out: Vec<CharacterData> = Vec::new();
        let n = self.rows.len();
        for i in 0..n
            invariant
                self.wf(),
                n == self@.len(),
                models_of(out@) == spec_lookup_all(self@.take(i as int), characters.deep_view()),
        {
            proof {
                reveal(Seq::filter);
                assert(self@.take(i as int + 1).drop_last() =~= self@.take(i as int));
                assert(self@.take(i as int + 1).last() == self@[i as int]);
            }
            if keys_contain(characters, &self.rows[i].character) {
                out.push((&self.rows[i]).duplicate());
                proof {
                    reveal(Seq::filter);
                    assert(models_of(out@) =~= spec_lookup_all(
                        self@.take(i as int + 1),
                        characters.deep_view(),
                    ));
                }
            } else {
                proof {
                    reveal(Seq::filter);
                    assert(models_of(out@) =~= spec_lookup_all(
                        self@.take(i as int + 1),
                        characters.deep_view(),
                    ));
                }
            }
        }
        proof {
            assert(self@.take(self@.len() as int) =~= self@);
        }
        out
    }

    /// Point lookup: the record keyed by `character`, or nothing when it is
    /// absent — never a default record.
    pub fn get_by_character(&self, character: &String) -> (r: Option<CharacterData>)
        requires
            self.wf(),
        ensures
            match r {
                Some(rec) => has_char(self@, character@) && rec@ == self@[index_of_char(
                    self@,
                    character@,
                )],
                None => !has_char(self@, character@),
            },
            r is Some <==> has_char(self@, character@),
    {
        match self.find_index(character) {
            Some(i) => Some((&self.rows[i]).duplicate()),
            None => None,
        }
    }
}

/// Whether `c` occurs among the key strings `keys`.
pub open spec fn key_set_contains(keys: Seq<Seq<char>>, c: Seq<char>) -> bool {
    exists|i: int| 0 <= i < keys.len() && keys[i] == c
}

/// Effect of `get_by_characters`: the records whose character is a member
/// of the requested key set, in store order — duplicates in the request
/// collapse, since membership is all that is asked.
pub open spec fn spec_lookup_all(s: Seq<RecordModel>, keys: Seq<Seq<char>>) -> Seq<RecordModel> {
    s.filter(|m: RecordModel| key_set_contains(keys, m.character))
}

/// Whether `c` occurs in `keys`, by string contents.
fn keys_contain(keys: &Vec<String>, c: &String) -> (r: bool)
    ensures
        r == key_set_contains(keys.deep_view(), c@),
{
    let n = keys.len();
    for i in 0..n
        invariant
            n == keys.len(),
            forall|j: int| 0 <= j < i ==> keys.deep_view()[j] != c@,
    {
        if keys[i] == *c {
            proof {
                assert(keys.deep_view()[i as int] == c@);
            }
            return true;
        }
        proof {
            assert(keys.deep_view()[i as int] == keys@[i as int]@);
        }
    }
    false
}

/// An owned copy of a message string.
fn string_of(msg: &str) -> (r: String)
    ensures
        r@ == msg@,
{
    msg.to_owned()
}

} // verus!
