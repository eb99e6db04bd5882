//! The query engine: point lookup and bulk component lookup, reading
//! through the character store and deriving component keys with the
//! decomposition parser.

use vstd::prelude::*;

use crate::parser::{components_of, parse_decomposition};
use crate::record::{models_of, CharacterData, RecordModel};
use crate::store::{
    chars_unique, has_char, index_of_char, key_set_contains, lemma_unique_index, spec_lookup_all,
    CharacterStore,
};

verus! {

/// Point lookup: the full record for `target`, or an error naming absence
/// when the store holds no such character — never an empty default record.
pub fn get_character_details(store: &CharacterStore, target: &String) -> (r: Result<
    CharacterData,
    String,
>)
    requires
        store.wf(),
    ensures
        (r is Ok) == has_char(store@, target@),
        r matches Ok(rec) ==> rec@ == store@[index_of_char(store@, target@)],
        r matches Err(m) ==> m@ == "character not found"@,
{
    match store.get_by_character(target) {
        Some(rec) => Ok(rec),
        None => Err("character not found".to_owned()),
    }
}

/// Bulk component lookup: parses the decomposition string and returns the
/// records of every component the store holds, in store order. An empty or
/// operator-only decomposition yields an empty list without touching the
/// store. Duplicated components collapse to at most one record each, and
/// unresolved components are simply absent: the result does not line up
/// index by index with the parsed components.
pub fn get_component_details(store: &CharacterStore, decomp: &str) -> (r: Vec<CharacterData>)
    requires
        store.wf(),
    ensures
        models_of(r@) == spec_lookup_all(store@, components_of(decomp@)),
        components_of(decomp@).len() == 0 ==> r@.len() == 0,
{
    let components = parse_decomposition(decomp);
    if components.is_empty() {
        let empty: Vec<CharacterData> = Vec::new();
        proof {
            let keys = components_of(decomp@);
            assert(keys.len() == 0);
            let pred = |m: RecordModel| key_set_contains(keys, m.character);
            store@.filter_lemma(pred);
            if store@.filter(pred).len() > 0 {
                assert(pred(store@.filter(pred)[0]));
            }
            assert(models_of(empty@) =~= spec_lookup_all(store@, keys));
        }
        return empty;
    }
    store.get_by_characters(&components)
}

/// A bulk lookup never returns two records for one component, however
/// often the component occurs in the decomposition: filtering a store
/// whose characters are unique keeps them unique.
pub proof fn lemma_lookup_result_unique(s: Seq<RecordModel>, keys: Seq<Seq<char>>)
    requires
        chars_unique(s),
    ensures
        chars_unique(spec_lookup_all(s, keys)),
    decreases s.len(),
{
    reveal(Seq::filter);
    let pred = |m: RecordModel| key_set_contains(keys, m.character);
    if s.len() > 0 {
        assert(chars_unique(s.drop_last()));
        lemma_lookup_result_unique(s.drop_last(), keys);
        let rest = s.drop_last().filter(pred);
        if pred(s.last()) {
            s.drop_last().filter_lemma(pred);
            assert forall|i: int| 0 <= i < rest.len() implies rest[i].character
                != s.last().character by {
                assert(s.drop_last().filter(pred).len() <= s.drop_last().len());
                let x = rest[i];
                assert(exists|j: int| 0 <= j < s.drop_last().len() && s.drop_last()[j] == x) by {
                    lemma_filter_element_in_source(s.drop_last(), pred, i);
                }
                let j = choose|j: int|
                    0 <= j < s.drop_last().len() && s.drop_last()[j] == x;
                assert(s[j].character != s.last().character);
            }
        }
    }
}

/// Every element a filter keeps stands somewhere in the source sequence.
proof fn lemma_filter_element_in_source(
    s: Seq<RecordModel>,
    pred: spec_fn(RecordModel) -> bool,
    i: int,
)
    requires
        0 <= i < s.filter(pred).len(),
    ensures
        exists|j: int| 0 <= j < s.len() && s[j] == s.filter(pred)[i],
    decreases s.len(),
{
    reveal(Seq::filter);
    if s.len() > 0 {
        let rest = s.drop_last().filter(pred);
        if i < rest.len() {
            lemma_filter_element_in_source(s.drop_last(), pred, i);
            let j = choose|j: int|
                0 <= j < s.drop_last().len() && s.drop_last()[j] == s.drop_last().filter(pred)[i];
            assert(s[j] == s.filter(pred)[i]);
        } else {
            assert(s[s.len() - 1] == s.filter(pred)[i]);
        }
    }
}

} // verus!
