//! The decomposition parser: turns an Ideographic-Description-Sequence
//! string into the ordered list of its atomic component characters.

use vstd::prelude::*;

verus! {

/// Whether a character is an Ideographic Description Character, one of the
/// structural operators in the Unicode block U+2FF0..=U+2FFB.
pub open spec fn spec_is_ids_operator(c: char) -> bool {
    0x2FF0 <= c as u32 <= 0x2FFB
}

/// Exec check of `spec_is_ids_operator`.
pub fn is_ids_operator(c: char) -> (r: bool)
    ensures
        r == spec_is_ids_operator(c),
{
    let v: u32 = c as u32;
    0x2FF0 <= v && v <= 0x2FFB
}

/// The components of a decomposition sequence: the non-operator characters,
/// in original order and multiplicity, each as a one-character string.
pub open spec fn components_of(s: Seq<char>) -> Seq<Seq<char>>
    decreases s.len(),
{
    if s.len() == 0 {
        Seq::empty()
    } else if spec_is_ids_operator(s.last()) {
        components_of(s.drop_last())
    } else {
        components_of(s.drop_last()).push(seq![s.last()])
    }
}

/// The ordered list of component characters of a decomposition string:
/// every character of the input that is not an Ideographic Description
/// Character, in original order, duplicates kept, each as its own string.
/// Total: malformed or operator-only input yields the non-operator
/// characters, possibly none, never an error.
pub fn parse_decomposition(decomp: &str) -> (r: Vec<String>)
    ensures
        r.deep_view() == components_of(decomp@),
{
    let mut out: Vec<String> = Vec::new();
    for c in it: decomp.chars()
        invariant
            it.seq() == decomp@,
            out.deep_view() == components_of(decomp@.take(it.index())),
    {
        proof {
            assert(decomp@.take(it.index() + 1).drop_last() =~= decomp@.take(it.index()));
            assert(decomp@.take(it.index() + 1).last() == c);
        }
        if !is_ids_operator(c) {
            out.push(char_to_string(c));
        }
        proof {
            assert(out.deep_view() =~~= components_of(decomp@.take(it.index() + 1)));
        }
    }
    proof {
        assert(decomp@.take(decomp@.len() as int) =~= decomp@);
    }
    out
}

/// Relies on `char::to_string`: the string holding exactly this character.
#[verifier::external_body]
fn char_to_string(c: char) -> (r: String)
    ensures
        r@ == seq![c],
{
    c.to_string()
}

/// The components of a decomposition are exactly the non-operator
/// characters of the input, in original order, with original multiplicity.
pub proof fn lemma_components_are_filtered_input(s: Seq<char>)
    ensures
        components_of(s) == s.filter(|c: char| !spec_is_ids_operator(c)).map_values(
            |c: char| seq![c],
        ),
    decreases s.len(),
{
    reveal(Seq::filter);
    if s.len() == 0 {
        assert(components_of(s) =~~= s.filter(|c: char| !spec_is_ids_operator(c)).map_values(
            |c: char| seq![c],
        ));
    } else {
        lemma_components_are_filtered_input(s.drop_last());
        assert(components_of(s) =~~= s.filter(|c: char| !spec_is_ids_operator(c)).map_values(
            |c: char| seq![c],
        ));
    }
}

} // verus!
