//! The three ingestion pipelines: Level Sync over the tabular level table,
//! Dictionary Sync over the line-delimited structured dictionary, and
//! Metadata Sync over the flat keyed metadata map. Each applies one store
//! write per source record and aborts, leaving no partial batch behind, on
//! the first malformed record.

use vstd::prelude::*;

use crate::record::RecordModel;
use crate::record::clone_opt_string;
use crate::record::opt_string_model;
use crate::source::{csv_rows_of, dict_entry_model, dict_fields_of, meta_fields_model, metadata_map_of, parse_csv_rows, parse_dict_line, parse_metadata_entries, RawDictEntry};
use crate::store::{has_char, index_of_char, lemma_unique_index, record_for, spec_clear_variants, spec_update_metadata, spec_update_structure, spec_upsert_level, with_metadata, CharacterStore};
use vstd::string::StringExecFns;

verus! {

/// Whether `c` is a decimal digit.
pub open spec fn spec_is_digit(c: char) -> bool {
    48 <= c as u32 <= 57
}

/// The numeric value of a sequence of decimal digits, most significant
/// first.
pub open spec fn digits_value(s: Seq<char>) -> int
    decreases s.len(),
{
    if s.len() == 0 {
        0
    } else {
        digits_value(s.drop_last()) * 10 + (s.last() as u32 - 48)
    }
}

/// Whether every character of `s` is a decimal digit.
pub open spec fn all_digits(s: Seq<char>) -> bool {
    forall|i: int| 0 <= i < s.len() ==> spec_is_digit(s[i])
}

/// The index of the first hyphen of `s`, or its length when it has none.
pub open spec fn first_dash(s: Seq<char>) -> int
    decreases s.len(),
{
    if s.len() == 0 {
        0
    } else if s[0] == '-' {
        0
    } else {
        1 + first_dash(s.drop_first())
    }
}

/// The first hyphen-delimited segment of `s`.
pub open spec fn first_segment(s: Seq<char>) -> Seq<char> {
    s.take(first_dash(s))
}

/// The digits of the first segment, an optional leading plus sign set
/// aside, as an integer parse reads them.
pub open spec fn segment_digits(s: Seq<char>) -> Seq<char> {
    let seg = first_segment(s);
    if seg.len() > 0 && seg[0] == '+' {
        seg.drop_first()
    } else {
        seg
    }
}

/// The level read from a level descriptor: the first hyphen-delimited
/// segment parsed as a decimal integer (an optional leading plus sign
/// allowed), or nothing when the segment is empty, holds a non-digit, or
/// overflows the level type.
pub open spec fn level_of_descriptor(s: Seq<char>) -> Option<int> {
    let body = segment_digits(s);
    if body.len() > 0 && all_digits(body) && digits_value(body) <= i32::MAX {
        Some(digits_value(body))
    } else {
        None
    }
}

/// A character position before the first hyphen with only non-hyphens
/// before it pins `first_dash` down.
proof fn lemma_first_dash_at(s: Seq<char>, i: int)
    requires
        0 <= i <= s.len(),
        forall|j: int| 0 <= j < i ==> s[j] != '-',
        i == s.len() || s[i] == '-',
    ensures
        first_dash(s) == i,
    decreases i, s.len(),
{
    if s.len() == 0 {
    } else if s[0] == '-' {
    } else {
        assert(i > 0);
        lemma_first_dash_at(s.drop_first(), i - 1);
    }
}

/// Digit values never go down as digits are appended.
proof fn lemma_digits_value_bounds(s: Seq<char>)
    requires
        all_digits(s),
    ensures
        digits_value(s) >= 0,
        s.len() > 0 ==> digits_value(s) >= digits_value(s.drop_last()),
    decreases s.len(),
{
    if s.len() > 0 {
        assert(all_digits(s.drop_last()));
        lemma_digits_value_bounds(s.drop_last());
    }
}

/// A prefix of a digit string never exceeds the whole string's value.
proof fn lemma_digits_prefix_le(s: Seq<char>, i: int)
    requires
        all_digits(s),
        0 <= i <= s.len(),
    ensures
        digits_value(s.take(i)) <= digits_value(s),
    decreases s.len() - i,
{
    if i < s.len() {
        lemma_digits_prefix_le(s, i + 1);
        assert(s.take(i + 1).drop_last() =~= s.take(i));
        assert(all_digits(s.take(i + 1)));
        lemma_digits_value_bounds(s.take(i + 1));
    } else {
        assert(s.take(i) =~= s);
    }
}

/// Parses a level descriptor: the first hyphen-delimited segment as a
/// decimal integer. Yields nothing when the segment does not parse; a
/// parsed zero is the caller's "no level" to skip.
pub fn parse_level_descriptor(descriptor: &str) -> (r: Option<i32>)
    ensures
        match r {
            Some(v) => level_of_descriptor(descriptor@) == Some(v as int),
            None => level_of_descriptor(descriptor@) is None,
        },
{
    let mut seg: Vec<char> = Vec::new();
    let mut stopped = false;
    for c in it: descriptor.chars()
        invariant
            it.seq() == descriptor@,
            stopped ==> exists|d: int|
                0 <= d < it.index() && descriptor@[d] == '-' && seg@ =~= descriptor@.take(d)
                    && forall|j: int| 0 <= j < d ==> descriptor@[j] != '-',
            !stopped ==> seg@ =~= descriptor@.take(it.index()) && forall|j: int|
                0 <= j < it.index() ==> descriptor@[j] != '-',
    {
        if !stopped {
            if c == '-' {
                stopped = true;
                proof {
                    assert(descriptor@[it.index()] == '-');
                }
            } else {
                seg.push(c);
                proof {
                    assert(seg@ =~= descriptor@.take(it.index() + 1));
                }
            }
        }
    }
    proof {
        if stopped {
            let d = choose|d: int|
                0 <= d < descriptor@.len() && descriptor@[d] == '-' && seg@ =~= descriptor@.take(d)
                    && forall|j: int| 0 <= j < d ==> descriptor@[j] != '-';
            lemma_first_dash_at(descriptor@, d);
        } else {
            lemma_first_dash_at(descriptor@, descriptor@.len() as int);
            assert(descriptor@.take(descriptor@.len() as int) =~= descriptor@);
        }
        assert(seg@ == first_segment(descriptor@));
    }
    let start: usize = if seg.len() > 0 && seg[0] == '+' {
        1
    } else {
        0
    };
    proof {
        if start == 1 {
            assert(segment_digits(descriptor@) =~= seg@.drop_first());
            assert(seg@.subrange(start as int, seg@.len() as int) =~= segment_digits(
                descriptor@,
            ));
        } else {
            assert(seg@.subrange(start as int, seg@.len() as int) =~= segment_digits(
                descriptor@,
            ));
        }
    }
    let ghost body = segment_digits(descriptor@);
    let n = seg.len();
    if start >= n {
        return None;
    }
    let mut val: i64 = 0;
    let mut i: usize = start;
    while i < n
        invariant
            start <= i <= n,
            n == seg.len(),
            body == segment_digits(descriptor@),
            body == seg@.subrange(start as int, n as int),
            body.len() == n - start,
            all_digits(body.take(i - start)),
            val == digits_value(body.take(i - start)),
            0 <= val <= i32::MAX,
        decreases n - i,
    {
        let u = seg[i] as u32;
        if u < 48 || u > 57 {
            proof {
                assert(body[i - start] == seg@[i as int]);
                assert(!spec_is_digit(body[i - start]));
                assert(!all_digits(body));
                assert(level_of_descriptor(descriptor@) is None);
            }
            return None;
        }
        proof {
            assert(body.take(i - start + 1).drop_last() =~= body.take(i - start));
            assert(body.take(i - start + 1).last() == seg@[i as int]);
            assert(all_digits(body.take(i - start + 1)));
        }
        val = val * 10 + ((u - 48) as i64);
        if val > i32::MAX as i64 {
            proof {
                if all_digits(body) {
                    lemma_digits_prefix_le(body, i - start + 1);
                    assert(digits_value(body) > i32::MAX);
                }
                assert(level_of_descriptor(descriptor@) is None);
            }
            return None;
        }
        i += 1;
    }
    proof {
        assert(body.take(n - start) =~= body);
    }
    Some(val as i32)
}

/// Whether the string holds exactly one character.
pub fn is_single_character(s: &str) -> (r: bool)
    ensures
        r == (s@.len() == 1),
{
    let mut seen_none = true;
    let mut seen_one = false;
    for c in it: s.chars()
        invariant
            it.seq() == s@,
            seen_none == (it.index() == 0),
            seen_one == (it.index() == 1),
    {
        seen_one = seen_none;
        seen_none = false;
    }
    seen_one
}

/// Whether a data row is eligible for a level write: a single-character
/// display form, and a level descriptor that parses to a positive level.
pub open spec fn eligible_row(row: Seq<Seq<char>>) -> bool {
    &&& row.len() >= 5
    &&& row[0].len() == 1
    &&& level_of_descriptor(row[4]) is Some
    &&& level_of_descriptor(row[4]).unwrap() > 0
}

/// Whether every data row carries the display-form and level-descriptor
/// columns the table format promises.
pub open spec fn rows_well_shaped(rows: Seq<Seq<Seq<char>>>) -> bool {
    forall|i: int| 0 <= i < rows.len() ==> rows[i].len() >= 5
}

/// The level writes that a run over these data rows performs: one
/// character-and-level pair per eligible row, in row order.
pub open spec fn level_plan(rows: Seq<Seq<Seq<char>>>) -> Seq<(Seq<char>, int)>
    decreases rows.len(),
{
    if rows.len() == 0 {
        Seq::empty()
    } else {
        let rest = level_plan(rows.drop_last());
        if eligible_row(rows.last()) {
            rest.push((rows.last()[0], level_of_descriptor(rows.last()[4]).unwrap()))
        } else {
            rest
        }
    }
}

/// The models of the staged level writes.
pub open spec fn plan_models(v: Seq<(String, i32)>) -> Seq<(Seq<char>, int)> {
    v.map_values(|p: (String, i32)| (p.0@, p.1 as int))
}

/// Whether the store already satisfies one observed level write: the
/// character is present with a non-null level at or below the observed
/// one.
pub open spec fn level_entry_ok(s: Seq<RecordModel>, e: (Seq<char>, int)) -> bool {
    &&& has_char(s, e.0)
    &&& record_for(s, e.0).hsk_level is Some
    &&& record_for(s, e.0).hsk_level.unwrap() <= e.1
}

/// Whether the store already satisfies every level write of the plan.
pub open spec fn level_saturated(s: Seq<RecordModel>, plan: Seq<(Seq<char>, int)>) -> bool {
    forall|k: int| 0 <= k < plan.len() ==> level_entry_ok(s, #[trigger] plan[k])
}

/// The store contents after the level writes of `plan` are applied in
/// order.
pub open spec fn apply_levels(s: Seq<RecordModel>, plan: Seq<(Seq<char>, int)>) -> Seq<RecordModel>
    decreases plan.len(),
{
    if plan.len() == 0 {
        s
    } else {
        spec_upsert_level(apply_levels(s, plan.drop_last()), plan.last().0, plan.last().1)
    }
}

/// Level Sync: reads the tabular level table from `csv_text` (a header row
/// then data rows), stages one level write per row whose display form is a
/// single character and whose descriptor parses to a positive level, and
/// applies the whole batch through the store's conditional upsert. Returns
/// how many rows were applied. On a malformed table, a row without the
/// promised columns, or a batch that would overrun the id space, the store
/// is left exactly as it was: no partial batch is ever applied.
pub fn sync_hsk_levels(store: &mut CharacterStore, csv_text: &str) -> (r: Result<usize, String>)
    requires
        old(store).wf(),
    ensures
        final(store).wf(),
        ({
            let parsed = csv_rows_of(csv_text@);
            match r {
                Ok(n) => {
                    &&& parsed is Some
                    &&& rows_well_shaped(parsed.unwrap())
                    &&& old(store)@.len() + level_plan(parsed.unwrap()).len() <= i32::MAX
                    &&& final(store)@ == apply_levels(old(store)@, level_plan(parsed.unwrap()))
                    &&& n == level_plan(parsed.unwrap()).len()
                },
                Err(_) => {
                    &&& final(store)@ == old(store)@
                    &&& (parsed is None || !rows_well_shaped(parsed.unwrap()) || old(
                        store,
                    )@.len() + level_plan(parsed.unwrap()).len() > i32::MAX)
                },
            }
        }),
{
    let rows = match parse_csv_rows(csv_text) {
        Ok(v) => v,
        Err(e) => {
            return Err(e);
        },
    };
    let ghost rmodels = csv_rows_of(csv_text@).unwrap();
    proof {
        assert(rmodels == rows.deep_view());
    }
    let mut plan: Vec<(String, i32)> = Vec::new();
    let nrows = rows.len();
    for i in 0..nrows
        invariant
            store == old(store),
            store.wf(),
            nrows == rows.len(),
            rmodels == rows.deep_view(),
            csv_rows_of(csv_text@) == Some(rmodels),
            forall|j: int| 0 <= j < i ==> rmodels[j].len() >= 5,
            plan_models(plan@) == level_plan(rmodels.take(i as int)),
            forall|k: int| 0 <= k < plan@.len() ==> (#[trigger] plan@[k].0)@.len() == 1,
    {
        proof {
            assert(rmodels[i as int] == rows@[i as int].deep_view());
            assert(rmodels.take(i as int + 1).drop_last() =~= rmodels.take(i as int));
            assert(rmodels.take(i as int + 1).last() == rmodels[i as int]);
        }
        if rows[i].len() < 5 {
            proof {
                assert(rmodels[i as int].len() < 5);
            }
            return Err("level table row lacks the level column".to_owned());
        }
        proof {
            assert(rmodels[i as int][0] == rows@[i as int]@[0]@);
            assert(rmodels[i as int][4] == rows@[i as int]@[4]@);
        }
        let mut staged = false;
        if is_single_character(rows[i][0].as_str()) {
            match parse_level_descriptor(rows[i][4].as_str()) {
                Some(l) => {
                    if l > 0 {
                        plan.push((rows[i][0].clone(), l));
                        staged = true;
                    }
                },
                None => {},
            }
        }
        proof {
            if staged {
                assert(eligible_row(rmodels[i as int]));
                assert(plan_models(plan@) =~= level_plan(rmodels.take(i as int + 1)));
            } else {
                assert(!eligible_row(rmodels[i as int]));
                assert(plan_models(plan@) =~= level_plan(rmodels.take(i as int + 1)));
            }
        }
    }
    proof {
        assert(rmodels.take(nrows as int) =~= rmodels);
        assert(rows_well_shaped(rmodels));
    }
    if plan.len() > i32::MAX as usize || store.len() > (i32::MAX as usize) - plan.len() {
        return Err("level table would overrun the store's id space".to_owned());
    }
    let nplan = plan.len();
    for i in 0..nplan
        invariant
            store.wf(),
            nplan == plan.len(),
            plan_models(plan@) == level_plan(rmodels),
            csv_rows_of(csv_text@) == Some(rmodels),
            rows_well_shaped(rmodels),
            forall|k: int| 0 <= k < plan@.len() ==> (#[trigger] plan@[k].0)@.len() == 1,
            store@ == apply_levels(old(store)@, plan_models(plan@).take(i as int)),
            store@.len() <= old(store)@.len() + i,
            old(store)@.len() + nplan <= i32::MAX,
    {
        proof {
            assert(plan_models(plan@).take(i as int + 1).drop_last() =~= plan_models(
                plan@,
            ).take(i as int));
            assert(plan_models(plan@).take(i as int + 1).last() == plan_models(plan@)[i as int]);
        }
        let c = plan[i].0.clone();
        let l = plan[i].1;
        store.upsert_level(&c, l);
        proof {
            assert(store@ == apply_levels(old(store)@, plan_models(plan@).take(i as int + 1)));
        }
    }
    proof {
        assert(plan_models(plan@).take(nplan as int) =~= plan_models(plan@));
    }
    Ok(nplan)
}


/// The string an optional field carries, or the empty string.
pub open spec fn opt_or_empty(v: Option<Seq<char>>) -> Seq<char> {
    match v {
        Some(s) => s,
        None => Seq::empty(),
    }
}

/// The etymology string materialized during ingestion: the type and the
/// hint joined as one "type: hint" text, both parts always present even
/// when empty.
pub open spec fn etymology_text(t: Seq<char>, h: Seq<char>) -> Seq<char> {
    t + ": "@ + h
}

/// Whether every dictionary line is a well-formed structured record.
pub open spec fn all_lines_parse(lines: Seq<Seq<char>>) -> bool {
    forall|i: int| 0 <= i < lines.len() ==> dict_fields_of(#[trigger] lines[i]) is Some
}

/// Effect of one dictionary line on the store contents: a structural
/// update for the line's character, or nothing when the line carries no
/// character (an empty or absent character value is skipped).
pub open spec fn apply_dict_line(s: Seq<RecordModel>, line: Seq<char>) -> Seq<RecordModel> {
    let f = dict_fields_of(line).unwrap();
    let c = opt_or_empty(f.0);
    if c.len() > 0 {
        spec_update_structure(
            s,
            c,
            opt_or_empty(f.1),
            etymology_text(opt_or_empty(f.2), opt_or_empty(f.3)),
        )
    } else {
        s
    }
}

/// The store contents after every dictionary line is applied, in order.
pub open spec fn apply_dict(s: Seq<RecordModel>, lines: Seq<Seq<char>>) -> Seq<RecordModel>
    decreases lines.len(),
{
    if lines.len() == 0 {
        s
    } else {
        apply_dict_line(apply_dict(s, lines.drop_last()), lines.last())
    }
}

/// How many dictionary lines carry a non-empty character: the count the
/// pipeline reports, whether or not the store held that character.
pub open spec fn dict_count(lines: Seq<Seq<char>>) -> int
    decreases lines.len(),
{
    if lines.len() == 0 {
        0int
    } else {
        dict_count(lines.drop_last()) + (
        if opt_or_empty(dict_fields_of(lines.last()).unwrap().0).len() > 0 {
            1int
        } else {
            0int
        })
    }
}

/// Dictionary Sync: resets the variants field store-wide (cleanup of a
/// historical data-quality issue), then applies one structural update per
/// line of the line-delimited dictionary source: the line's decomposition
/// and its "type: hint" etymology, update-only, so lines for characters
/// the store does not hold are silently dropped while still counted.
/// Returns how many lines carried a character. On the first malformed
/// line the whole batch is discarded: the store keeps only the variants
/// reset, exactly as a run whose batch was rolled back.
pub fn import_dictionary_data(store: &mut CharacterStore, lines: &Vec<String>) -> (r: Result<
    usize,
    String,
>)
    requires
        old(store).wf(),
    ensures
        final(store).wf(),
        (r is Ok) == all_lines_parse(lines.deep_view()),
        r matches Ok(n) ==> final(store)@ == apply_dict(
            spec_clear_variants(old(store)@),
            lines.deep_view(),
        ) && n == dict_count(lines.deep_view()),
        r is Err ==> final(store)@ == spec_clear_variants(old(store)@),
{
    let ghost lmodels = lines.deep_view();
    let mut entries: Vec<RawDictEntry> = Vec::new();
    let n = lines.len();
    for i in 0..n
        invariant
            store == old(store),
            store.wf(),
            n == lines.len(),
            lmodels == lines.deep_view(),
            entries.len() == i,
            forall|j: int|
                0 <= j < i ==> dict_fields_of(#[trigger] lmodels[j]) is Some && dict_entry_model(
                    entries@[j],
                ) == dict_fields_of(lmodels[j]).unwrap(),
    {
        proof {
            assert(lmodels[i as int] == lines@[i as int]@);
        }
        match parse_dict_line(lines[i].as_str()) {
            Ok(e) => {
                entries.push(e);
            },
            Err(e) => {
                proof {
                    assert(dict_fields_of(lmodels[i as int]) is None);
                    assert(!all_lines_parse(lmodels));
                }
                store.reset_variants_field();
                return Err(e);
            },
        }
    }
    proof {
        assert(all_lines_parse(lmodels));
    }
    store.reset_variants_field();
    let ghost cleared = spec_clear_variants(old(store)@);
    let mut count: usize = 0;
    for i in 0..n
        invariant
            store.wf(),
            n == lines.len(),
            n == entries.len(),
            lmodels == lines.deep_view(),
            all_lines_parse(lmodels),
            forall|j: int|
                0 <= j < n ==> dict_fields_of(#[trigger] lmodels[j]) is Some && dict_entry_model(
                    entries@[j],
                ) == dict_fields_of(lmodels[j]).unwrap(),
            store@ == apply_dict(cleared, lmodels.take(i as int)),
            count == dict_count(lmodels.take(i as int)),
            count <= i,
    {
        proof {
            assert(lmodels.take(i as int + 1).drop_last() =~= lmodels.take(i as int));
            assert(lmodels.take(i as int + 1).last() == lmodels[i as int]);
        }
        let e = &entries[i];
        match &e.character {
            Some(ch) => {
                if !ch.as_str().is_empty() {
                    let decomp = match &e.decomposition {
                        Some(d) => d.clone(),
                        None => String::new(),
                    };
                    let mut ety = match &e.etymology_type {
                        Some(t) => t.clone(),
                        None => String::new(),
                    };
                    ety.append(": ");
                    match &e.etymology_hint {
                        Some(h) => {
                            ety.append(h.as_str());
                        },
                        None => {
                        },
                    };
                    proof {
                        let f = dict_fields_of(lmodels[i as int]).unwrap();
                        assert(ch@ == opt_or_empty(f.0));
                        assert(decomp@ == opt_or_empty(f.1));
                        assert(ety@ =~= etymology_text(opt_or_empty(f.2), opt_or_empty(f.3)));
                    }
                    store.update_structure(ch, &decomp, &ety);
                    count += 1;
                }
            },
            None => {
            },
        }
        proof {
            assert(store@ == apply_dict(cleared, lmodels.take(i as int + 1)));
            assert(count == dict_count(lmodels.take(i as int + 1)));
        }
    }
    proof {
        assert(lmodels.take(n as int) =~= lmodels);
    }
    Ok(count)
}


/// The stroke count actually written: the source value when it is present
/// and fits the stored integer width, and zero otherwise.
pub open spec fn stroke_default(v: Option<int>) -> int {
    match v {
        Some(n) => if i32::MIN <= n <= i32::MAX {
            n
        } else {
            0
        },
        None => 0,
    }
}

/// The record `r` after one metadata entry with fields `f` is applied:
/// script type (empty when absent), stroke count (zero when absent), and
/// the variant exactly as carried, possibly null.
pub open spec fn meta_applied(
    r: RecordModel,
    f: (Option<Seq<char>>, Option<int>, Option<Seq<char>>),
) -> RecordModel {
    with_metadata(r, opt_or_empty(f.0), stroke_default(f.1), f.2)
}

/// The pointwise effect of one Metadata Sync run over the source map `m`:
/// every record whose character `m` maps gets that entry's fields, every
/// other record is untouched, and no record is created or dropped.
/// Iteration order over the map cannot matter: each entry only touches its
/// own record.
pub open spec fn metadata_sync_effect(
    pre: Seq<RecordModel>,
    post: Seq<RecordModel>,
    m: Map<Seq<char>, (Option<Seq<char>>, Option<int>, Option<Seq<char>>)>,
) -> bool {
    &&& post.len() == pre.len()
    &&& forall|i: int|
        0 <= i < pre.len() ==> post[i] == (if m.dom().contains(pre[i].character) {
            meta_applied(pre[i], m[pre[i].character])
        } else {
            pre[i]
        })
}

/// Metadata Sync: reads the flat keyed metadata map and applies one
/// update-only metadata write per entry; entries for characters the store
/// does not hold write nothing while still counted. Returns the number of
/// source entries. On a malformed source the store is left exactly as it
/// was.
pub fn sync_json_metadata(store: &mut CharacterStore, json_text: &str) -> (r: Result<
    usize,
    String,
>)
    requires
        old(store).wf(),
    ensures
        final(store).wf(),
        (r is Ok) == (metadata_map_of(json_text@) is Some),
        r matches Ok(n) ==> metadata_sync_effect(
            old(store)@,
            final(store)@,
            metadata_map_of(json_text@).unwrap(),
        ) && n == metadata_map_of(json_text@).unwrap().dom().len(),
        r is Err ==> final(store)@ == old(store)@,
{
    let entries = match parse_metadata_entries(json_text) {
        Ok(v) => v,
        Err(e) => {
            return Err(e);
        },
    };
    let ghost m = metadata_map_of(json_text@).unwrap();
    let ghost mut seen: Set<Seq<char>> = Set::empty();
    let n = entries.len();
    for k in 0..n
        invariant
            store.wf(),
            n == entries.len(),
            metadata_map_of(json_text@) == Some(m),
            forall|i: int|
                0 <= i < n ==> m.dom().contains(#[trigger] entries@[i].character@)
                    && m[entries@[i].character@] == meta_fields_model(entries@[i]),
            forall|i: int, j: int| 0 <= i < j < n ==> entries@[i].character@ != entries@[j].character@,
            store@.len() == old(store)@.len(),
            forall|i: int|
                0 <= i < old(store)@.len() ==> (#[trigger] store@[i]).character == old(
                    store,
                )@[i].character,
            seen.finite(),
            seen.len() == k,
            forall|c: Seq<char>|
                #[trigger] seen.contains(c) <==> exists|j: int|
                    0 <= j < k && (#[trigger] entries@[j].character@) == c,
            forall|i: int|
                0 <= i < old(store)@.len() ==> store@[i] == (if seen.contains(
                    old(store)@[i].character,
                ) {
                    meta_applied(old(store)@[i], m[old(store)@[i].character])
                } else {
                    old(store)@[i]
                }),
    {
        let e = &entries[k];
        let script = match &e.script {
            Some(s) => s.clone(),
            None => String::new(),
        };
        let strokes: i32 = match e.strokes {
            Some(v) => if v >= i32::MIN as i64 && v <= i32::MAX as i64 {
                v as i32
            } else {
                0
            },
            None => 0,
        };
        let variant = clone_opt_string(&e.variant);
        let ghost prev = store@;
        let ghost ch = e.character@;
        proof {
            assert(!seen.contains(ch));
            assert(m[ch] == meta_fields_model(entries@[k as int]));
            assert(script@ == opt_or_empty(m[ch].0));
            assert(strokes as int == stroke_default(m[ch].1));
            assert(opt_string_model(variant) == m[ch].2);
        }
        store.update_metadata(&e.character, &script, strokes, &variant);
        proof {
            seen = seen.insert(ch);
            if has_char(prev, ch) {
                let j0 = index_of_char(prev, ch);
                assert(store@ == prev.update(j0, with_metadata(prev[j0], script@, strokes as int, opt_string_model(variant))));
                assert(prev[j0] == old(store)@[j0]);
                assert(store@[j0] == meta_applied(old(store)@[j0], m[ch]));
                assert forall|i: int| 0 <= i < old(store)@.len() && i != j0 implies old(
                    store,
                )@[i].character != ch by {
                    if old(store)@[i].character == ch {
                        lemma_unique_index(prev, i, j0);
                    }
                }
            } else {
                assert forall|i: int| 0 <= i < old(store)@.len() implies old(
                    store,
                )@[i].character != ch by {
                    if old(store)@[i].character == ch {
                        assert(prev[i].character == ch);
                        assert(has_char(prev, ch));
                    }
                }
            }
        }
    }
    proof {
        assert forall|c: Seq<char>| seen.contains(c) implies m.dom().contains(c) by {
            let j = choose|j: int| 0 <= j < n && (#[trigger] entries@[j].character@) == c;
            assert(m.dom().contains(entries@[j].character@));
        }
        assert(seen =~= m.dom());
        assert(metadata_sync_effect(old(store)@, store@, m));
    }
    Ok(n)
}

} // verus!
