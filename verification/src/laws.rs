//! Laws of the ingestion pipelines: re-running a sync changes nothing, a
//! level is never raised by later observations, and the store never grows
//! a second row for a character it already holds.

use vstd::prelude::*;

use crate::pipeline::{apply_levels, level_entry_ok, level_saturated, metadata_sync_effect};
use crate::record::RecordModel;
use crate::store::{
    chars_unique, has_char, index_of_char, level_merged, lemma_unique_index, minimal_record,
    record_for, spec_update_metadata, spec_update_structure, spec_upsert_level,
};

verus! {

/// One level upsert keeps characters unique: an existing record is merged
/// in place, and a new record is created only for a character the store
/// does not hold.
pub proof fn lemma_upsert_level_unique(s: Seq<RecordModel>, c: Seq<char>, l: int)
    requires
        chars_unique(s),
    ensures
        chars_unique(spec_upsert_level(s, c, l)),
        spec_upsert_level(s, c, l).len() == if has_char(s, c) {
            s.len() as int
        } else {
            s.len() as int + 1
        },
{
    if has_char(s, c) {
        let i = index_of_char(s, c);
        assert(0 <= i < s.len() && s[i].character == c);
        let s2 = s.update(i, level_merged(s[i], l));
        assert(forall|j: int| 0 <= j < s2.len() ==> s2[j].character == s[j].character);
    }
}

/// What one level upsert does to each character's record: the upserted
/// character gets the merged (or freshly created) record, and every other
/// character's record is untouched.
pub proof fn lemma_upsert_level_lookup(s: Seq<RecordModel>, c: Seq<char>, l: int, d: Seq<char>)
    requires
        chars_unique(s),
    ensures
        has_char(spec_upsert_level(s, c, l), d) == (has_char(s, d) || d == c),
        d == c ==> record_for(spec_upsert_level(s, c, l), c) == (if has_char(s, c) {
            level_merged(record_for(s, c), l)
        } else {
            minimal_record(s.len() as int + 1, c, l)
        }),
        d != c && has_char(s, d) ==> record_for(spec_upsert_level(s, c, l), d) == record_for(s, d),
{
    lemma_upsert_level_unique(s, c, l);
    let s2 = spec_upsert_level(s, c, l);
    if has_char(s, c) {
        let i = index_of_char(s, c);
        assert(0 <= i < s.len() && s[i].character == c);
        assert(forall|j: int| 0 <= j < s2.len() ==> s2[j].character == s[j].character);
        if d == c {
            assert(s2[i].character == c);
            lemma_unique_index(s2, index_of_char(s2, c), i);
            lemma_unique_index(s, index_of_char(s, c), i);
        } else {
            if has_char(s, d) {
                let j = index_of_char(s, d);
                assert(0 <= j < s.len() && s[j].character == d);
                assert(j != i);
                assert(s2[j] == s[j]);
                lemma_unique_index(s2, index_of_char(s2, d), j);
            }
            if has_char(s2, d) {
                let j2 = index_of_char(s2, d);
                assert(0 <= j2 < s2.len() && s2[j2].character == d);
                assert(s[j2].character == d);
                assert(has_char(s, d));
            }
        }
    } else {
        assert(s2 == s.push(minimal_record(s.len() as int + 1, c, l)));
        assert(s2[s.len() as int].character == c);
        if d == c {
            assert(has_char(s2, c));
            lemma_unique_index(s2, index_of_char(s2, c), s.len() as int);
        } else {
            if has_char(s, d) {
                let j = index_of_char(s, d);
                assert(0 <= j < s.len() && s[j].character == d);
                assert(s2[j] == s[j]);
                lemma_unique_index(s2, index_of_char(s2, d), j);
            }
            if has_char(s2, d) {
                let j2 = index_of_char(s2, d);
                assert(0 <= j2 < s2.len() && s2[j2].character == d);
                assert(j2 != s.len());
                assert(s[j2].character == d);
                assert(has_char(s, d));
            }
        }
    }
}

/// After one Level Sync run, every observed level bounds the stored one
/// from above: each planned character stands in the store with a non-null
/// level no higher than any level the run observed for it. Uniqueness is
/// kept, so the run never creates a second row for a character.
pub proof fn lemma_level_sync_saturates(s: Seq<RecordModel>, plan: Seq<(Seq<char>, int)>)
    requires
        chars_unique(s),
    ensures
        chars_unique(apply_levels(s, plan)),
        level_saturated(apply_levels(s, plan), plan),
    decreases plan.len(),
{
    if plan.len() > 0 {
        let pre = apply_levels(s, plan.drop_last());
        lemma_level_sync_saturates(s, plan.drop_last());
        let c = plan.last().0;
        let l = plan.last().1;
        let post = spec_upsert_level(pre, c, l);
        lemma_upsert_level_unique(pre, c, l);
        assert forall|k: int| 0 <= k < plan.len() implies level_entry_ok(
            post,
            #[trigger] plan[k],
        ) by {
            let e = plan[k];
            lemma_upsert_level_lookup(pre, c, l, e.0);
            if k < plan.len() - 1 {
                assert(plan.drop_last()[k] == e);
                assert(level_entry_ok(pre, e));
                if e.0 == c {
                    assert(record_for(post, c) == level_merged(record_for(pre, c), l));
                } else {
                    assert(record_for(post, e.0) == record_for(pre, e.0));
                }
            } else {
                assert(e == plan.last());
                if has_char(pre, c) {
                    assert(record_for(post, c) == level_merged(record_for(pre, c), l));
                } else {
                    assert(record_for(post, c) == minimal_record(pre.len() as int + 1, c, l));
                }
            }
        }
    }
}

/// A Level Sync run whose every observation the store already satisfies
/// writes nothing: each upsert finds the character present with a level at
/// or below the incoming one and leaves the record as it is.
pub proof fn lemma_level_sync_stable(s: Seq<RecordModel>, plan: Seq<(Seq<char>, int)>)
    requires
        chars_unique(s),
        level_saturated(s, plan),
    ensures
        apply_levels(s, plan) == s,
    decreases plan.len(),
{
    if plan.len() > 0 {
        assert forall|k: int| 0 <= k < plan.drop_last().len() implies level_entry_ok(
            s,
            #[trigger] plan.drop_last()[k],
        ) by {
            assert(plan.drop_last()[k] == plan[k]);
            assert(level_entry_ok(s, plan[k]));
        }
        lemma_level_sync_stable(s, plan.drop_last());
        let c = plan.last().0;
        let l = plan.last().1;
        assert(level_entry_ok(s, plan.last()));
        let i = index_of_char(s, c);
        assert(0 <= i < s.len() && s[i].character == c);
        lemma_unique_index(s, index_of_char(s, c), i);
        assert(level_merged(s[i], l) == s[i]);
        assert(s.update(i, s[i]) =~= s);
    }
}

/// Running Level Sync twice with the same source leaves the store exactly
/// as one run does: the first run drives every planned character's level
/// to or below every observed level, and the second then changes nothing.
pub proof fn lemma_level_sync_idempotent(s: Seq<RecordModel>, plan: Seq<(Seq<char>, int)>)
    requires
        chars_unique(s),
    ensures
        apply_levels(apply_levels(s, plan), plan) == apply_levels(s, plan),
{
    lemma_level_sync_saturates(s, plan);
    lemma_level_sync_stable(apply_levels(s, plan), plan);
}

/// Re-running Metadata Sync with identical source data leaves the store in
/// the same final state as running it once: the second run writes every
/// record the same fields it already carries.
pub proof fn lemma_metadata_sync_idempotent(
    s0: Seq<RecordModel>,
    s1: Seq<RecordModel>,
    s2: Seq<RecordModel>,
    m: Map<Seq<char>, (Option<Seq<char>>, Option<int>, Option<Seq<char>>)>,
)
    requires
        metadata_sync_effect(s0, s1, m),
        metadata_sync_effect(s1, s2, m),
    ensures
        s2 == s1,
{
    assert forall|i: int| 0 <= i < s1.len() implies s2[i] == s1[i] by {
        assert(s1[i].character == s0[i].character);
        if m.dom().contains(s0[i].character) {
            assert(s2[i] =~= s1[i]);
        }
    }
    assert(s2 =~= s1);
}


/// Update-only semantics: a structural or metadata write for a character
/// the store does not hold changes nothing at all — it is a silent no-op,
/// not an error and not an insert.
pub proof fn lemma_update_only_absent_is_noop(
    s: Seq<RecordModel>,
    c: Seq<char>,
    d: Seq<char>,
    e: Seq<char>,
    script: Seq<char>,
    strokes: int,
    variant: Option<Seq<char>>,
)
    requires
        !has_char(s, c),
    ensures
        spec_update_structure(s, c, d, e) == s,
        spec_update_metadata(s, c, script, strokes, variant) == s,
{
}


/// A Level Sync run never touches a character its plan does not name:
/// presence and record are exactly as before.
pub proof fn lemma_level_sync_untouched(
    s: Seq<RecordModel>,
    plan: Seq<(Seq<char>, int)>,
    d: Seq<char>,
)
    requires
        chars_unique(s),
        forall|k: int| 0 <= k < plan.len() ==> (#[trigger] plan[k]).0 != d,
    ensures
        has_char(apply_levels(s, plan), d) == has_char(s, d),
        has_char(s, d) ==> record_for(apply_levels(s, plan), d) == record_for(s, d),
    decreases plan.len(),
{
    if plan.len() > 0 {
        assert forall|k: int| 0 <= k < plan.drop_last().len() implies (#[trigger] plan.drop_last()[
            k
        ]).0 != d by {
            assert(plan.drop_last()[k] == plan[k]);
        }
        lemma_level_sync_untouched(s, plan.drop_last(), d);
        lemma_level_sync_saturates(s, plan.drop_last());
        assert(plan.last().0 != d);
        lemma_upsert_level_lookup(apply_levels(s, plan.drop_last()), plan.last().0, plan.last().1, d);
    }
}

/// A Level Sync run never raises a level: a character that already stood
/// in the store with a level keeps one that is no higher.
pub proof fn lemma_level_sync_never_raises(
    s: Seq<RecordModel>,
    plan: Seq<(Seq<char>, int)>,
    d: Seq<char>,
)
    requires
        chars_unique(s),
        has_char(s, d),
    ensures
        has_char(apply_levels(s, plan), d),
        record_for(s, d).hsk_level is Some ==> record_for(apply_levels(s, plan), d).hsk_level is Some
            && record_for(apply_levels(s, plan), d).hsk_level.unwrap() <= record_for(
            s,
            d,
        ).hsk_level.unwrap(),
    decreases plan.len(),
{
    if plan.len() > 0 {
        lemma_level_sync_never_raises(s, plan.drop_last(), d);
        lemma_level_sync_saturates(s, plan.drop_last());
        lemma_upsert_level_lookup(apply_levels(s, plan.drop_last()), plan.last().0, plan.last().1, d);
    }
}

/// Where a level after a Level Sync run comes from: for every planned
/// character, the stored level is one the run observed for that character,
/// or the level the record already carried. Together with
/// `lemma_level_sync_saturates` the stored level is exactly the minimum of
/// the observed levels and any pre-existing one.
pub proof fn lemma_level_sync_level_provenance(s: Seq<RecordModel>, plan: Seq<(Seq<char>, int)>)
    requires
        chars_unique(s),
    ensures
        forall|k: int|
            0 <= k < plan.len() ==> {
                let c = (#[trigger] plan[k]).0;
                let lv = record_for(apply_levels(s, plan), c).hsk_level;
                (exists|j: int| 0 <= j < plan.len() && (#[trigger] plan[j]).0 == c && lv == Some(
                    plan[j].1,
                )) || (has_char(s, c) && lv == record_for(s, c).hsk_level)
            },
    decreases plan.len(), 1int,
{
    if plan.len() > 0 {
        let pre = apply_levels(s, plan.drop_last());
        let c0 = plan.last().0;
        let l0 = plan.last().1;
        let post = spec_upsert_level(pre, c0, l0);
        lemma_level_sync_level_provenance(s, plan.drop_last());
        lemma_level_sync_saturates(s, plan.drop_last());
        assert forall|k: int| 0 <= k < plan.len() implies {
            let c = (#[trigger] plan[k]).0;
            let lv = record_for(post, c).hsk_level;
            (exists|j: int| 0 <= j < plan.len() && (#[trigger] plan[j]).0 == c && lv == Some(
                plan[j].1,
            )) || (has_char(s, c) && lv == record_for(s, c).hsk_level)
        } by {
            let c = plan[k].0;
            let lv = record_for(post, c).hsk_level;
            lemma_upsert_level_lookup(pre, c0, l0, c);
            if c == c0 {
                if !has_char(pre, c0) {
                    assert(record_for(post, c0) == minimal_record(pre.len() as int + 1, c0, l0));
                    assert(plan[plan.len() - 1].0 == c && lv == Some(plan[plan.len() - 1].1));
                } else {
                    assert(record_for(post, c0) == level_merged(record_for(pre, c0), l0));
                    if record_for(pre, c0).hsk_level is None || l0 < record_for(
                        pre,
                        c0,
                    ).hsk_level.unwrap() {
                        assert(plan[plan.len() - 1].0 == c && lv == Some(plan[plan.len() - 1].1));
                    } else {
                        provenance_of_pre(s, plan, c);
                    }
                }
            } else {
                assert(k < plan.len() - 1);
                assert(plan.drop_last()[k] == plan[k]);
                assert(record_for(post, c) == record_for(pre, c) || !has_char(pre, c));
                provenance_carries(s, plan, k);
            }
        }
    }
}

/// Helper: a character the last plan entry names, whose level the final
/// upsert kept, owes that level to the earlier entries or to the start.
proof fn provenance_of_pre(s: Seq<RecordModel>, plan: Seq<(Seq<char>, int)>, c: Seq<char>)
    requires
        chars_unique(s),
        plan.len() > 0,
        c == plan.last().0,
        has_char(apply_levels(s, plan.drop_last()), c),
        record_for(apply_levels(s, plan), c).hsk_level == record_for(
            apply_levels(s, plan.drop_last()),
            c,
        ).hsk_level,
    ensures
        (exists|j: int|
            0 <= j < plan.len() && (#[trigger] plan[j]).0 == c && record_for(
                apply_levels(s, plan),
                c,
            ).hsk_level == Some(plan[j].1)) || (has_char(s, c) && record_for(
            apply_levels(s, plan),
            c,
        ).hsk_level == record_for(s, c).hsk_level),
    decreases plan.len(), 0int,
{
    let pre = apply_levels(s, plan.drop_last());
    if exists|k: int| 0 <= k < plan.drop_last().len() && (#[trigger] plan.drop_last()[k]).0 == c {
        let k = choose|k: int|
            0 <= k < plan.drop_last().len() && (#[trigger] plan.drop_last()[k]).0 == c;
        lemma_level_sync_level_provenance(s, plan.drop_last());
        assert(plan.drop_last()[k] == plan[k]);
        if exists|j: int|
            0 <= j < plan.drop_last().len() && (#[trigger] plan.drop_last()[j]).0 == c
                && record_for(pre, c).hsk_level == Some(plan.drop_last()[j].1) {
            let j = choose|j: int|
                0 <= j < plan.drop_last().len() && (#[trigger] plan.drop_last()[j]).0 == c
                    && record_for(pre, c).hsk_level == Some(plan.drop_last()[j].1);
            assert(plan[j].0 == c && record_for(apply_levels(s, plan), c).hsk_level == Some(
                plan[j].1,
            ));
        }
    } else {
        assert forall|k: int| 0 <= k < plan.drop_last().len() implies (#[trigger] plan.drop_last()[
            k
        ]).0 != c by {}
        lemma_level_sync_untouched(s, plan.drop_last(), c);
    }
}

/// Helper: an entry before the last keeps its provenance through the final
/// upsert, which names a different character.
proof fn provenance_carries(s: Seq<RecordModel>, plan: Seq<(Seq<char>, int)>, k: int)
    requires
        chars_unique(s),
        plan.len() > 0,
        0 <= k < plan.len() - 1,
        plan[k].0 != plan.last().0,
        record_for(apply_levels(s, plan), plan[k].0).hsk_level == record_for(
            apply_levels(s, plan.drop_last()),
            plan[k].0,
        ).hsk_level,
    ensures
        (exists|j: int|
            0 <= j < plan.len() && (#[trigger] plan[j]).0 == plan[k].0 && record_for(
                apply_levels(s, plan),
                plan[k].0,
            ).hsk_level == Some(plan[j].1)) || (has_char(s, plan[k].0) && record_for(
            apply_levels(s, plan),
            plan[k].0,
        ).hsk_level == record_for(s, plan[k].0).hsk_level),
    decreases plan.len(), 0int,
{
    let c = plan[k].0;
    let pre = apply_levels(s, plan.drop_last());
    lemma_level_sync_level_provenance(s, plan.drop_last());
    assert(plan.drop_last()[k] == plan[k]);
    if exists|j: int|
        0 <= j < plan.drop_last().len() && (#[trigger] plan.drop_last()[j]).0 == c && record_for(
            pre,
            c,
        ).hsk_level == Some(plan.drop_last()[j].1) {
        let j = choose|j: int|
            0 <= j < plan.drop_last().len() && (#[trigger] plan.drop_last()[j]).0 == c
                && record_for(pre, c).hsk_level == Some(plan.drop_last()[j].1);
        assert(plan[j].0 == c && record_for(apply_levels(s, plan), c).hsk_level == Some(
            plan[j].1,
        ));
    }
}

} // verus!
