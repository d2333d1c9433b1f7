//! The general laws of the reconciliation engine, each stated over the
//! abstract values that the engine's contracts use and proved once and
//! for all: conflict detection is silent without a per-source
//! disagreement, merging only ever appends, re-importing the same entry
//! is idempotent, and resolving every conflict with take-incoming leaves
//! the incoming values in place.

use vstd::prelude::*;

use crate::models::{FieldName, OakEntryV, field_order};
use crate::reconcile::{
    ConflictV, DecisionV, ResolutionV, conflicts_for_fields, field_conflict, find_by_source,
    has_source, lemma_filter_all_false, lemma_filter_members, lemma_find_by_source_characterize,
    lemma_find_by_source_concat, merged_entry, merged_points, merged_syns, replace_by_source,
    replace_in_entry, spec_detect_conflicts, spec_resolve, value_for,
};

verus! {

/// One field of a merged entry is the merge of that field's lists.
proof fn lemma_merged_entry_field(e: OakEntryV, i: OakEntryV, f: FieldName)
    ensures
        merged_entry(e, i).field(f) == merged_points(e.field(f), i.field(f)),
{
}

/// One field of an entry after a replacement: the named field is
/// replaced, every other is untouched.
proof fn lemma_replace_in_entry_field(e: OakEntryV, f: FieldName, g: FieldName, sid: Seq<char>, v: Seq<char>)
    ensures
        f == g ==> replace_in_entry(e, f, sid, v).field(g) == replace_by_source(e.field(f), sid, v),
        f != g ==> replace_in_entry(e, f, sid, v).field(g) == e.field(g),
{
}

/// Conflict lists agree field by field, so they agree as wholes.
proof fn lemma_conflicts_for_fields_congruence(
    e1: OakEntryV,
    e2: OakEntryV,
    i: OakEntryV,
    sid: Seq<char>,
    fs: Seq<FieldName>,
)
    requires
        forall|k: int|
            0 <= k < fs.len() ==> field_conflict(e1, i, #[trigger] fs[k], sid) == field_conflict(
                e2,
                i,
                fs[k],
                sid,
            ),
    ensures
        conflicts_for_fields(e1, i, sid, fs) == conflicts_for_fields(e2, i, sid, fs),
    decreases fs.len(),
{
    if fs.len() > 0 {
        assert(forall|k: int|
            0 <= k < fs.drop_first().len() ==> #[trigger] fs.drop_first()[k] == fs[k + 1]);
        lemma_conflicts_for_fields_congruence(e1, e2, i, sid, fs.drop_first());
    }
}

/// A conflict list whose fields all raise nothing is empty.
proof fn lemma_conflicts_for_fields_none(
    e: OakEntryV,
    i: OakEntryV,
    sid: Seq<char>,
    fs: Seq<FieldName>,
)
    requires
        forall|k: int| 0 <= k < fs.len() ==> field_conflict(e, i, #[trigger] fs[k], sid) is None,
    ensures
        conflicts_for_fields(e, i, sid, fs) == Seq::<ConflictV>::empty(),
    decreases fs.len(),
{
    if fs.len() > 0 {
        assert(forall|k: int|
            0 <= k < fs.drop_first().len() ==> #[trigger] fs.drop_first()[k] == fs[k + 1]);
        lemma_conflicts_for_fields_none(e, i, sid, fs.drop_first());
        assert(Seq::<ConflictV>::empty() + Seq::<ConflictV>::empty()
            =~= Seq::<ConflictV>::empty());
    }
}

/// Conflict detection is empty whenever no field of the incoming entry
/// carries a data point of the source that the existing entry also
/// carries with a different value.
pub proof fn lemma_detect_conflicts_empty(e: OakEntryV, i: OakEntryV, sid: Seq<char>)
    requires
        forall|f: FieldName|
            !match (find_by_source(#[trigger] e.field(f), sid), find_by_source(i.field(f), sid)) {
                (Some(ed), Some(id)) => ed.value != id.value,
                _ => false,
            },
    ensures
        spec_detect_conflicts(e, i, sid) == Seq::<ConflictV>::empty(),
{
    assert forall|k: int|
        0 <= k < field_order().len() implies field_conflict(
        e,
        i,
        #[trigger] field_order()[k],
        sid,
    ) is None by {
        let f = field_order()[k];
        assert(!match (find_by_source(e.field(f), sid), find_by_source(i.field(f), sid)) {
            (Some(ed), Some(id)) => ed.value != id.value,
            _ => false,
        });
    }
    lemma_conflicts_for_fields_none(e, i, sid, field_order());
}

/// Merging never removes or alters an existing data point: the existing
/// list is a prefix of the merged list, and everything appended after it
/// comes from the incoming list and carries a source not yet present.
pub proof fn lemma_merge_appends_only(e: Seq<crate::models::DataPointV>, i: Seq<crate::models::DataPointV>)
    ensures
        merged_points(e, i).len() >= e.len(),
        forall|j: int| 0 <= j < e.len() ==> #[trigger] merged_points(e, i)[j] == e[j],
        forall|j: int|
            e.len() <= j < merged_points(e, i).len() ==> i.contains(
                #[trigger] merged_points(e, i)[j],
            ) && !has_source(e, merged_points(e, i)[j].source_id),
{
    let p = |dp: crate::models::DataPointV| !has_source(e, dp.source_id);
    lemma_filter_members(i, p);
    broadcast use vstd::seq_lib::group_filter_ensures;

    assert forall|j: int|
        e.len() <= j < merged_points(e, i).len() implies i.contains(
        #[trigger] merged_points(e, i)[j],
    ) && !has_source(e, merged_points(e, i)[j].source_id) by {
        assert(merged_points(e, i)[j] == i.filter(p)[j - e.len()]);
        assert(p(i.filter(p)[j - e.len()]));
    }
}

/// [`lemma_merge_appends_only`] lifted to whole entries: on every field
/// the existing data points stay in place, and whatever follows them
/// comes from the incoming entry with a fresh source.
pub proof fn lemma_merge_never_removes(e: OakEntryV, i: OakEntryV)
    ensures
        forall|f: FieldName| #[trigger] merged_entry(e, i).field(f).len() >= e.field(f).len(),
        forall|f: FieldName, j: int|
            0 <= j < e.field(f).len() ==> #[trigger] merged_entry(e, i).field(f)[j] == e.field(
                f,
            )[j],
        forall|f: FieldName, j: int|
            e.field(f).len() <= j < merged_entry(e, i).field(f).len() ==> i.field(f).contains(
                #[trigger] merged_entry(e, i).field(f)[j],
            ) && !has_source(e.field(f), merged_entry(e, i).field(f)[j].source_id),
{
    assert forall|f: FieldName| #[trigger] merged_entry(e, i).field(f).len() >= e.field(
        f,
    ).len() by {
        lemma_merged_entry_field(e, i, f);
        lemma_merge_appends_only(e.field(f), i.field(f));
    }
    assert forall|f: FieldName, j: int|
        0 <= j < e.field(f).len() implies #[trigger] merged_entry(e, i).field(f)[j] == e.field(
        f,
    )[j] by {
        lemma_merged_entry_field(e, i, f);
        lemma_merge_appends_only(e.field(f), i.field(f));
    }
    assert forall|f: FieldName, j: int|
        e.field(f).len() <= j < merged_entry(e, i).field(f).len() implies i.field(f).contains(
        #[trigger] merged_entry(e, i).field(f)[j],
    ) && !has_source(e.field(f), merged_entry(e, i).field(f)[j].source_id) by {
        lemma_merged_entry_field(e, i, f);
        lemma_merge_appends_only(e.field(f), i.field(f));
    }
}

/// A data point list that already holds every incoming source absorbs a
/// second merge of the same incoming list without change.
proof fn lemma_merged_points_idempotent(e: Seq<crate::models::DataPointV>, i: Seq<crate::models::DataPointV>)
    ensures
        merged_points(merged_points(e, i), i) == merged_points(e, i),
{
    let p = |dp: crate::models::DataPointV| !has_source(e, dp.source_id);
    let m = merged_points(e, i);
    let p2 = |dp: crate::models::DataPointV| !has_source(m, dp.source_id);
    broadcast use vstd::seq_lib::group_filter_ensures;

    assert forall|k: int| 0 <= k < i.len() implies !p2(#[trigger] i[k]) by {
        let src = i[k].source_id;
        if has_source(e, src) {
            lemma_find_by_source_concat(e, i.filter(p), src);
        } else {
            assert(p(i[k]));
            assert(i.filter(p).contains(i[k]));
            let j = choose|j: int| 0 <= j < i.filter(p).len() && i.filter(p)[j] == i[k];
            lemma_find_by_source_characterize(i.filter(p), src);
            if find_by_source(i.filter(p), src) is None {
                assert(i.filter(p)[j].source_id != src);
            }
            lemma_find_by_source_concat(e, i.filter(p), src);
        }
    }
    lemma_filter_all_false(i, p2);
    assert(m + Seq::<crate::models::DataPointV>::empty() =~= m);
}

/// A merged synonym list holds every original and every incoming
/// synonym.
proof fn lemma_merged_syns_contains(e: Seq<Seq<char>>, i: Seq<Seq<char>>)
    ensures
        forall|x: Seq<char>| e.contains(x) ==> merged_syns(e, i).contains(x),
        forall|k: int| 0 <= k < i.len() ==> merged_syns(e, i).contains(#[trigger] i[k]),
    decreases i.len(),
{
    if i.len() > 0 {
        let e1 = if e.contains(i[0]) {
            e
        } else {
            e.push(i[0])
        };
        lemma_merged_syns_contains(e1, i.drop_first());
        assert forall|x: Seq<char>| e.contains(x) implies e1.contains(x) by {
            let j = choose|j: int| 0 <= j < e.len() && e[j] == x;
            assert(e1[j] == x);
        }
        assert(e1.contains(i[0])) by {
            if !e.contains(i[0]) {
                assert(e1[e.len() as int] == i[0]);
            }
        }
        assert forall|k: int| 0 <= k < i.len() implies merged_syns(e, i).contains(
            #[trigger] i[k],
        ) by {
            if k > 0 {
                assert(i.drop_first()[k - 1] == i[k]);
            }
        }
    }
}

/// Merging synonyms that are all present already changes nothing.
proof fn lemma_merged_syns_noop(e: Seq<Seq<char>>, i: Seq<Seq<char>>)
    requires
        forall|k: int| 0 <= k < i.len() ==> e.contains(#[trigger] i[k]),
    ensures
        merged_syns(e, i) == e,
    decreases i.len(),
{
    if i.len() > 0 {
        assert(forall|k: int|
            0 <= k < i.drop_first().len() ==> #[trigger] i.drop_first()[k] == i[k + 1]);
        lemma_merged_syns_noop(e, i.drop_first());
    }
}

/// Merging the same incoming synonyms a second time changes nothing.
proof fn lemma_merged_syns_idempotent(e: Seq<Seq<char>>, i: Seq<Seq<char>>)
    ensures
        merged_syns(merged_syns(e, i), i) == merged_syns(e, i),
{
    lemma_merged_syns_contains(e, i);
    lemma_merged_syns_noop(merged_syns(e, i), i);
}

/// Looking for a source in a filtered list that kept every data point of
/// that source finds what the unfiltered list finds.
proof fn lemma_find_by_source_filter(
    s: Seq<crate::models::DataPointV>,
    p: spec_fn(crate::models::DataPointV) -> bool,
    sid: Seq<char>,
)
    requires
        forall|k: int| 0 <= k < s.len() && (#[trigger] s[k]).source_id == sid ==> p(s[k]),
    ensures
        find_by_source(s.filter(p), sid) == find_by_source(s, sid),
    decreases s.len(),
{
    if s.len() > 0 {
        let rest = s.drop_first();
        assert(s =~= seq![s[0]] + rest);
        Seq::filter_distributes_over_add(seq![s[0]], rest, p);
        assert(seq![s[0]].filter(p) == if p(s[0]) {
            seq![s[0]]
        } else {
            Seq::<crate::models::DataPointV>::empty()
        }) by {
            reveal(Seq::filter);
            assert(seq![s[0]].drop_last() =~= Seq::<crate::models::DataPointV>::empty());
            assert(Seq::<crate::models::DataPointV>::empty().filter(p)
                =~= Seq::<crate::models::DataPointV>::empty());
            assert(seq![s[0]].last() == s[0]);
            if p(s[0]) {
                assert(Seq::<crate::models::DataPointV>::empty().push(s[0]) =~= seq![s[0]]);
            }
        }
        assert(forall|k: int| 0 <= k < rest.len() ==> #[trigger] rest[k] == s[k + 1]);
        lemma_find_by_source_filter(rest, p, sid);
        if s[0].source_id == sid {
            assert(p(s[0]));
            assert(s.filter(p) == seq![s[0]] + rest.filter(p));
            assert((seq![s[0]] + rest.filter(p))[0] == s[0]);
        } else {
            if p(s[0]) {
                lemma_find_by_source_concat(seq![s[0]], rest.filter(p), sid);
                assert(seq![s[0]].drop_first() =~= Seq::<crate::models::DataPointV>::empty());
                assert(find_by_source(Seq::<crate::models::DataPointV>::empty(), sid) is None);
                assert(find_by_source(seq![s[0]], sid) is None);
            } else {
                assert(s.filter(p) =~= Seq::<crate::models::DataPointV>::empty() + rest.filter(p));
                assert(Seq::<crate::models::DataPointV>::empty() + rest.filter(p) =~= rest.filter(
                    p,
                ));
            }
        }
    } else {
        assert(s.filter(p) =~= s) by {
            reveal(Seq::filter);
        }
    }
}

/// After a merge, the same source raises the same conflicts against the
/// same incoming entry: values the source already had are untouched, and
/// values it lacked now equal the incoming ones.
proof fn lemma_field_conflict_after_merge(e: OakEntryV, i: OakEntryV, sid: Seq<char>, f: FieldName)
    ensures
        field_conflict(merged_entry(e, i), i, f, sid) == field_conflict(e, i, f, sid),
{
    let ef = e.field(f);
    let ifld = i.field(f);
    let p = |dp: crate::models::DataPointV| !has_source(ef, dp.source_id);
    lemma_merged_entry_field(e, i, f);
    lemma_find_by_source_concat(ef, ifld.filter(p), sid);
    if find_by_source(ef, sid) is None {
        assert forall|k: int|
            0 <= k < ifld.len() && (#[trigger] ifld[k]).source_id == sid implies p(ifld[k]) by {}
        lemma_find_by_source_filter(ifld, p, sid);
    }
}

/// Re-importing the exact same incoming entry is idempotent: the second
/// run raises exactly the conflicts of the first, and a second merge
/// changes nothing.  In particular, after a conflict-free import the
/// second run raises zero conflicts and leaves the entry as it is.
pub proof fn lemma_reimport_idempotent(e: OakEntryV, i: OakEntryV, sid: Seq<char>)
    ensures
        spec_detect_conflicts(merged_entry(e, i), i, sid) == spec_detect_conflicts(e, i, sid),
        merged_entry(merged_entry(e, i), i) == merged_entry(e, i),
{
    assert forall|k: int|
        0 <= k < field_order().len() implies field_conflict(
        merged_entry(e, i),
        i,
        #[trigger] field_order()[k],
        sid,
    ) == field_conflict(e, i, field_order()[k], sid) by {
        lemma_field_conflict_after_merge(e, i, sid, field_order()[k]);
    }
    lemma_conflicts_for_fields_congruence(merged_entry(e, i), e, i, sid, field_order());
    lemma_merged_points_idempotent(e.common_names, i.common_names);
    lemma_merged_points_idempotent(e.leaf_color, i.leaf_color);
    lemma_merged_points_idempotent(e.bud_shape, i.bud_shape);
    lemma_merged_points_idempotent(e.leaf_shape, i.leaf_shape);
    lemma_merged_points_idempotent(e.bark_texture, i.bark_texture);
    lemma_merged_points_idempotent(e.habitat, i.habitat);
    lemma_merged_points_idempotent(e.native_range, i.native_range);
    lemma_merged_points_idempotent(e.height, i.height);
    lemma_merged_syns_idempotent(e.synonyms, i.synonyms);
    assert(merged_entry(merged_entry(e, i), i) =~= merged_entry(e, i));
}

/// After a conflict-free import, which merges directly, re-importing the
/// exact same incoming entry for the same source raises zero conflicts
/// and changes nothing.
pub proof fn lemma_reimport_no_conflicts(e: OakEntryV, i: OakEntryV, sid: Seq<char>)
    requires
        spec_detect_conflicts(e, i, sid) == Seq::<ConflictV>::empty(),
    ensures
        spec_detect_conflicts(merged_entry(e, i), i, sid) == Seq::<ConflictV>::empty(),
        merged_entry(merged_entry(e, i), i) == merged_entry(e, i),
{
    lemma_reimport_idempotent(e, i, sid);
}

/// Every conflict of a detected list names a field of the walked list,
/// that field raises exactly that conflict, and no two conflicts name
/// the same field.
proof fn lemma_conflicts_for_fields_structure(
    e: OakEntryV,
    i: OakEntryV,
    sid: Seq<char>,
    fs: Seq<FieldName>,
)
    requires
        fs.no_duplicates(),
    ensures
        forall|m: int|
            0 <= m < conflicts_for_fields(e, i, sid, fs).len() ==> fs.contains(
                (#[trigger] conflicts_for_fields(e, i, sid, fs)[m]).field_name,
            ) && field_conflict(e, i, conflicts_for_fields(e, i, sid, fs)[m].field_name, sid)
                == Some(conflicts_for_fields(e, i, sid, fs)[m]),
        forall|m1: int, m2: int|
            0 <= m1 < m2 < conflicts_for_fields(e, i, sid, fs).len() ==> (
            #[trigger] conflicts_for_fields(e, i, sid, fs)[m1]).field_name != (
            #[trigger] conflicts_for_fields(e, i, sid, fs)[m2]).field_name,
    decreases fs.len(),
{
    if fs.len() > 0 {
        let rest = fs.drop_first();
        assert(rest.no_duplicates()) by {
            assert(forall|k: int| 0 <= k < rest.len() ==> #[trigger] rest[k] == fs[k + 1]);
        }
        lemma_conflicts_for_fields_structure(e, i, sid, rest);
        let cs = conflicts_for_fields(e, i, sid, fs);
        let head = match field_conflict(e, i, fs[0], sid) {
            Some(c) => seq![c],
            None => Seq::<ConflictV>::empty(),
        };
        let cr = conflicts_for_fields(e, i, sid, rest);
        assert(cs == head + cr);
        assert forall|m: int| 0 <= m < cs.len() implies fs.contains(
            (#[trigger] cs[m]).field_name,
        ) && field_conflict(e, i, cs[m].field_name, sid) == Some(cs[m]) by {
            if m < head.len() {
                assert(cs[m] == head[0]);
                assert(fs[0] == cs[m].field_name);
            } else {
                assert(cs[m] == cr[m - head.len()]);
                let g = cr[m - head.len()].field_name;
                assert(rest.contains(g));
                let k = choose|k: int| 0 <= k < rest.len() && rest[k] == g;
                assert(fs[k + 1] == g);
            }
        }
        assert forall|m1: int, m2: int|
            0 <= m1 < m2 < cs.len() implies (#[trigger] cs[m1]).field_name != (
        #[trigger] cs[m2]).field_name by {
            if m1 < head.len() {
                // the head conflict names fs[0], which occurs nowhere in the rest
                assert(cs[m1].field_name == fs[0]);
                assert(cs[m2] == cr[m2 - head.len()]);
                let g = cr[m2 - head.len()].field_name;
                assert(rest.contains(g));
                let k = choose|k: int| 0 <= k < rest.len() && rest[k] == g;
                assert(fs[k + 1] == g);
                if g == fs[0] {
                    assert(fs[0] == fs[k + 1]);
                }
            } else {
                assert(cs[m1] == cr[m1 - head.len()]);
                assert(cs[m2] == cr[m2 - head.len()]);
            }
        }
    }
}

/// Replacing the value for a source leaves that source present, now with
/// the new value.
proof fn lemma_find_replace_by_source(
    pts: Seq<crate::models::DataPointV>,
    sid: Seq<char>,
    v: Seq<char>,
)
    requires
        has_source(pts, sid),
    ensures
        value_for_points(replace_by_source(pts, sid, v), sid) == Some(v),
    decreases pts.len(),
{
    if pts[0].source_id == sid {
        let r = pts.update(0, crate::models::DataPointV { value: v, ..pts[0] });
        assert(r[0].source_id == sid);
    } else {
        let r = seq![pts[0]] + replace_by_source(pts.drop_first(), sid, v);
        lemma_find_replace_by_source(pts.drop_first(), sid, v);
        assert(r[0] == pts[0]);
        assert(r.drop_first() =~= replace_by_source(pts.drop_first(), sid, v));
    }
}

/// The value that `sid` asserts within one data point list, if any.
pub open spec fn value_for_points(pts: Seq<crate::models::DataPointV>, sid: Seq<char>) -> Option<
    Seq<char>,
> {
    match find_by_source(pts, sid) {
        Some(dp) => Some(dp.value),
        None => None,
    }
}

/// The inductive heart of the take-incoming law: from position `k` on,
/// with take-incoming decided everywhere, resolution succeeds and every
/// conflicting (field, source) pair ends up holding the incoming value.
proof fn lemma_resolve_take_steps(
    cur: OakEntryV,
    e: OakEntryV,
    i: OakEntryV,
    sid: Seq<char>,
    cs: Seq<ConflictV>,
    ds: Seq<DecisionV>,
    k: int,
)
    requires
        0 <= k <= cs.len(),
        ds.len() >= cs.len(),
        forall|m: int| k <= m < cs.len() ==> ds[m] == DecisionV::TakeIncoming,
        forall|m1: int, m2: int|
            0 <= m1 < m2 < cs.len() ==> (#[trigger] cs[m1]).field_name != (
            #[trigger] cs[m2]).field_name,
        forall|m: int|
            0 <= m < k ==> value_for_points(
                cur.field((#[trigger] cs[m]).field_name),
                sid,
            ) == Some(cs[m].import_value),
        forall|m: int|
            k <= m < cs.len() ==> has_source(cur.field((#[trigger] cs[m]).field_name), sid),
    ensures
        spec_resolve(cur, i, sid, cs, ds, k) matches ResolutionV::Resolved(r) && forall|m: int|
            0 <= m < cs.len() ==> value_for_points(r.field((#[trigger] cs[m]).field_name), sid)
                == Some(cs[m].import_value),
    decreases cs.len() - k,
{
    if k == cs.len() {
        let r = merged_entry(cur, i);
        assert forall|m: int|
            0 <= m < cs.len() implies value_for_points(
            r.field((#[trigger] cs[m]).field_name),
            sid,
        ) == Some(cs[m].import_value) by {
            let f = cs[m].field_name;
            lemma_merged_entry_field(cur, i, f);
            let p = |dp: crate::models::DataPointV| !has_source(cur.field(f), dp.source_id);
            lemma_find_by_source_concat(cur.field(f), i.field(f).filter(p), sid);
        }
    } else {
        let f = cs[k].field_name;
        let cur2 = replace_in_entry(cur, f, sid, cs[k].import_value);
        lemma_find_replace_by_source(cur.field(f), sid, cs[k].import_value);
        assert forall|m: int|
            0 <= m < k + 1 implies value_for_points(
            cur2.field((#[trigger] cs[m]).field_name),
            sid,
        ) == Some(cs[m].import_value) by {
            lemma_replace_in_entry_field(cur, f, cs[m].field_name, sid, cs[k].import_value);
        }
        assert forall|m: int|
            k + 1 <= m < cs.len() implies has_source(
            cur2.field((#[trigger] cs[m]).field_name),
            sid,
        ) by {
            lemma_replace_in_entry_field(cur, f, cs[m].field_name, sid, cs[k].import_value);
        }
        lemma_resolve_take_steps(cur2, e, i, sid, cs, ds, k + 1);
    }
}

/// Resolving with take-incoming on every conflict succeeds, and the
/// resulting entry's value for each conflicting (field, source) pair is
/// the incoming value.
pub proof fn lemma_resolve_all_take_incoming(
    e: OakEntryV,
    i: OakEntryV,
    sid: Seq<char>,
    ds: Seq<DecisionV>,
)
    requires
        ds.len() >= spec_detect_conflicts(e, i, sid).len(),
        forall|m: int|
            0 <= m < spec_detect_conflicts(e, i, sid).len() ==> ds[m] == DecisionV::TakeIncoming,
    ensures
        spec_resolve(e, i, sid, spec_detect_conflicts(e, i, sid), ds, 0)
            matches ResolutionV::Resolved(r) && forall|m: int|
            0 <= m < spec_detect_conflicts(e, i, sid).len() ==> value_for(
                r,
                (#[trigger] spec_detect_conflicts(e, i, sid)[m]).field_name,
                sid,
            ) == Some(spec_detect_conflicts(e, i, sid)[m].import_value),
{
    let fs = field_order();
    assert(fs.no_duplicates()) by {
        assert forall|m1: int, m2: int|
            0 <= m1 < m2 < fs.len() implies fs[m1] != fs[m2] by {
            assert(fs[0] == FieldName::CommonNames);
            assert(fs[1] == FieldName::LeafColor);
            assert(fs[2] == FieldName::BudShape);
            assert(fs[3] == FieldName::LeafShape);
            assert(fs[4] == FieldName::BarkTexture);
            assert(fs[5] == FieldName::Habitat);
            assert(fs[6] == FieldName::NativeRange);
            assert(fs[7] == FieldName::Height);
        }
    }
    lemma_conflicts_for_fields_structure(e, i, sid, fs);
    let cs = spec_detect_conflicts(e, i, sid);
    assert forall|m: int|
        0 <= m < cs.len() implies has_source(e.field((#[trigger] cs[m]).field_name), sid) by {
        assert(field_conflict(e, i, cs[m].field_name, sid) == Some(cs[m]));
    }
    lemma_resolve_take_steps(e, e, i, sid, cs, ds, 0);
    let r = choose|r: OakEntryV| spec_resolve(e, i, sid, cs, ds, 0) == ResolutionV::Resolved(r);
    assert forall|m: int|
        0 <= m < cs.len() implies value_for(r, (#[trigger] cs[m]).field_name, sid) == Some(
        cs[m].import_value,
    ) by {
        assert(value_for_points(r.field(cs[m].field_name), sid) == Some(cs[m].import_value));
    }
}

} // verus!
