//! The reconciliation engine: detection of per-source, per-field conflicts
//! between an existing entry and an incoming one, merging of attributed
//! values from sources not yet present, and resolution of conflicts by a
//! sequence of externally supplied decisions.

use vstd::prelude::*;

use crate::models::{DataPoint, DataPointV, FieldName, OakEntry, OakEntryV, field_order, pts_view};
use vstd::pervasive::VecAdditionalExecFns;

verus! {

/// The first data point of `pts` attributed to `sid`, if any.
pub open spec fn find_by_source(pts: Seq<DataPointV>, sid: Seq<char>) -> Option<DataPointV>
    decreases pts.len(),
{
    if pts.len() == 0 {
        None
    } else if pts[0].source_id == sid {
        Some(pts[0])
    } else {
        find_by_source(pts.drop_first(), sid)
    }
}

/// Whether some data point of `pts` is attributed to `sid`.
pub open spec fn has_source(pts: Seq<DataPointV>, sid: Seq<char>) -> bool {
    find_by_source(pts, sid) is Some
}

/// A field list is well formed when no two of its data points are
/// attributed to the same source.
pub open spec fn pts_wf(pts: Seq<DataPointV>) -> bool {
    forall|a: int, b: int|
        0 <= a < b < pts.len() ==> (#[trigger] pts[a]).source_id != (#[trigger] pts[b]).source_id
}

/// An entry is well formed when every one of its field lists is.
pub open spec fn entry_fields_wf(e: OakEntryV) -> bool {
    forall|f: FieldName| pts_wf(#[trigger] e.field(f))
}

/// Looking for a source past a clean prefix looks in the rest alone.
proof fn lemma_find_by_source_skip(pts: Seq<DataPointV>, sid: Seq<char>, j: int)
    requires
        0 <= j <= pts.len(),
        forall|k: int| 0 <= k < j ==> (#[trigger] pts[k]).source_id != sid,
    ensures
        find_by_source(pts, sid) == find_by_source(pts.skip(j), sid),
    decreases j,
{
    if j == 0 {
        assert(pts.skip(0) =~= pts);
    } else {
        lemma_find_by_source_skip(pts, sid, j - 1);
        assert(pts.skip(j - 1).drop_first() =~= pts.skip(j));
    }
}

/// What a successful or failed lookup says about the list itself.
pub proof fn lemma_find_by_source_characterize(pts: Seq<DataPointV>, sid: Seq<char>)
    ensures
        match find_by_source(pts, sid) {
            None => forall|k: int| 0 <= k < pts.len() ==> (#[trigger] pts[k]).source_id != sid,
            Some(dp) => exists|k: int|
                0 <= k < pts.len() && #[trigger] pts[k] == dp && dp.source_id == sid,
        },
    decreases pts.len(),
{
    if pts.len() > 0 && pts[0].source_id != sid {
        lemma_find_by_source_characterize(pts.drop_first(), sid);
        match find_by_source(pts, sid) {
            None => {
                assert forall|k: int| 0 <= k < pts.len() implies (#[trigger] pts[k]).source_id
                    != sid by {
                    if k > 0 {
                        assert(pts.drop_first()[k - 1] == pts[k]);
                    }
                }
            },
            Some(dp) => {
                let k = choose|k: int|
                    0 <= k < pts.drop_first().len() && #[trigger] pts.drop_first()[k] == dp
                        && dp.source_id == sid;
                assert(pts[k + 1] == dp);
            },
        }
    }
}

/// Looking through a concatenation looks left first, then right.
pub proof fn lemma_find_by_source_concat(a: Seq<DataPointV>, b: Seq<DataPointV>, sid: Seq<char>)
    ensures
        find_by_source(a + b, sid) == if find_by_source(a, sid) is Some {
            find_by_source(a, sid)
        } else {
            find_by_source(b, sid)
        },
    decreases a.len(),
{
    if a.len() == 0 {
        assert(a + b =~= b);
    } else {
        assert((a + b)[0] == a[0]);
        assert((a + b).drop_first() =~= a.drop_first() + b);
        lemma_find_by_source_concat(a.drop_first(), b, sid);
    }
}

/// Compares two strings by their character sequences.
pub(crate) fn eq_str(a: &String, b: &String) -> (r: bool)
    ensures
        r == (a@ == b@),
{
    a.eq(b)
}

/// Index of the first data point among the first `n` of `pts` that is
/// attributed to `source_id`, if any.
fn find_source_index_within(pts: &Vec<DataPoint>, n: usize, source_id: &String) -> (r: Option<
    usize,
>)
    requires
        n <= pts@.len(),
    ensures
        match r {
            Some(i) => i < n && pts@[i as int]@.source_id == source_id@ && find_by_source(
                pts_view(pts@).take(n as int),
                source_id@,
            ) == Some(pts@[i as int]@) && forall|j: int|
                0 <= j < i ==> (#[trigger] pts@[j]@).source_id != source_id@,
            None => find_by_source(pts_view(pts@).take(n as int), source_id@) is None,
        },
{
    let ghost pv = pts_view(pts@).take(n as int);
    let mut i: usize = 0;
    while i < n
        invariant
            n <= pts@.len(),
            i <= n,
            pv == pts_view(pts@).take(n as int),
            forall|k: int| 0 <= k < i ==> (#[trigger] pv[k]).source_id != source_id@,
        decreases n - i,
    {
        if eq_str(&pts[i].source_id, source_id) {
            proof {
                lemma_find_by_source_skip(pv, source_id@, i as int);
                assert(pv.skip(i as int)[0] == pv[i as int]);
                assert(pv[i as int] == pts@[i as int]@);
                assert forall|j: int| 0 <= j < i implies (#[trigger] pts@[j]@).source_id
                    != source_id@ by {
                    assert(pv[j] == pts@[j]@);
                }
            }
            return Some(i);
        }
        proof {
            assert(pv[i as int] == pts@[i as int]@);
        }
        i += 1;
    }
    proof {
        lemma_find_by_source_skip(pv, source_id@, n as int);
        assert(pv.skip(n as int) =~= Seq::<DataPointV>::empty());
    }
    None
}

/// Index of the first data point of `pts` attributed to `source_id`, if
/// any.
fn find_source_index(pts: &Vec<DataPoint>, source_id: &String) -> (r: Option<usize>)
    ensures
        match r {
            Some(i) => i < pts@.len() && pts@[i as int]@.source_id == source_id@ && find_by_source(
                pts_view(pts@),
                source_id@,
            ) == Some(pts@[i as int]@) && forall|j: int|
                0 <= j < i ==> (#[trigger] pts@[j]@).source_id != source_id@,
            None => find_by_source(pts_view(pts@), source_id@) is None,
        },
{
    let n = pts.len();
    proof {
        assert(pts_view(pts@).take(n as int) =~= pts_view(pts@));
    }
    find_source_index_within(pts, n, source_id)
}

/// The value that `sid` asserts for the field `f` of `e`, if any.
pub open spec fn value_for(e: OakEntryV, f: FieldName, sid: Seq<char>) -> Option<Seq<char>> {
    match find_by_source(e.field(f), sid) {
        Some(dp) => Some(dp.value),
        None => None,
    }
}

/// A disagreement between the existing and the incoming entry: the same
/// source asserts different values for the same field.
pub struct Conflict {
    /// The field on which the two entries disagree.
    pub field_name: FieldName,
    /// The value currently recorded for the source.
    pub db_value: String,
    /// The value the import supplies for the same source.
    pub import_value: String,
}

/// Abstract value of a [`Conflict`].
#[verifier::ext_equal]
pub struct ConflictV {
    pub field_name: FieldName,
    pub db_value: Seq<char>,
    pub import_value: Seq<char>,
}

impl View for Conflict {
    type V = ConflictV;

    open spec fn view(&self) -> ConflictV {
        ConflictV {
            field_name: self.field_name,
            db_value: self.db_value@,
            import_value: self.import_value@,
        }
    }
}

impl Clone for Conflict {
    fn clone(&self) -> (r: Self)
        ensures
            r == *self,
    {
        Conflict {
            field_name: self.field_name,
            db_value: self.db_value.clone(),
            import_value: self.import_value.clone(),
        }
    }
}

/// Abstract value of a list of conflicts.
pub open spec fn conflicts_view(cs: Seq<Conflict>) -> Seq<ConflictV> {
    cs.map_values(|c: Conflict| c@)
}

/// The conflict that one field raises, if any: the same source has a data
/// point on both sides and the two values differ.
pub open spec fn field_conflict(e: OakEntryV, i: OakEntryV, f: FieldName, sid: Seq<char>) -> Option<
    ConflictV,
> {
    match (find_by_source(e.field(f), sid), find_by_source(i.field(f), sid)) {
        (Some(ed), Some(id)) => if ed.value != id.value {
            Some(ConflictV { field_name: f, db_value: ed.value, import_value: id.value })
        } else {
            None
        },
        _ => None,
    }
}

/// The conflicts raised by the fields of `fs`, in their order.
pub open spec fn conflicts_for_fields(
    e: OakEntryV,
    i: OakEntryV,
    sid: Seq<char>,
    fs: Seq<FieldName>,
) -> Seq<ConflictV>
    decreases fs.len(),
{
    if fs.len() == 0 {
        Seq::empty()
    } else {
        (match field_conflict(e, i, fs[0], sid) {
            Some(c) => seq![c],
            None => Seq::empty(),
        }) + conflicts_for_fields(e, i, sid, fs.drop_first())
    }
}

/// A field raises at most one conflict, so a field list bounds the
/// conflict list.
pub proof fn lemma_conflicts_for_fields_len(
    e: OakEntryV,
    i: OakEntryV,
    sid: Seq<char>,
    fs: Seq<FieldName>,
)
    ensures
        conflicts_for_fields(e, i, sid, fs).len() <= fs.len(),
    decreases fs.len(),
{
    if fs.len() > 0 {
        lemma_conflicts_for_fields_len(e, i, sid, fs.drop_first());
    }
}

/// All conflicts between the existing entry `e` and the incoming entry
/// `i` for the source `sid`, in the fixed field order.
pub open spec fn spec_detect_conflicts(e: OakEntryV, i: OakEntryV, sid: Seq<char>) -> Seq<
    ConflictV,
> {
    conflicts_for_fields(e, i, sid, field_order())
}

/// Detects every field on which `import` and `existing` carry different
/// values attributed to the same source `source_id`.  A source attributing
/// a field for the first time, or re-supplying the identical value, raises
/// no conflict.  The result follows the fixed field order.
pub fn detect_conflicts(existing: &OakEntry, import: &OakEntry, source_id: &str) -> (r: Vec<
    Conflict,
>)
    ensures
        conflicts_view(r@) == spec_detect_conflicts(existing@, import@, source_id@),
{
    let sid: String = source_id.to_owned();
    let fields = crate::models::all_fields();
    let ghost fsv = field_order();
    let mut out: Vec<Conflict> = Vec::new();
    let ghost total = spec_detect_conflicts(existing@, import@, source_id@);
    proof {
        assert(fsv.skip(0) =~= fsv);
        assert(conflicts_view(out@) =~= Seq::<ConflictV>::empty());
        assert(Seq::<ConflictV>::empty() + conflicts_for_fields(existing@, import@, sid@, fsv)
            =~= conflicts_for_fields(existing@, import@, sid@, fsv));
    }
    let mut k: usize = 0;
    while k < fields.len()
        invariant
            fields@ == fsv,
            fsv == field_order(),
            sid@ == source_id@,
            k <= fsv.len(),
            total == spec_detect_conflicts(existing@, import@, source_id@),
            conflicts_view(out@) + conflicts_for_fields(existing@, import@, sid@, fsv.skip(k as int))
                == total,
        decreases fields@.len() - k,
    {
        let f = fields[k];
        let ghost rest = fsv.skip(k as int);
        proof {
            assert(rest[0] == fsv[k as int]);
            assert(rest.drop_first() =~= fsv.skip(k as int + 1));
        }
        let e_pts = existing.field(f);
        let i_pts = import.field(f);
        let e_idx = find_source_index(e_pts, &sid);
        let i_idx = find_source_index(i_pts, &sid);
        match (e_idx, i_idx) {
            (Some(ei), Some(ii)) => {
                let e_dp = &e_pts[ei];
                let i_dp = &i_pts[ii];
                if !eq_str(&e_dp.value, &i_dp.value) {
                    let c = Conflict {
                        field_name: f,
                        db_value: e_dp.value.clone(),
                        import_value: i_dp.value.clone(),
                    };
                    proof {
                        assert(field_conflict(existing@, import@, f, sid@) == Some(c@));
                    }
                    let ghost prev = out@;
                    out.push(c);
                    proof {
                        assert(conflicts_view(out@) =~= conflicts_view(prev).push(c@));
                        assert(conflicts_view(prev).push(c@) =~= conflicts_view(prev) + seq![c@]);
                        assert((conflicts_view(prev) + seq![c@]) + conflicts_for_fields(
                            existing@,
                            import@,
                            sid@,
                            fsv.skip(k as int + 1),
                        ) =~= conflicts_view(prev) + (seq![c@] + conflicts_for_fields(
                            existing@,
                            import@,
                            sid@,
                            fsv.skip(k as int + 1),
                        )));
                    }
                } else {
                    proof {
                        assert(field_conflict(existing@, import@, f, sid@) is None);
                        assert(Seq::<ConflictV>::empty() + conflicts_for_fields(
                            existing@,
                            import@,
                            sid@,
                            fsv.skip(k as int + 1),
                        ) =~= conflicts_for_fields(existing@, import@, sid@, fsv.skip(k as int + 1)));
                    }
                }
            },
            _ => {
                proof {
                    assert(field_conflict(existing@, import@, f, sid@) is None);
                    assert(Seq::<ConflictV>::empty() + conflicts_for_fields(
                        existing@,
                        import@,
                        sid@,
                        fsv.skip(k as int + 1),
                    ) =~= conflicts_for_fields(existing@, import@, sid@, fsv.skip(k as int + 1)));
                }
            },
        }
        k += 1;
    }
    proof {
        assert(fsv.skip(fsv.len() as int) =~= Seq::<FieldName>::empty());
        assert(conflicts_view(out@) + Seq::<ConflictV>::empty() =~= conflicts_view(out@));
    }
    out
}

/// Filtering a sequence extended by one element keeps the element exactly
/// when it satisfies the predicate.
pub proof fn lemma_filter_push<A>(s: Seq<A>, x: A, p: spec_fn(A) -> bool)
    ensures
        s.push(x).filter(p) == s.filter(p) + if p(x) {
            seq![x]
        } else {
            Seq::<A>::empty()
        },
{
    reveal(Seq::filter);
    assert(s.push(x).drop_last() =~= s);
    assert(s.push(x).last() == x);
    if p(x) {
        assert(s.filter(p).push(x) =~= s.filter(p) + seq![x]);
    } else {
        assert(s.filter(p) =~= s.filter(p) + Seq::<A>::empty());
    }
}

/// Every element of a filtered sequence is an element of the original.
pub proof fn lemma_filter_members<A>(s: Seq<A>, p: spec_fn(A) -> bool)
    ensures
        forall|m: int|
            0 <= m < s.filter(p).len() ==> s.contains(#[trigger] s.filter(p)[m]),
    decreases s.len(),
{
    reveal(Seq::filter);
    if s.len() > 0 {
        let dl = s.drop_last();
        lemma_filter_members(dl, p);
        assert forall|m: int| 0 <= m < s.filter(p).len() implies s.contains(
            #[trigger] s.filter(p)[m],
        ) by {
            if m < dl.filter(p).len() {
                let x = dl.filter(p)[m];
                let k = choose|k: int| 0 <= k < dl.len() && dl[k] == x;
                assert(s[k] == x);
            } else {
                assert(s[s.len() - 1] == s.filter(p)[m]);
            }
        }
    }
}

/// A predicate that no element satisfies filters everything out.
pub proof fn lemma_filter_all_false<A>(s: Seq<A>, p: spec_fn(A) -> bool)
    requires
        forall|k: int| 0 <= k < s.len() ==> !p(#[trigger] s[k]),
    ensures
        s.filter(p) == Seq::<A>::empty(),
    decreases s.len(),
{
    reveal(Seq::filter);
    if s.len() > 0 {
        lemma_filter_all_false(s.drop_last(), p);
    }
}

/// The field list after a merge: the existing data points, followed by
/// those incoming data points whose source is not yet present.
pub open spec fn merged_points(e: Seq<DataPointV>, i: Seq<DataPointV>) -> Seq<DataPointV> {
    e + i.filter(|dp: DataPointV| !has_source(e, dp.source_id))
}

/// Merging two well-formed field lists yields a well-formed field list.
proof fn lemma_merged_points_wf(e: Seq<DataPointV>, i: Seq<DataPointV>)
    requires
        pts_wf(e),
        pts_wf(i),
    ensures
        pts_wf(merged_points(e, i)),
{
    let p = |dp: DataPointV| !has_source(e, dp.source_id);
    let f = i.filter(p);
    lemma_filter_members(i, p);
    broadcast use vstd::seq_lib::group_filter_ensures;

    let m = merged_points(e, i);
    assert forall|a: int, b: int|
        0 <= a < b < m.len() implies (#[trigger] m[a]).source_id != (#[trigger] m[b]).source_id by {
        if a < e.len() && b < e.len() {
        } else if a < e.len() && b >= e.len() {
            let x = f[b - e.len()];
            assert(p(x));
            lemma_find_by_source_characterize(e, x.source_id);
            assert(e[a].source_id != x.source_id);
        } else {
            let x = f[a - e.len()];
            let y = f[b - e.len()];
            let ka = choose|k: int| 0 <= k < i.len() && i[k] == x;
            if x.source_id == y.source_id {
                // two incoming data points would share a source
                let kb = choose|k: int| 0 <= k < i.len() && i[k] == y;
                assert(i[ka].source_id == i[kb].source_id);
                if ka < kb {
                } else if kb < ka {
                } else {
                    assert(x == y);
                    // distinct positions of the filtered list hold distinct
                    // occurrences, yet both come from the same position
                    lemma_filter_distinct_positions(i, p, a - e.len(), b - e.len());
                }
            }
        }
    }
}

/// Two positions of a filtered well-formed list cannot hold data points
/// with the same source.
proof fn lemma_filter_distinct_positions(
    i: Seq<DataPointV>,
    p: spec_fn(DataPointV) -> bool,
    a: int,
    b: int,
)
    requires
        pts_wf(i),
        0 <= a < b < i.filter(p).len(),
    ensures
        i.filter(p)[a].source_id != i.filter(p)[b].source_id,
    decreases i.len(),
{
    reveal(Seq::filter);
    let dl = i.drop_last();
    assert(pts_wf(dl)) by {
        assert(forall|x: int| 0 <= x < dl.len() ==> dl[x] == i[x]);
    }
    if i.len() > 0 {
        if p(i.last()) && b == i.filter(p).len() - 1 {
            // the later one is the last element of the list
            lemma_filter_members(dl, p);
            let x = dl.filter(p)[a];
            let k = choose|k: int| 0 <= k < dl.len() && dl[k] == x;
            assert(i[k] == x);
            assert(i[k].source_id != i[i.len() - 1].source_id);
        } else {
            lemma_filter_distinct_positions(dl, p, a, b);
        }
    }
}

/// The synonym list after a merge: every incoming synonym not yet present
/// is appended, in incoming order.
pub open spec fn merged_syns(e: Seq<Seq<char>>, i: Seq<Seq<char>>) -> Seq<Seq<char>>
    decreases i.len(),
{
    if i.len() == 0 {
        e
    } else {
        merged_syns(
            if e.contains(i[0]) {
                e
            } else {
                e.push(i[0])
            },
            i.drop_first(),
        )
    }
}

/// The entry after a merge: per field the merged data points, the merged
/// synonyms, and the scientific name unchanged.
pub open spec fn merged_entry(e: OakEntryV, i: OakEntryV) -> OakEntryV {
    OakEntryV {
        scientific_name: e.scientific_name,
        common_names: merged_points(e.common_names, i.common_names),
        leaf_color: merged_points(e.leaf_color, i.leaf_color),
        bud_shape: merged_points(e.bud_shape, i.bud_shape),
        leaf_shape: merged_points(e.leaf_shape, i.leaf_shape),
        bark_texture: merged_points(e.bark_texture, i.bark_texture),
        habitat: merged_points(e.habitat, i.habitat),
        native_range: merged_points(e.native_range, i.native_range),
        height: merged_points(e.height, i.height),
        synonyms: merged_syns(e.synonyms, i.synonyms),
    }
}

/// Appends to `pts` every incoming data point whose source is not yet
/// present among the original `pts`.
fn merge_points_into(pts: &mut Vec<DataPoint>, incoming: &Vec<DataPoint>)
    requires
        pts_wf(pts_view(old(pts)@)),
        pts_wf(pts_view(incoming@)),
    ensures
        pts_view(final(pts)@) == merged_points(pts_view(old(pts)@), pts_view(incoming@)),
        pts_wf(pts_view(final(pts)@)),
{
    let ghost ev = pts_view(old(pts)@);
    let ghost iv = pts_view(incoming@);
    let ghost p = |dp: DataPointV| !has_source(ev, dp.source_id);
    let orig_len = pts.len();
    proof {
        assert(iv.take(0) =~= Seq::<DataPointV>::empty());
        assert(Seq::<DataPointV>::empty().filter(p) =~= Seq::<DataPointV>::empty()) by {
            reveal(Seq::filter);
        }
        assert(pts_view(pts@) =~= ev + iv.take(0).filter(p));
    }
    let mut j: usize = 0;
    while j < incoming.len()
        invariant
            orig_len == old(pts)@.len(),
            ev == pts_view(old(pts)@),
            iv == pts_view(incoming@),
            p == (|dp: DataPointV| !has_source(ev, dp.source_id)),
            j <= incoming@.len(),
            orig_len <= pts@.len(),
            pts_view(pts@) == ev + iv.take(j as int).filter(p),
        decreases incoming@.len() - j,
    {
        proof {
            assert(pts_view(pts@).take(orig_len as int) =~= ev);
            assert(iv.take(j as int + 1) =~= iv.take(j as int).push(iv[j as int]));
            lemma_filter_push(iv.take(j as int), iv[j as int], p);
            assert(incoming@[j as int]@ == iv[j as int]);
        }
        let src_pos = find_source_index_within(pts, orig_len, &incoming[j].source_id);
        if src_pos.is_none() {
            let dp = incoming[j].clone();
            let ghost prev = pts@;
            pts.push(dp);
            proof {
                assert(pts_view(pts@) =~= pts_view(prev).push(iv[j as int]));
                assert((ev + iv.take(j as int).filter(p)).push(iv[j as int]) =~= ev + iv.take(
                    j as int + 1,
                ).filter(p));
            }
        } else {
            proof {
                assert(has_source(ev, iv[j as int].source_id));
                assert(ev + iv.take(j as int).filter(p) =~= ev + iv.take(j as int + 1).filter(p));
            }
        }
        j += 1;
    }
    proof {
        assert(iv.take(incoming@.len() as int) =~= iv);
        lemma_merged_points_wf(ev, iv);
    }
}

/// Whether a string list already holds the given string.
pub(crate) fn contains_str(ss: &Vec<String>, s: &String) -> (r: bool)
    ensures
        r == crate::models::strs_view(ss@).contains(s@),
{
    let ghost sv = crate::models::strs_view(ss@);
    let mut k: usize = 0;
    while k < ss.len()
        invariant
            sv == crate::models::strs_view(ss@),
            k <= ss@.len(),
            forall|m: int| 0 <= m < k ==> sv[m] != s@,
        decreases ss@.len() - k,
    {
        if eq_str(&ss[k], s) {
            proof {
                assert(sv[k as int] == s@);
            }
            return true;
        }
        proof {
            assert(sv[k as int] == ss@[k as int]@);
        }
        k += 1;
    }
    false
}

/// Appends to `syns` every incoming synonym not yet present.
fn merge_synonyms_into(syns: &mut Vec<String>, incoming: &Vec<String>)
    ensures
        crate::models::strs_view(final(syns)@) == merged_syns(
            crate::models::strs_view(old(syns)@),
            crate::models::strs_view(incoming@),
        ),
{
    let ghost ev = crate::models::strs_view(old(syns)@);
    let ghost iv = crate::models::strs_view(incoming@);
    proof {
        assert(iv.skip(0) =~= iv);
    }
    let mut j: usize = 0;
    while j < incoming.len()
        invariant
            ev == crate::models::strs_view(old(syns)@),
            iv == crate::models::strs_view(incoming@),
            j <= incoming@.len(),
            merged_syns(crate::models::strs_view(syns@), iv.skip(j as int)) == merged_syns(ev, iv),
        decreases incoming@.len() - j,
    {
        let ghost cv = crate::models::strs_view(syns@);
        let ghost rest = iv.skip(j as int);
        proof {
            assert(rest[0] == iv[j as int]);
            assert(rest.drop_first() =~= iv.skip(j as int + 1));
            assert(incoming@[j as int]@ == iv[j as int]);
        }
        if !contains_str(syns, &incoming[j]) {
            let s = incoming[j].clone();
            let ghost prev = syns@;
            syns.push(s);
            proof {
                assert(crate::models::strs_view(syns@) =~= cv.push(iv[j as int]));
            }
        }
        j += 1;
    }
    proof {
        assert(iv.skip(incoming@.len() as int) =~= Seq::<Seq<char>>::empty());
    }
}

/// Merges the incoming entry into the existing one: for every field, the
/// incoming data points whose sources are not yet present are appended in
/// incoming order; data points of sources already present are left
/// untouched.  Incoming synonyms absent from the existing list are
/// appended.  The scientific name is unchanged.
pub fn merge_entries(existing: &mut OakEntry, import: &OakEntry)
    requires
        entry_fields_wf(old(existing)@),
        entry_fields_wf(import@),
    ensures
        final(existing)@ == merged_entry(old(existing)@, import@),
        entry_fields_wf(final(existing)@),
{
    proof {
        assert(pts_wf(old(existing)@.field(FieldName::CommonNames)));
        assert(pts_wf(old(existing)@.field(FieldName::LeafColor)));
        assert(pts_wf(old(existing)@.field(FieldName::BudShape)));
        assert(pts_wf(old(existing)@.field(FieldName::LeafShape)));
        assert(pts_wf(old(existing)@.field(FieldName::BarkTexture)));
        assert(pts_wf(old(existing)@.field(FieldName::Habitat)));
        assert(pts_wf(old(existing)@.field(FieldName::NativeRange)));
        assert(pts_wf(old(existing)@.field(FieldName::Height)));
        assert(pts_wf(import@.field(FieldName::CommonNames)));
        assert(pts_wf(import@.field(FieldName::LeafColor)));
        assert(pts_wf(import@.field(FieldName::BudShape)));
        assert(pts_wf(import@.field(FieldName::LeafShape)));
        assert(pts_wf(import@.field(FieldName::BarkTexture)));
        assert(pts_wf(import@.field(FieldName::Habitat)));
        assert(pts_wf(import@.field(FieldName::NativeRange)));
        assert(pts_wf(import@.field(FieldName::Height)));
    }
    merge_points_into(&mut existing.common_names, &import.common_names);
    merge_points_into(&mut existing.leaf_color, &import.leaf_color);
    merge_points_into(&mut existing.bud_shape, &import.bud_shape);
    merge_points_into(&mut existing.leaf_shape, &import.leaf_shape);
    merge_points_into(&mut existing.bark_texture, &import.bark_texture);
    merge_points_into(&mut existing.habitat, &import.habitat);
    merge_points_into(&mut existing.native_range, &import.native_range);
    merge_points_into(&mut existing.height, &import.height);
    merge_synonyms_into(&mut existing.synonyms, &import.synonyms);
    proof {
        assert(existing@ =~= merged_entry(old(existing)@, import@));
        assert forall|f: FieldName| pts_wf(#[trigger] existing@.field(f)) by {
            match f {
                FieldName::CommonNames => assert(pts_wf(existing@.common_names)),
                FieldName::LeafColor => assert(pts_wf(existing@.leaf_color)),
                FieldName::BudShape => assert(pts_wf(existing@.bud_shape)),
                FieldName::LeafShape => assert(pts_wf(existing@.leaf_shape)),
                FieldName::BarkTexture => assert(pts_wf(existing@.bark_texture)),
                FieldName::Habitat => assert(pts_wf(existing@.habitat)),
                FieldName::NativeRange => assert(pts_wf(existing@.native_range)),
                FieldName::Height => assert(pts_wf(existing@.height)),
            }
        }
    }
}

/// The field list with the value of the first data point attributed to
/// `sid` replaced by `v`; without such a data point the list is
/// unchanged.
pub open spec fn replace_by_source(pts: Seq<DataPointV>, sid: Seq<char>, v: Seq<char>) -> Seq<
    DataPointV,
>
    decreases pts.len(),
{
    if pts.len() == 0 {
        pts
    } else if pts[0].source_id == sid {
        pts.update(0, DataPointV { value: v, ..pts[0] })
    } else {
        seq![pts[0]] + replace_by_source(pts.drop_first(), sid, v)
    }
}

/// The entry with one field's value for `sid` replaced by `v`.
pub open spec fn replace_in_entry(e: OakEntryV, f: FieldName, sid: Seq<char>, v: Seq<char>) -> OakEntryV {
    e.with_field(f, replace_by_source(e.field(f), sid, v))
}

/// Replacing at the first matching position is a pointwise update.
proof fn lemma_replace_by_source_at(pts: Seq<DataPointV>, sid: Seq<char>, v: Seq<char>, k: int)
    requires
        0 <= k < pts.len(),
        pts[k].source_id == sid,
        forall|j: int| 0 <= j < k ==> (#[trigger] pts[j]).source_id != sid,
    ensures
        replace_by_source(pts, sid, v) == pts.update(k, DataPointV { value: v, ..pts[k] }),
    decreases k,
{
    if k == 0 {
    } else {
        lemma_replace_by_source_at(pts.drop_first(), sid, v, k - 1);
        assert(seq![pts[0]] + pts.drop_first().update(
            k - 1,
            DataPointV { value: v, ..pts[k] },
        ) =~= pts.update(k, DataPointV { value: v, ..pts[k] }));
    }
}

/// Without a matching source the replacement changes nothing.
proof fn lemma_replace_by_source_none(pts: Seq<DataPointV>, sid: Seq<char>, v: Seq<char>)
    requires
        forall|j: int| 0 <= j < pts.len() ==> (#[trigger] pts[j]).source_id != sid,
    ensures
        replace_by_source(pts, sid, v) == pts,
    decreases pts.len(),
{
    if pts.len() > 0 {
        lemma_replace_by_source_none(pts.drop_first(), sid, v);
        assert(seq![pts[0]] + pts.drop_first() =~= pts);
    }
}

/// Replaces, within one field list, the value of the data point
/// attributed to `source_id` by `new_value`.
fn replace_points(pts: &mut Vec<DataPoint>, source_id: &String, new_value: &String)
    ensures
        pts_view(final(pts)@) == replace_by_source(pts_view(old(pts)@), source_id@, new_value@),
{
    let ghost pv = pts_view(old(pts)@);
    match find_source_index(pts, source_id) {
        None => {
            proof {
                lemma_find_by_source_characterize(pv, source_id@);
                assert forall|j: int| 0 <= j < pv.len() implies (#[trigger] pv[j]).source_id
                    != source_id@ by {
                    assert(pv[j] == old(pts)@[j]@);
                }
                lemma_replace_by_source_none(pv, source_id@, new_value@);
            }
        },
        Some(i) => {
            let value = new_value.clone();
            let src = pts[i].source_id.clone();
            let page_number = match &pts[i].page_number {
                Some(p) => Some(p.clone()),
                None => None,
            };
            let dp = DataPoint { value, source_id: src, page_number };
            proof {
                assert(dp@ == DataPointV { value: new_value@, ..pv[i as int] });
                assert forall|j: int| 0 <= j < i implies (#[trigger] pv[j]).source_id
                    != source_id@ by {
                    assert(pv[j] == old(pts)@[j]@);
                }
                lemma_replace_by_source_at(pv, source_id@, new_value@, i as int);
            }
            pts.set(i, dp);
            proof {
                assert(pts_view(pts@) =~= pv.update(i as int, dp@));
            }
        },
    }
}

/// Replaces, within `entry`, the value that `source_id` asserts for the
/// field `field_name` by `new_value`; the data point's locator and every
/// other field are untouched.  Without a data point of that source the
/// entry is unchanged.
pub fn replace_field_value(
    entry: &mut OakEntry,
    field_name: FieldName,
    source_id: &str,
    new_value: &str,
)
    ensures
        final(entry)@ == replace_in_entry(old(entry)@, field_name, source_id@, new_value@),
        entry_fields_wf(old(entry)@) ==> entry_fields_wf(final(entry)@),
{
    let sid: String = source_id.to_owned();
    let v: String = new_value.to_owned();
    match field_name {
        FieldName::CommonNames => replace_points(&mut entry.common_names, &sid, &v),
        FieldName::LeafColor => replace_points(&mut entry.leaf_color, &sid, &v),
        FieldName::BudShape => replace_points(&mut entry.bud_shape, &sid, &v),
        FieldName::LeafShape => replace_points(&mut entry.leaf_shape, &sid, &v),
        FieldName::BarkTexture => replace_points(&mut entry.bark_texture, &sid, &v),
        FieldName::Habitat => replace_points(&mut entry.habitat, &sid, &v),
        FieldName::NativeRange => replace_points(&mut entry.native_range, &sid, &v),
        FieldName::Height => replace_points(&mut entry.height, &sid, &v),
    }
    proof {
        assert(entry@ =~= replace_in_entry(old(entry)@, field_name, source_id@, new_value@));
        if entry_fields_wf(old(entry)@) {
            lemma_replace_by_source_wf(
                old(entry)@.field(field_name),
                source_id@,
                new_value@,
            );
            assert forall|f: FieldName| pts_wf(#[trigger] entry@.field(f)) by {
                if f == field_name {
                    assert(entry@.field(f) == replace_by_source(
                        old(entry)@.field(f),
                        source_id@,
                        new_value@,
                    ));
                } else {
                    assert(entry@.field(f) == old(entry)@.field(f));
                }
            }
        }
    }
}

/// Replacing a value never touches the sources, so well-formedness is
/// kept.
proof fn lemma_replace_by_source_wf(pts: Seq<DataPointV>, sid: Seq<char>, v: Seq<char>)
    requires
        pts_wf(pts),
    ensures
        pts_wf(replace_by_source(pts, sid, v)),
        replace_by_source(pts, sid, v).len() == pts.len(),
        forall|j: int|
            0 <= j < pts.len() ==> (#[trigger] replace_by_source(pts, sid, v)[j]).source_id
                == pts[j].source_id,
    decreases pts.len(),
{
    if pts.len() > 0 && pts[0].source_id != sid {
        assert(pts_wf(pts.drop_first())) by {
            assert(forall|x: int|
                0 <= x < pts.drop_first().len() ==> pts.drop_first()[x] == pts[x + 1]);
        }
        lemma_replace_by_source_wf(pts.drop_first(), sid, v);
        assert forall|j: int|
            0 <= j < pts.len() implies (#[trigger] replace_by_source(pts, sid, v)[j]).source_id
            == pts[j].source_id by {
            if j > 0 {
                assert(replace_by_source(pts, sid, v)[j] == replace_by_source(
                    pts.drop_first(),
                    sid,
                    v,
                )[j - 1]);
            }
        }
    }
}

/// One externally supplied decision about one conflict.
pub enum Decision {
    /// Keep the value currently recorded.
    KeepCurrent,
    /// Take the value the import supplies.
    TakeIncoming,
    /// The operator edited the entry by hand; the edited entry replaces
    /// the existing one and resolution ends.
    ManualEdit(OakEntry),
    /// Abandon the import of this entry altogether.
    SkipEntry,
}

/// Abstract value of a [`Decision`].
#[verifier::ext_equal]
pub enum DecisionV {
    KeepCurrent,
    TakeIncoming,
    ManualEdit(OakEntryV),
    SkipEntry,
}

impl View for Decision {
    type V = DecisionV;

    open spec fn view(&self) -> DecisionV {
        match self {
            Decision::KeepCurrent => DecisionV::KeepCurrent,
            Decision::TakeIncoming => DecisionV::TakeIncoming,
            Decision::ManualEdit(m) => DecisionV::ManualEdit(m@),
            Decision::SkipEntry => DecisionV::SkipEntry,
        }
    }
}

/// Abstract value of a list of decisions.
pub open spec fn decisions_view(ds: Seq<Decision>) -> Seq<DecisionV> {
    ds.map_values(|d: Decision| d@)
}

/// The terminal outcome of conflict resolution.
pub enum ConflictResolution {
    /// The conflicts were decided and the remaining non-conflicting data
    /// was merged; this entry is to be persisted.
    Resolved(OakEntry),
    /// The entry-level import was abandoned; nothing is to be persisted.
    Skipped,
}

/// Abstract value of a [`ConflictResolution`].
#[verifier::ext_equal]
pub enum ResolutionV {
    Resolved(OakEntryV),
    Skipped,
}

impl View for ConflictResolution {
    type V = ResolutionV;

    open spec fn view(&self) -> ResolutionV {
        match self {
            ConflictResolution::Resolved(e) => ResolutionV::Resolved(e@),
            ConflictResolution::Skipped => ResolutionV::Skipped,
        }
    }
}

/// Resolution of the conflicts from position `k` on, one decision per
/// conflict, starting from the working entry `cur`: keep-current leaves
/// the entry alone, take-incoming replaces the conflicting value, a
/// manual edit replaces the whole entry and ends resolution at once, and
/// skip-entry abandons the import.  When the decisions run through
/// without a manual edit or a skip, the incoming entry is merged into the
/// working entry.
pub open spec fn spec_resolve(
    cur: OakEntryV,
    import: OakEntryV,
    sid: Seq<char>,
    conflicts: Seq<ConflictV>,
    decisions: Seq<DecisionV>,
    k: int,
) -> ResolutionV
    decreases conflicts.len() - k,
{
    if k < 0 || k >= conflicts.len() {
        ResolutionV::Resolved(merged_entry(cur, import))
    } else {
        match decisions[k] {
            DecisionV::KeepCurrent => spec_resolve(cur, import, sid, conflicts, decisions, k + 1),
            DecisionV::TakeIncoming => spec_resolve(
                replace_in_entry(cur, conflicts[k].field_name, sid, conflicts[k].import_value),
                import,
                sid,
                conflicts,
                decisions,
                k + 1,
            ),
            DecisionV::ManualEdit(m) => ResolutionV::Resolved(merged_entry(m, import)),
            DecisionV::SkipEntry => ResolutionV::Skipped,
        }
    }
}

/// Resolves the detected conflicts one at a time, in order, by the
/// supplied decisions, and merges the non-conflicting portion of the
/// import afterwards.  A manual edit or a skip ends resolution at once;
/// the remaining conflicts are not offered again.
pub fn handle_conflicts(
    existing: &OakEntry,
    import: &OakEntry,
    source_id: &str,
    conflicts: &Vec<Conflict>,
    decisions: &Vec<Decision>,
) -> (r: ConflictResolution)
    requires
        entry_fields_wf(existing@),
        entry_fields_wf(import@),
        decisions@.len() >= conflicts@.len(),
        forall|k: int|
            0 <= k < conflicts@.len() ==> match (#[trigger] decisions@[k])@ {
                DecisionV::ManualEdit(m) => entry_fields_wf(m),
                _ => true,
            },
    ensures
        r@ == spec_resolve(
            existing@,
            import@,
            source_id@,
            conflicts_view(conflicts@),
            decisions_view(decisions@),
            0,
        ),
        match r {
            ConflictResolution::Resolved(e) => entry_fields_wf(e@),
            ConflictResolution::Skipped => true,
        },
{
    let ghost cv = conflicts_view(conflicts@);
    let ghost dv = decisions_view(decisions@);
    let ghost target = spec_resolve(existing@, import@, source_id@, cv, dv, 0);
    let mut cur = existing.clone();
    let mut k: usize = 0;
    while k < conflicts.len()
        invariant
            entry_fields_wf(cur@),
            entry_fields_wf(import@),
            cv == conflicts_view(conflicts@),
            dv == decisions_view(decisions@),
            decisions@.len() >= conflicts@.len(),
            forall|m: int|
                0 <= m < conflicts@.len() ==> match (#[trigger] decisions@[m])@ {
                    DecisionV::ManualEdit(e) => entry_fields_wf(e),
                    _ => true,
                },
            k <= conflicts@.len(),
            target == spec_resolve(existing@, import@, source_id@, cv, dv, 0),
            spec_resolve(cur@, import@, source_id@, cv, dv, k as int) == target,
        decreases conflicts@.len() - k,
    {
        proof {
            assert(dv[k as int] == decisions@[k as int]@);
            assert(cv[k as int] == conflicts@[k as int]@);
        }
        match &decisions[k] {
            Decision::KeepCurrent => {},
            Decision::TakeIncoming => {
                replace_field_value(
                    &mut cur,
                    conflicts[k].field_name,
                    source_id,
                    conflicts[k].import_value.as_str(),
                );
            },
            Decision::ManualEdit(m) => {
                let mut res = m.clone();
                merge_entries(&mut res, import);
                return ConflictResolution::Resolved(res);
            },
            Decision::SkipEntry => {
                return ConflictResolution::Skipped;
            },
        }
        k += 1;
    }
    merge_entries(&mut cur, import);
    ConflictResolution::Resolved(cur)
}

} // verus!
