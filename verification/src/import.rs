//! The batch import orchestrator: verifies that the importing source
//! exists, processes each decoded entry against the store in order —
//! validate, look up, create or merge or resolve — and accounts for
//! every entry in the run statistics.

use vstd::prelude::*;

use crate::models::{FIELD_COUNT, OakEntry, OakEntryV, Source};
use crate::policy::{EnumerationPolicy, spec_check};
use crate::reconcile::{
    ConflictResolution, Decision, DecisionV, ResolutionV, decisions_view, entry_fields_wf, eq_str,
    detect_conflicts, handle_conflicts, lemma_conflicts_for_fields_len, merge_entries,
    merged_entry, spec_detect_conflicts, spec_resolve, conflicts_view, pts_wf,
};
use vstd::pervasive::VecAdditionalExecFns;

verus! {

/// The tally of one batch import run.
#[derive(Clone, Copy, PartialEq, Eq, Structural, Debug)]
pub struct ImportStats {
    /// Entries that did not exist and were persisted as they came.
    pub created: usize,
    /// Entries that existed and were merged or resolved.
    pub updated: usize,
    /// Entries that failed validation or whose import was abandoned.
    pub skipped: usize,
}

/// Abstract value of [`ImportStats`].
#[verifier::ext_equal]
pub struct StatsV {
    pub created: nat,
    pub updated: nat,
    pub skipped: nat,
}

impl View for ImportStats {
    type V = StatsV;

    open spec fn view(&self) -> StatsV {
        StatsV {
            created: self.created as nat,
            updated: self.updated as nat,
            skipped: self.skipped as nat,
        }
    }
}

/// Why a whole batch was refused before any mutation.
#[derive(Clone, Copy, PartialEq, Eq, Structural, Debug)]
pub enum ImportError {
    /// The source the batch attributes its data to was never created.
    SourceNotFound,
}

/// What one processed entry asks the store to do.
pub enum EntryOutcome {
    /// The entry did not exist: persist it as it came.
    Created(OakEntry),
    /// The entry existed: persist the merged or resolved entry.
    Updated(OakEntry),
    /// Nothing to persist for this entry.
    Skipped,
}

/// Abstract value of an [`EntryOutcome`].
#[verifier::ext_equal]
pub enum OutcomeV {
    Created(OakEntryV),
    Updated(OakEntryV),
    Skipped,
}

impl View for EntryOutcome {
    type V = OutcomeV;

    open spec fn view(&self) -> OutcomeV {
        match self {
            EntryOutcome::Created(e) => OutcomeV::Created(e@),
            EntryOutcome::Updated(e) => OutcomeV::Updated(e@),
            EntryOutcome::Skipped => OutcomeV::Skipped,
        }
    }
}

/// Abstract value of a store of entries.
pub open spec fn entries_view(es: Seq<OakEntry>) -> Seq<OakEntryV> {
    es.map_values(|e: OakEntry| e@)
}

/// Abstract value of a list of per-entry decision lists.
pub open spec fn decision_lists_view(ds: Seq<Vec<Decision>>) -> Seq<Seq<DecisionV>> {
    ds.map_values(|v: Vec<Decision>| decisions_view(v@))
}

/// A store is well formed: scientific names are unique and every entry's
/// field lists are well formed.
pub open spec fn store_wf(s: Seq<OakEntryV>) -> bool {
    &&& forall|a: int, b: int|
        0 <= a < b < s.len() ==> (#[trigger] s[a]).scientific_name != (
        #[trigger] s[b]).scientific_name
    &&& forall|k: int| 0 <= k < s.len() ==> entry_fields_wf(#[trigger] s[k])
}

/// Index of the first entry with the given scientific name, if any.
pub open spec fn lookup_entry(store: Seq<OakEntryV>, name: Seq<char>) -> Option<int>
    decreases store.len(),
{
    if store.len() == 0 {
        None
    } else if store[0].scientific_name == name {
        Some(0int)
    } else {
        match lookup_entry(store.drop_first(), name) {
            Some(i) => Some(i + 1),
            None => None,
        }
    }
}

/// A lookup past a clean prefix looks in the rest alone, shifted.
proof fn lemma_lookup_entry_skip(store: Seq<OakEntryV>, name: Seq<char>, j: int)
    requires
        0 <= j <= store.len(),
        forall|k: int| 0 <= k < j ==> (#[trigger] store[k]).scientific_name != name,
    ensures
        lookup_entry(store, name) == match lookup_entry(store.skip(j), name) {
            Some(i) => Some(i + j),
            None => None::<int>,
        },
    decreases j,
{
    if j == 0 {
        assert(store.skip(0) =~= store);
    } else {
        lemma_lookup_entry_skip(store, name, j - 1);
        assert(store.skip(j - 1).drop_first() =~= store.skip(j));
    }
}

/// Index of the entry with the given scientific name, if any.
fn find_entry_index(store: &Vec<OakEntry>, name: &String) -> (r: Option<usize>)
    ensures
        match r {
            Some(i) => i < store@.len() && store@[i as int]@.scientific_name == name@
                && lookup_entry(entries_view(store@), name@) == Some(i as int),
            None => lookup_entry(entries_view(store@), name@) is None && forall|k: int|
                0 <= k < store@.len() ==> (#[trigger] store@[k]@).scientific_name != name@,
        },
{
    let ghost sv = entries_view(store@);
    let mut i: usize = 0;
    while i < store.len()
        invariant
            sv == entries_view(store@),
            i <= store@.len(),
            forall|k: int| 0 <= k < i ==> (#[trigger] sv[k]).scientific_name != name@,
        decreases store@.len() - i,
    {
        if eq_str(&store[i].scientific_name, name) {
            proof {
                lemma_lookup_entry_skip(sv, name@, i as int);
                assert(sv.skip(i as int)[0] == sv[i as int]);
                assert(sv[i as int] == store@[i as int]@);
            }
            return Some(i);
        }
        proof {
            assert(sv[i as int] == store@[i as int]@);
        }
        i += 1;
    }
    proof {
        lemma_lookup_entry_skip(sv, name@, sv.len() as int);
        assert(sv.skip(sv.len() as int) =~= Seq::<OakEntryV>::empty());
        assert forall|k: int| 0 <= k < store@.len() implies (
        #[trigger] store@[k]@).scientific_name != name@ by {
            assert(sv[k] == store@[k]@);
        }
    }
    None
}

/// Whether some source of the list carries the given identifier.
pub open spec fn spec_source_exists(sources: Seq<Source>, sid: Seq<char>) -> bool {
    exists|k: int| 0 <= k < sources.len() && (#[trigger] sources[k])@.source_id == sid
}

/// Scans the known sources for the given identifier.
pub fn source_exists(sources: &Vec<Source>, source_id: &str) -> (r: bool)
    ensures
        r == spec_source_exists(sources@, source_id@),
{
    let sid: String = source_id.to_owned();
    let mut i: usize = 0;
    while i < sources.len()
        invariant
            sid@ == source_id@,
            i <= sources@.len(),
            forall|k: int| 0 <= k < i ==> (#[trigger] sources@[k])@.source_id != source_id@,
        decreases sources@.len() - i,
    {
        if eq_str(&sources[i].source_id, &sid) {
            return true;
        }
        i += 1;
    }
    false
}

/// Checks executably that no two data points of any field of the entry
/// share a source.
pub fn entry_wf_check(entry: &OakEntry) -> (r: bool)
    ensures
        r == entry_fields_wf(entry@),
{
    let fields = crate::models::all_fields();
    let mut k: usize = 0;
    while k < fields.len()
        invariant
            fields@ == crate::models::field_order(),
            k <= fields@.len(),
            forall|m: int| 0 <= m < k ==> pts_wf(entry@.field(#[trigger] fields@[m])),
        decreases fields@.len() - k,
    {
        let pts = entry.field(fields[k]);
        let ghost pv = entry@.field(fields@[k as int]);
        let mut a: usize = 0;
        while a < pts.len()
            invariant
                fields@ == crate::models::field_order(),
                k < fields@.len(),
                pv == entry@.field(fields@[k as int]),
                pv == crate::models::pts_view(pts@),
                a <= pts@.len(),
                forall|x: int, y: int|
                    0 <= x < y < pts@.len() && x < a ==> (#[trigger] pv[x]).source_id != (
                    #[trigger] pv[y]).source_id,
            decreases pts@.len() - a,
        {
            let mut b: usize = a + 1;
            while b < pts.len()
                invariant
                    fields@ == crate::models::field_order(),
                    k < fields@.len(),
                    pv == entry@.field(fields@[k as int]),
                    pv == crate::models::pts_view(pts@),
                    a < pts@.len(),
                    a + 1 <= b <= pts@.len() + 1,
                    forall|y: int|
                        a < y < b ==> (#[trigger] pv[y]).source_id != pv[a as int].source_id,
                decreases pts@.len() - b,
            {
                if eq_str(&pts[a].source_id, &pts[b].source_id) {
                    proof {
                        assert(pv[a as int] == pts@[a as int]@);
                        assert(pv[b as int] == pts@[b as int]@);
                        assert(!pts_wf(pv)) by {
                            assert(pv[a as int].source_id == pv[b as int].source_id);
                        }
                        assert(!entry_fields_wf(entry@)) by {
                            if entry_fields_wf(entry@) {
                                assert(pts_wf(entry@.field(fields@[k as int])));
                            }
                        }
                    }
                    return false;
                }
                proof {
                    assert(pv[a as int] == pts@[a as int]@);
                    assert(pv[b as int] == pts@[b as int]@);
                }
                b += 1;
            }
            a += 1;
        }
        proof {
            assert(pts_wf(pv));
        }
        k += 1;
    }
    proof {
        assert forall|f: crate::models::FieldName| pts_wf(#[trigger] entry@.field(f)) by {
            let fs = crate::models::field_order();
            assert(fs[0] == crate::models::FieldName::CommonNames);
            assert(fs[1] == crate::models::FieldName::LeafColor);
            assert(fs[2] == crate::models::FieldName::BudShape);
            assert(fs[3] == crate::models::FieldName::LeafShape);
            assert(fs[4] == crate::models::FieldName::BarkTexture);
            assert(fs[5] == crate::models::FieldName::Habitat);
            assert(fs[6] == crate::models::FieldName::NativeRange);
            assert(fs[7] == crate::models::FieldName::Height);
            match f {
                crate::models::FieldName::CommonNames => assert(pts_wf(entry@.field(fs[0]))),
                crate::models::FieldName::LeafColor => assert(pts_wf(entry@.field(fs[1]))),
                crate::models::FieldName::BudShape => assert(pts_wf(entry@.field(fs[2]))),
                crate::models::FieldName::LeafShape => assert(pts_wf(entry@.field(fs[3]))),
                crate::models::FieldName::BarkTexture => assert(pts_wf(entry@.field(fs[4]))),
                crate::models::FieldName::Habitat => assert(pts_wf(entry@.field(fs[5]))),
                crate::models::FieldName::NativeRange => assert(pts_wf(entry@.field(fs[6]))),
                crate::models::FieldName::Height => assert(pts_wf(entry@.field(fs[7]))),
            }
        }
    }
    true
}

/// The outcome of one entry of a batch: skipped when it fails
/// validation, created when it is new, otherwise merged — directly when
/// nothing conflicts, through resolution when something does.
pub open spec fn spec_process_entry(
    p: EnumerationPolicy,
    existing: Option<OakEntryV>,
    inc: OakEntryV,
    sid: Seq<char>,
    structural_ok: bool,
    ds: Seq<DecisionV>,
) -> OutcomeV {
    if !structural_ok || spec_check(p, inc).len() > 0 {
        OutcomeV::Skipped
    } else {
        match existing {
            None => OutcomeV::Created(inc),
            Some(e) => {
                let cs = spec_detect_conflicts(e, inc, sid);
                if cs.len() == 0 {
                    OutcomeV::Updated(merged_entry(e, inc))
                } else {
                    match spec_resolve(e, inc, sid, cs, ds, 0) {
                        ResolutionV::Resolved(r) => OutcomeV::Updated(r),
                        ResolutionV::Skipped => OutcomeV::Skipped,
                    }
                }
            },
        }
    }
}

/// Processes one incoming entry: an entry that fails structural
/// validation or the enumeration policy is skipped; a new entry is
/// created as it came; an existing one is merged when nothing
/// conflicts, and otherwise resolved by the supplied decisions.
pub fn process_entry(
    policy: &EnumerationPolicy,
    existing: Option<&OakEntry>,
    incoming: &OakEntry,
    source_id: &str,
    structural_ok: bool,
    decisions: &Vec<Decision>,
) -> (r: EntryOutcome)
    requires
        entry_fields_wf(incoming@),
        match existing {
            Some(e) => entry_fields_wf(e@),
            None => true,
        },
        decisions@.len() >= FIELD_COUNT,
        forall|k: int|
            0 <= k < decisions@.len() ==> match (#[trigger] decisions@[k])@ {
                DecisionV::ManualEdit(m) => entry_fields_wf(m),
                _ => true,
            },
    ensures
        r@ == spec_process_entry(
            *policy,
            match existing {
                Some(e) => Some(e@),
                None => None,
            },
            incoming@,
            source_id@,
            structural_ok,
            decisions_view(decisions@),
        ),
        match r {
            EntryOutcome::Created(e) => entry_fields_wf(e@),
            EntryOutcome::Updated(e) => entry_fields_wf(e@),
            EntryOutcome::Skipped => true,
        },
{
    if !structural_ok {
        return EntryOutcome::Skipped;
    }
    let violations = policy.check(incoming);
    if violations.len() > 0 {
        proof {
            assert(crate::policy::violations_view(violations@).len() == violations@.len());
        }
        return EntryOutcome::Skipped;
    }
    proof {
        assert(crate::policy::violations_view(violations@).len() == violations@.len());
    }
    match existing {
        None => EntryOutcome::Created(incoming.clone()),
        Some(e) => {
            let conflicts = detect_conflicts(e, incoming, source_id);
            if conflicts.len() == 0 {
                proof {
                    assert(conflicts_view(conflicts@).len() == 0);
                }
                let mut merged = e.clone();
                merge_entries(&mut merged, incoming);
                EntryOutcome::Updated(merged)
            } else {
                proof {
                    lemma_conflicts_for_fields_len(
                        e@,
                        incoming@,
                        source_id@,
                        crate::models::field_order(),
                    );
                    assert(conflicts_view(conflicts@).len() == conflicts@.len());
                }
                match handle_conflicts(e, incoming, source_id, &conflicts, decisions) {
                    ConflictResolution::Resolved(r) => EntryOutcome::Updated(r),
                    ConflictResolution::Skipped => EntryOutcome::Skipped,
                }
            }
        },
    }
}

/// The store after persisting an entry: the entry with the same name is
/// replaced, or the new entry is appended.
pub open spec fn spec_save_entry(store: Seq<OakEntryV>, e: OakEntryV) -> Seq<OakEntryV> {
    match lookup_entry(store, e.scientific_name) {
        Some(i) => store.update(i, e),
        None => store.push(e),
    }
}

/// Persists an entry into the in-memory store: replaces the entry of
/// the same scientific name or appends a new one.
fn save_entry_in(store: &mut Vec<OakEntry>, e: OakEntry)
    requires
        store_wf(entries_view(old(store)@)),
        entry_fields_wf(e@),
    ensures
        entries_view(final(store)@) == spec_save_entry(entries_view(old(store)@), e@),
        store_wf(entries_view(final(store)@)),
{
    let ghost sv = entries_view(old(store)@);
    match find_entry_index(store, &e.scientific_name) {
        Some(i) => {
            let ghost ev = e@;
            store.set(i, e);
            proof {
                assert(entries_view(store@) =~= sv.update(i as int, ev));
                let nv = entries_view(store@);
                assert(forall|x: int|
                    0 <= x < nv.len() ==> (#[trigger] nv[x]).scientific_name
                        == sv[x].scientific_name);
                assert forall|k: int| 0 <= k < nv.len() implies entry_fields_wf(
                    #[trigger] nv[k],
                ) by {
                    if k != i {
                        assert(nv[k] == sv[k]);
                    }
                }
            }
        },
        None => {
            let ghost ev = e@;
            store.push(e);
            proof {
                assert(entries_view(store@) =~= sv.push(ev));
                let nv = entries_view(store@);
                assert forall|a: int, b: int|
                    0 <= a < b < nv.len() implies (#[trigger] nv[a]).scientific_name != (
                #[trigger] nv[b]).scientific_name by {
                    if b == sv.len() as int {
                        assert(nv[a] == sv[a]);
                        assert(sv[a] == old(store)@[a]@);
                    } else {
                        assert(nv[a] == sv[a] && nv[b] == sv[b]);
                    }
                }
                assert forall|k: int| 0 <= k < nv.len() implies entry_fields_wf(
                    #[trigger] nv[k],
                ) by {
                    if k < sv.len() as int {
                        assert(nv[k] == sv[k]);
                    }
                }
            }
        },
    }
}

/// The store and tally after a whole batch, one entry at a time.
pub open spec fn spec_run_batch(
    p: EnumerationPolicy,
    store: Seq<OakEntryV>,
    batch: Seq<OakEntryV>,
    sid: Seq<char>,
    oks: Seq<bool>,
    dss: Seq<Seq<DecisionV>>,
) -> (Seq<OakEntryV>, StatsV)
    decreases batch.len(),
{
    if batch.len() == 0 {
        (store, StatsV { created: 0, updated: 0, skipped: 0 })
    } else {
        let inc = batch[0];
        let existing = match lookup_entry(store, inc.scientific_name) {
            Some(i) => Some(store[i]),
            None => None,
        };
        let out = spec_process_entry(p, existing, inc, sid, oks[0], dss[0]);
        let store2 = match out {
            OutcomeV::Created(e) => spec_save_entry(store, e),
            OutcomeV::Updated(e) => spec_save_entry(store, e),
            OutcomeV::Skipped => store,
        };
        let rest = spec_run_batch(p, store2, batch.drop_first(), sid, oks.drop_first(), dss.drop_first());
        let one = match out {
            OutcomeV::Created(_) => StatsV { created: 1, updated: 0, skipped: 0 },
            OutcomeV::Updated(_) => StatsV { created: 0, updated: 1, skipped: 0 },
            OutcomeV::Skipped => StatsV { created: 0, updated: 0, skipped: 1 },
        };
        (
            rest.0,
            StatsV {
                created: one.created + rest.1.created,
                updated: one.updated + rest.1.updated,
                skipped: one.skipped + rest.1.skipped,
            },
        )
    }
}

/// Runs a whole batch import against the in-memory store.  When the
/// attributing source does not exist the batch fails before touching
/// the store.  Otherwise every entry is processed in file order and the
/// tally accounts for each one exactly once.
pub fn import_batch(
    store: &mut Vec<OakEntry>,
    sources: &Vec<Source>,
    batch: &Vec<OakEntry>,
    source_id: &str,
    policy: &EnumerationPolicy,
    structural_ok: &Vec<bool>,
    decisions: &Vec<Vec<Decision>>,
) -> (r: Result<ImportStats, ImportError>)
    requires
        store_wf(entries_view(old(store)@)),
        forall|k: int| 0 <= k < batch@.len() ==> entry_fields_wf((#[trigger] batch@[k])@),
        structural_ok@.len() == batch@.len(),
        decisions@.len() == batch@.len(),
        forall|k: int|
            0 <= k < decisions@.len() ==> (#[trigger] decisions@[k])@.len() >= FIELD_COUNT,
        forall|k: int, j: int|
            0 <= k < decisions@.len() && 0 <= j < (#[trigger] decisions@[k])@.len()
                ==> match ((#[trigger] decisions@[k]@[j]))@ {
                DecisionV::ManualEdit(m) => entry_fields_wf(m),
                _ => true,
            },
    ensures
        match r {
            Ok(stats) => spec_source_exists(sources@, source_id@) && {
                let run = spec_run_batch(
                    *policy,
                    entries_view(old(store)@),
                    entries_view(batch@),
                    source_id@,
                    structural_ok@,
                    decision_lists_view(decisions@),
                );
                entries_view(final(store)@) == run.0 && stats@ == run.1
                    && stats.created + stats.updated + stats.skipped == batch@.len()
                    && store_wf(entries_view(final(store)@))
            },
            Err(ImportError::SourceNotFound) => !spec_source_exists(sources@, source_id@)
                && final(store)@ == old(store)@,
        },
{
    if !source_exists(sources, source_id) {
        return Err(ImportError::SourceNotFound);
    }
    let ghost p = *policy;
    let ghost sv0 = entries_view(old(store)@);
    let ghost bv = entries_view(batch@);
    let ghost oks = structural_ok@;
    let ghost dss = decision_lists_view(decisions@);
    let ghost full = spec_run_batch(p, sv0, bv, source_id@, oks, dss);
    let mut created: usize = 0;
    let mut updated: usize = 0;
    let mut skipped: usize = 0;
    proof {
        assert(bv.skip(0) =~= bv);
        assert(oks.skip(0) =~= oks);
        assert(dss.skip(0) =~= dss);
    }
    let mut k: usize = 0;
    while k < batch.len()
        invariant
            store_wf(entries_view(store@)),
            bv == entries_view(batch@),
            oks == structural_ok@,
            dss == decision_lists_view(decisions@),
            p == *policy,
            full == spec_run_batch(p, sv0, bv, source_id@, oks, dss),
            batch@.len() == oks.len(),
            batch@.len() == dss.len(),
            forall|m: int| 0 <= m < batch@.len() ==> entry_fields_wf((#[trigger] batch@[m])@),
            forall|m: int|
                0 <= m < decisions@.len() ==> (#[trigger] decisions@[m])@.len() >= FIELD_COUNT,
            forall|m: int, j: int|
                0 <= m < decisions@.len() && 0 <= j < (#[trigger] decisions@[m])@.len()
                    ==> match ((#[trigger] decisions@[m]@[j]))@ {
                    DecisionV::ManualEdit(e) => entry_fields_wf(e),
                    _ => true,
                },
            decisions@.len() == batch@.len(),
            k <= batch@.len(),
            created + updated + skipped == k,
            full.0 == spec_run_batch(
                p,
                entries_view(store@),
                bv.skip(k as int),
                source_id@,
                oks.skip(k as int),
                dss.skip(k as int),
            ).0,
            full.1.created == created + spec_run_batch(
                p,
                entries_view(store@),
                bv.skip(k as int),
                source_id@,
                oks.skip(k as int),
                dss.skip(k as int),
            ).1.created,
            full.1.updated == updated + spec_run_batch(
                p,
                entries_view(store@),
                bv.skip(k as int),
                source_id@,
                oks.skip(k as int),
                dss.skip(k as int),
            ).1.updated,
            full.1.skipped == skipped + spec_run_batch(
                p,
                entries_view(store@),
                bv.skip(k as int),
                source_id@,
                oks.skip(k as int),
                dss.skip(k as int),
            ).1.skipped,
        decreases batch@.len() - k,
    {
        let ghost cur = entries_view(store@);
        let ghost sub = spec_run_batch(
            p,
            cur,
            bv.skip(k as int),
            source_id@,
            oks.skip(k as int),
            dss.skip(k as int),
        );
        proof {
            assert(bv.skip(k as int)[0] == bv[k as int]);
            assert(bv[k as int] == batch@[k as int]@);
            assert(oks.skip(k as int)[0] == oks[k as int]);
            assert(dss.skip(k as int)[0] == dss[k as int]);
            assert(dss[k as int] == decisions_view(decisions@[k as int]@));
            assert(bv.skip(k as int).drop_first() =~= bv.skip(k as int + 1));
            assert(oks.skip(k as int).drop_first() =~= oks.skip(k as int + 1));
            assert(dss.skip(k as int).drop_first() =~= dss.skip(k as int + 1));
        }
        let incoming = &batch[k];
        let idx = find_entry_index(store, &incoming.scientific_name);
        let outcome = match idx {
            Some(i) => {
                proof {
                    assert(entries_view(store@)[i as int] == store@[i as int]@);
                    assert(entry_fields_wf(store@[i as int]@));
                }
                process_entry(
                    policy,
                    Some(&store[i]),
                    incoming,
                    source_id,
                    structural_ok[k],
                    &decisions[k],
                )
            },
            None => process_entry(
                policy,
                None,
                incoming,
                source_id,
                structural_ok[k],
                &decisions[k],
            ),
        };
        match outcome {
            EntryOutcome::Created(e) => {
                save_entry_in(store, e);
                created += 1;
            },
            EntryOutcome::Updated(e) => {
                save_entry_in(store, e);
                updated += 1;
            },
            EntryOutcome::Skipped => {
                skipped += 1;
            },
        }
        k += 1;
    }
    proof {
        assert(bv.skip(batch@.len() as int) =~= Seq::<OakEntryV>::empty());
        assert(oks.skip(batch@.len() as int) =~= Seq::<bool>::empty());
        assert(dss.skip(batch@.len() as int) =~= Seq::<Seq<DecisionV>>::empty());
    }
    Ok(ImportStats { created, updated, skipped })
}

} // verus!
