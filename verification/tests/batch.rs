use oak_compendium::import::{
    entry_wf_check, import_batch, process_entry, source_exists, EntryOutcome, ImportError,
};
use oak_compendium::models::{DataPoint, FieldName, OakEntry, Source};
use oak_compendium::policy::EnumerationPolicy;
use oak_compendium::reconcile::Decision;

fn dp(value: &str, source_id: &str) -> DataPoint {
    DataPoint { value: value.to_string(), source_id: source_id.to_string(), page_number: None }
}

fn no_decisions() -> Vec<Decision> {
    let mut ds = Vec::new();
    for _ in 0..8 {
        ds.push(Decision::KeepCurrent);
    }
    ds
}

fn decisions_starting_with(first: Decision) -> Vec<Decision> {
    let mut ds = vec![first];
    for _ in 0..7 {
        ds.push(Decision::KeepCurrent);
    }
    ds
}

fn schema_policy() -> EnumerationPolicy {
    let mut p = EnumerationPolicy::new();
    p.set_allowed(
        FieldName::LeafShape,
        vec!["lobed".to_string(), "rounded".to_string(), "serrated".to_string()],
    );
    p
}

fn src1() -> Source {
    Source::new("src1".to_string(), "Book".to_string(), "Oaks of Europe".to_string())
}

#[test]
fn new_source_has_no_optional_fields() {
    let s = src1();
    assert_eq!(s.source_id, "src1");
    assert_eq!(s.source_type, "Book");
    assert_eq!(s.name, "Oaks of Europe");
    assert!(s.author.is_none());
    assert!(s.year.is_none());
    assert!(s.url.is_none());
    assert!(s.isbn.is_none());
    assert!(s.doi.is_none());
    assert!(s.notes.is_none());
}

#[test]
fn new_entry_is_empty() {
    let e = OakEntry::new("Quercus robur".to_string());
    assert_eq!(e.scientific_name, "Quercus robur");
    assert!(e.common_names.is_empty());
    assert!(e.leaf_color.is_empty());
    assert!(e.synonyms.is_empty());
}

#[test]
fn wf_check_accepts_distinct_sources_and_rejects_duplicates() {
    let mut e = OakEntry::new("Quercus robur".to_string());
    e.leaf_color.push(dp("green", "src1"));
    e.leaf_color.push(dp("dark green", "src2"));
    assert!(entry_wf_check(&e));
    e.leaf_color.push(dp("olive", "src1"));
    assert!(!entry_wf_check(&e));
}

#[test]
fn source_lookup_scans_identifiers() {
    let sources = vec![src1()];
    assert!(source_exists(&sources, "src1"));
    assert!(!source_exists(&sources, "missing"));
}

#[test]
fn process_entry_creates_when_absent() {
    let policy = schema_policy();
    let mut incoming = OakEntry::new("Quercus robur".to_string());
    incoming.leaf_color.push(dp("green", "src1"));
    let outcome = process_entry(&policy, None, &incoming, "src1", true, &no_decisions());
    match outcome {
        EntryOutcome::Created(e) => {
            assert_eq!(e.scientific_name, "Quercus robur");
            assert_eq!(e.leaf_color.len(), 1);
        }
        _ => panic!("a new entry must be created"),
    }
}

#[test]
fn process_entry_skips_on_structural_failure() {
    let policy = schema_policy();
    let incoming = OakEntry::new("Quercus robur".to_string());
    let outcome = process_entry(&policy, None, &incoming, "src1", false, &no_decisions());
    assert!(matches!(outcome, EntryOutcome::Skipped));
}

#[test]
fn identical_reimport_counts_as_updated() {
    // existing entry "Quercus robur" with leaf_color green from src1; the
    // import supplies exactly the same value from the same source
    let policy = schema_policy();
    let mut existing = OakEntry::new("Quercus robur".to_string());
    existing.leaf_color.push(dp("green", "src1"));
    let mut store = vec![existing];
    let sources = vec![src1()];
    let mut import = OakEntry::new("Quercus robur".to_string());
    import.leaf_color.push(dp("green", "src1"));
    let batch = vec![import];
    let stats = import_batch(
        &mut store,
        &sources,
        &batch,
        "src1",
        &policy,
        &vec![true],
        &vec![no_decisions()],
    )
    .unwrap();
    assert_eq!(stats.created, 0);
    assert_eq!(stats.updated, 1);
    assert_eq!(stats.skipped, 0);
    // zero-length diff: the entry is unchanged
    assert_eq!(store.len(), 1);
    assert_eq!(store[0].leaf_color.len(), 1);
    assert_eq!(store[0].leaf_color[0].value, "green");
    assert_eq!(store[0].leaf_color[0].source_id, "src1");
}

#[test]
fn conflicting_reimport_keep_and_take() {
    let policy = schema_policy();
    let sources = vec![src1()];
    let mut import = OakEntry::new("Quercus robur".to_string());
    import.leaf_color.push(dp("red", "src1"));
    let batch = vec![import];

    // keep-current leaves green in place
    let mut existing = OakEntry::new("Quercus robur".to_string());
    existing.leaf_color.push(dp("green", "src1"));
    let mut store = vec![existing];
    let stats = import_batch(
        &mut store,
        &sources,
        &batch,
        "src1",
        &policy,
        &vec![true],
        &vec![decisions_starting_with(Decision::KeepCurrent)],
    )
    .unwrap();
    assert_eq!(stats.updated, 1);
    assert_eq!(store[0].leaf_color[0].value, "green");

    // take-incoming changes it to red
    let mut existing = OakEntry::new("Quercus robur".to_string());
    existing.leaf_color.push(dp("green", "src1"));
    let mut store = vec![existing];
    let stats = import_batch(
        &mut store,
        &sources,
        &batch,
        "src1",
        &policy,
        &vec![true],
        &vec![decisions_starting_with(Decision::TakeIncoming)],
    )
    .unwrap();
    assert_eq!(stats.updated, 1);
    assert_eq!(store[0].leaf_color[0].value, "red");
}

#[test]
fn missing_source_fails_batch_before_any_mutation() {
    let policy = schema_policy();
    let sources = vec![src1()];
    let mut incoming = OakEntry::new("Quercus robur".to_string());
    incoming.leaf_color.push(dp("green", "missing"));
    let batch = vec![incoming];
    let mut store: Vec<OakEntry> = Vec::new();
    let r = import_batch(
        &mut store,
        &sources,
        &batch,
        "missing",
        &policy,
        &vec![true],
        &vec![no_decisions()],
    );
    assert!(matches!(r, Err(ImportError::SourceNotFound)));
    assert!(store.is_empty());
}

#[test]
fn invalid_enum_value_skips_entry_without_store_mutation() {
    let policy = schema_policy();
    let sources = vec![src1()];
    let mut incoming = OakEntry::new("Quercus robur".to_string());
    incoming.leaf_shape.push(dp("square", "src1"));
    let batch = vec![incoming];
    let mut store: Vec<OakEntry> = Vec::new();
    let stats = import_batch(
        &mut store,
        &sources,
        &batch,
        "src1",
        &policy,
        &vec![true],
        &vec![no_decisions()],
    )
    .unwrap();
    assert_eq!(stats.created, 0);
    assert_eq!(stats.updated, 0);
    assert_eq!(stats.skipped, 1);
    assert!(store.is_empty());
}

#[test]
fn counters_account_for_every_entry() {
    let policy = schema_policy();
    let sources = vec![src1()];
    let mut existing = OakEntry::new("Quercus robur".to_string());
    existing.leaf_color.push(dp("green", "src1"));
    let mut store = vec![existing];

    let mut reimport = OakEntry::new("Quercus robur".to_string());
    reimport.leaf_color.push(dp("green", "src1"));
    let mut fresh = OakEntry::new("Quercus alba".to_string());
    fresh.leaf_color.push(dp("pale green", "src1"));
    let mut invalid = OakEntry::new("Quercus rubra".to_string());
    invalid.leaf_shape.push(dp("square", "src1"));
    let batch = vec![reimport, fresh, invalid];

    let stats = import_batch(
        &mut store,
        &sources,
        &batch,
        "src1",
        &policy,
        &vec![true, true, true],
        &vec![no_decisions(), no_decisions(), no_decisions()],
    )
    .unwrap();
    assert_eq!(stats.created, 1);
    assert_eq!(stats.updated, 1);
    assert_eq!(stats.skipped, 1);
    assert_eq!(stats.created + stats.updated + stats.skipped, batch.len());
    assert_eq!(store.len(), 2);
    assert_eq!(store[1].scientific_name, "Quercus alba");
}

#[test]
fn skip_decision_counts_entry_as_skipped() {
    let policy = schema_policy();
    let sources = vec![src1()];
    let mut existing = OakEntry::new("Quercus robur".to_string());
    existing.leaf_color.push(dp("green", "src1"));
    let mut store = vec![existing];
    let mut import = OakEntry::new("Quercus robur".to_string());
    import.leaf_color.push(dp("red", "src1"));
    let batch = vec![import];
    let stats = import_batch(
        &mut store,
        &sources,
        &batch,
        "src1",
        &policy,
        &vec![true],
        &vec![decisions_starting_with(Decision::SkipEntry)],
    )
    .unwrap();
    assert_eq!(stats.skipped, 1);
    assert_eq!(stats.updated, 0);
    assert_eq!(store[0].leaf_color[0].value, "green");
}
