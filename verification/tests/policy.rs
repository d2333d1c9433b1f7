use oak_compendium::models::{DataPoint, FieldName, OakEntry};
use oak_compendium::policy::{EnumerationPolicy, PolicyError};

fn dp(value: &str, source_id: &str) -> DataPoint {
    DataPoint { value: value.to_string(), source_id: source_id.to_string(), page_number: None }
}

fn schema_policy() -> EnumerationPolicy {
    let mut p = EnumerationPolicy::new();
    p.set_allowed(
        FieldName::LeafShape,
        vec!["lobed".to_string(), "rounded".to_string(), "serrated".to_string()],
    );
    p.set_allowed(
        FieldName::LeafColor,
        vec!["green".to_string(), "red".to_string(), "yellow".to_string()],
    );
    p
}

#[test]
fn test_validate_valid_entry() {
    let policy = schema_policy();
    let entry = OakEntry {
        leaf_shape: vec![dp("lobed", "src1")],
        ..OakEntry::new("Quercus robur".to_string())
    };
    assert!(policy.check(&entry).is_empty());
}

#[test]
fn test_validate_invalid_enum() {
    let policy = schema_policy();
    let entry = OakEntry {
        leaf_shape: vec![dp("square", "src1")],
        ..OakEntry::new("Quercus robur".to_string())
    };
    let violations = policy.check(&entry);
    assert_eq!(violations.len(), 1);
    assert!(matches!(violations[0].field, FieldName::LeafShape));
    assert_eq!(violations[0].value, "square");
}

#[test]
fn free_text_fields_are_never_checked() {
    let policy = schema_policy();
    let entry = OakEntry {
        habitat: vec![dp("anywhere at all", "src1")],
        height: vec![dp("somewhere between 5m and 40m", "src1")],
        ..OakEntry::new("Quercus robur".to_string())
    };
    assert!(policy.check(&entry).is_empty());
}

#[test]
fn check_reports_every_offending_value() {
    let policy = schema_policy();
    let entry = OakEntry {
        leaf_color: vec![dp("ultraviolet", "src1"), dp("green", "src2"), dp("plaid", "src3")],
        leaf_shape: vec![dp("square", "src1")],
        ..OakEntry::new("Quercus robur".to_string())
    };
    let violations = policy.check(&entry);
    assert_eq!(violations.len(), 3);
    // field order: leaf_color before leaf_shape
    assert!(matches!(violations[0].field, FieldName::LeafColor));
    assert_eq!(violations[0].value, "ultraviolet");
    assert!(matches!(violations[1].field, FieldName::LeafColor));
    assert_eq!(violations[1].value, "plaid");
    assert!(matches!(violations[2].field, FieldName::LeafShape));
    assert_eq!(violations[2].value, "square");
}

#[test]
fn add_value_inserts_sorted() {
    let mut policy = schema_policy();
    assert!(policy.add_enumeration_value(FieldName::LeafShape, "elliptic").is_ok());
    let allowed = policy.get_allowed_values(FieldName::LeafShape).unwrap();
    assert_eq!(
        allowed,
        &vec![
            "elliptic".to_string(),
            "lobed".to_string(),
            "rounded".to_string(),
            "serrated".to_string(),
        ]
    );
}

#[test]
fn add_value_rejects_duplicate() {
    let mut policy = schema_policy();
    let r = policy.add_enumeration_value(FieldName::LeafShape, "lobed");
    assert!(matches!(r, Err(PolicyError::ValueAlreadyPresent)));
    assert_eq!(policy.get_allowed_values(FieldName::LeafShape).unwrap().len(), 3);
}

#[test]
fn add_value_rejects_free_text_field() {
    let mut policy = schema_policy();
    let r = policy.add_enumeration_value(FieldName::Habitat, "tundra");
    assert!(matches!(r, Err(PolicyError::FieldNotEnumerated)));
    assert!(policy.get_allowed_values(FieldName::Habitat).is_none());
}

#[test]
fn set_allowed_sorts_and_deduplicates() {
    let mut policy = EnumerationPolicy::new();
    policy.set_allowed(
        FieldName::BudShape,
        vec!["pointed".to_string(), "blunt".to_string(), "pointed".to_string()],
    );
    let allowed = policy.get_allowed_values(FieldName::BudShape).unwrap();
    assert_eq!(allowed, &vec!["blunt".to_string(), "pointed".to_string()]);
}

#[test]
fn enumerated_fields_are_listed() {
    let policy = schema_policy();
    let fields = policy.get_enumerated_fields();
    assert_eq!(fields.len(), 2);
    assert!(matches!(fields[0], FieldName::LeafShape));
    assert!(matches!(fields[1], FieldName::LeafColor));
}
