use oak_compendium::models::{DataPoint, FieldName, OakEntry};
use oak_compendium::reconcile::{
    detect_conflicts, handle_conflicts, merge_entries, replace_field_value, ConflictResolution,
    Decision,
};

fn dp(value: &str, source_id: &str) -> DataPoint {
    DataPoint { value: value.to_string(), source_id: source_id.to_string(), page_number: None }
}

fn quercus_robur_green() -> OakEntry {
    let mut e = OakEntry::new("Quercus robur".to_string());
    e.leaf_color.push(dp("green", "src1"));
    e
}

#[test]
fn detect_no_conflict_on_identical_reimport() {
    let existing = quercus_robur_green();
    let mut import = OakEntry::new("Quercus robur".to_string());
    import.leaf_color.push(dp("green", "src1"));
    let conflicts = detect_conflicts(&existing, &import, "src1");
    assert_eq!(conflicts.len(), 0);
}

#[test]
fn detect_no_conflict_on_first_attribution() {
    let existing = quercus_robur_green();
    let mut import = OakEntry::new("Quercus robur".to_string());
    import.leaf_color.push(dp("red", "src2"));
    let conflicts = detect_conflicts(&existing, &import, "src2");
    assert_eq!(conflicts.len(), 0);
}

#[test]
fn detect_single_conflict_on_differing_value() {
    let existing = quercus_robur_green();
    let mut import = OakEntry::new("Quercus robur".to_string());
    import.leaf_color.push(dp("red", "src1"));
    let conflicts = detect_conflicts(&existing, &import, "src1");
    assert_eq!(conflicts.len(), 1);
    assert!(matches!(conflicts[0].field_name, FieldName::LeafColor));
    assert_eq!(conflicts[0].db_value, "green");
    assert_eq!(conflicts[0].import_value, "red");
}

#[test]
fn detect_follows_field_order() {
    let mut existing = OakEntry::new("Quercus alba".to_string());
    existing.height.push(dp("20m", "s"));
    existing.common_names.push(dp("white oak", "s"));
    let mut import = OakEntry::new("Quercus alba".to_string());
    import.height.push(dp("25m", "s"));
    import.common_names.push(dp("eastern white oak", "s"));
    let conflicts = detect_conflicts(&existing, &import, "s");
    assert_eq!(conflicts.len(), 2);
    assert!(matches!(conflicts[0].field_name, FieldName::CommonNames));
    assert!(matches!(conflicts[1].field_name, FieldName::Height));
}

#[test]
fn merge_appends_only_new_sources() {
    let mut existing = quercus_robur_green();
    let mut import = OakEntry::new("Quercus robur".to_string());
    import.leaf_color.push(dp("dark green", "src2"));
    import.leaf_color.push(dp("olive", "src1"));
    merge_entries(&mut existing, &import);
    assert_eq!(existing.leaf_color.len(), 2);
    assert_eq!(existing.leaf_color[0].value, "green");
    assert_eq!(existing.leaf_color[0].source_id, "src1");
    assert_eq!(existing.leaf_color[1].value, "dark green");
    assert_eq!(existing.leaf_color[1].source_id, "src2");
}

#[test]
fn merge_unions_synonyms_in_order() {
    let mut existing = OakEntry::new("Quercus robur".to_string());
    existing.synonyms.push("Quercus pedunculata".to_string());
    let mut import = OakEntry::new("Quercus robur".to_string());
    import.synonyms.push("Quercus robur L.".to_string());
    import.synonyms.push("Quercus pedunculata".to_string());
    merge_entries(&mut existing, &import);
    assert_eq!(
        existing.synonyms,
        vec!["Quercus pedunculata".to_string(), "Quercus robur L.".to_string()]
    );
}

#[test]
fn merge_twice_is_a_no_op() {
    let mut existing = quercus_robur_green();
    let mut import = OakEntry::new("Quercus robur".to_string());
    import.leaf_color.push(dp("dark green", "src2"));
    import.synonyms.push("Quercus pedunculata".to_string());
    merge_entries(&mut existing, &import);
    let len_after_first = existing.leaf_color.len();
    let syns_after_first = existing.synonyms.clone();
    let conflicts = detect_conflicts(&existing, &import, "src2");
    assert_eq!(conflicts.len(), 0);
    merge_entries(&mut existing, &import);
    assert_eq!(existing.leaf_color.len(), len_after_first);
    assert_eq!(existing.synonyms, syns_after_first);
    assert_eq!(existing.leaf_color[0].value, "green");
    assert_eq!(existing.leaf_color[1].value, "dark green");
}

#[test]
fn replace_field_value_swaps_only_that_source() {
    let mut entry = quercus_robur_green();
    entry.leaf_color.push(dp("dark green", "src2"));
    replace_field_value(&mut entry, FieldName::LeafColor, "src1", "red");
    assert_eq!(entry.leaf_color[0].value, "red");
    assert_eq!(entry.leaf_color[0].source_id, "src1");
    assert_eq!(entry.leaf_color[1].value, "dark green");
}

#[test]
fn replace_field_value_keeps_locator() {
    let mut entry = OakEntry::new("Quercus robur".to_string());
    entry.habitat.push(DataPoint {
        value: "lowland".to_string(),
        source_id: "src1".to_string(),
        page_number: Some("p. 12".to_string()),
    });
    replace_field_value(&mut entry, FieldName::Habitat, "src1", "upland");
    assert_eq!(entry.habitat[0].value, "upland");
    assert_eq!(entry.habitat[0].page_number.as_deref(), Some("p. 12"));
}

#[test]
fn replace_field_value_without_match_changes_nothing() {
    let mut entry = quercus_robur_green();
    replace_field_value(&mut entry, FieldName::LeafColor, "src9", "red");
    assert_eq!(entry.leaf_color.len(), 1);
    assert_eq!(entry.leaf_color[0].value, "green");
}

#[test]
fn resolution_keep_current_keeps_green() {
    let existing = quercus_robur_green();
    let mut import = OakEntry::new("Quercus robur".to_string());
    import.leaf_color.push(dp("red", "src1"));
    let conflicts = detect_conflicts(&existing, &import, "src1");
    assert_eq!(conflicts.len(), 1);
    let decisions = vec![Decision::KeepCurrent];
    match handle_conflicts(&existing, &import, "src1", &conflicts, &decisions) {
        ConflictResolution::Resolved(e) => {
            assert_eq!(e.leaf_color.len(), 1);
            assert_eq!(e.leaf_color[0].value, "green");
        }
        ConflictResolution::Skipped => panic!("resolution should not skip"),
    }
}

#[test]
fn resolution_take_incoming_turns_red() {
    let existing = quercus_robur_green();
    let mut import = OakEntry::new("Quercus robur".to_string());
    import.leaf_color.push(dp("red", "src1"));
    let conflicts = detect_conflicts(&existing, &import, "src1");
    let decisions = vec![Decision::TakeIncoming];
    match handle_conflicts(&existing, &import, "src1", &conflicts, &decisions) {
        ConflictResolution::Resolved(e) => {
            assert_eq!(e.leaf_color.len(), 1);
            assert_eq!(e.leaf_color[0].value, "red");
            assert_eq!(e.leaf_color[0].source_id, "src1");
        }
        ConflictResolution::Skipped => panic!("resolution should not skip"),
    }
}

#[test]
fn resolution_skip_abandons_entry() {
    let existing = quercus_robur_green();
    let mut import = OakEntry::new("Quercus robur".to_string());
    import.leaf_color.push(dp("red", "src1"));
    let conflicts = detect_conflicts(&existing, &import, "src1");
    let decisions = vec![Decision::SkipEntry];
    assert!(matches!(
        handle_conflicts(&existing, &import, "src1", &conflicts, &decisions),
        ConflictResolution::Skipped
    ));
}

#[test]
fn resolution_manual_edit_still_merges_nonconflicting_data() {
    let existing = quercus_robur_green();
    let mut import = OakEntry::new("Quercus robur".to_string());
    import.leaf_color.push(dp("red", "src1"));
    import.habitat.push(dp("lowland forest", "src1"));
    let conflicts = detect_conflicts(&existing, &import, "src1");
    assert_eq!(conflicts.len(), 1);
    let mut edited = quercus_robur_green();
    edited.leaf_color[0].value = "reddish green".to_string();
    let decisions = vec![Decision::ManualEdit(edited)];
    match handle_conflicts(&existing, &import, "src1", &conflicts, &decisions) {
        ConflictResolution::Resolved(e) => {
            assert_eq!(e.leaf_color[0].value, "reddish green");
            // the non-conflicting habitat value is merged in afterwards
            assert_eq!(e.habitat.len(), 1);
            assert_eq!(e.habitat[0].value, "lowland forest");
        }
        ConflictResolution::Skipped => panic!("resolution should not skip"),
    }
}

#[test]
fn resolution_stops_at_first_skip() {
    let mut existing = OakEntry::new("Quercus alba".to_string());
    existing.leaf_color.push(dp("green", "s"));
    existing.height.push(dp("20m", "s"));
    let mut import = OakEntry::new("Quercus alba".to_string());
    import.leaf_color.push(dp("red", "s"));
    import.height.push(dp("30m", "s"));
    let conflicts = detect_conflicts(&existing, &import, "s");
    assert_eq!(conflicts.len(), 2);
    // the skip on the first conflict ends resolution; the second decision
    // is never consulted
    let decisions = vec![Decision::SkipEntry, Decision::TakeIncoming];
    assert!(matches!(
        handle_conflicts(&existing, &import, "s", &conflicts, &decisions),
        ConflictResolution::Skipped
    ));
}
