use nimby_graph::project::{generate_id, generate_id_default, regenerate_project_ids, Legend, ProjectMetadata, SpacingMode};
use std::collections::HashSet;

#[test]
fn test_generate_id_produces_different_values() {
    let id1 = generate_id();
    let id2 = generate_id();
    let id3 = generate_id();

    // Very unlikely to be equal (1 in 2^64 chance per pair)
    assert_ne!(id1, id2);
    assert_ne!(id2, id3);
    assert_ne!(id1, id3);
}

#[test]
fn test_generate_many_unique_ids() {
    let mut ids = HashSet::new();
    let count = 10_000;

    for _ in 0..count {
        ids.insert(generate_id());
    }

    // All IDs should be unique
    assert_eq!(ids.len(), count);
}

#[test]
fn default_ids_differ() {
    assert_ne!(generate_id_default(), generate_id_default());
}

#[test]
fn legend_defaults() {
    let legend = Legend::default();
    assert!(legend.show_conflicts);
    assert!(!legend.show_line_blocks);
    assert_eq!(legend.spacing_mode, SpacingMode::Equal);
    assert_eq!(SpacingMode::default(), SpacingMode::Equal);
}

fn metadata(name: &str) -> ProjectMetadata {
    ProjectMetadata {
        id: "3f1c2a4e-0000-4000-8000-000000000001".to_string(),
        name: name.to_string(),
        created_at: "2024-01-01T00:00:00+00:00".to_string(),
        updated_at: "2024-01-01T00:00:00+00:00".to_string(),
    }
}

#[test]
fn test_regenerate_project_ids() {
    let original = metadata("Original");
    let original_id = original.id.clone();
    let original_created = original.created_at.clone();

    let prepared = regenerate_project_ids(original.clone(), None, "2024-06-01T12:00:00+00:00");

    assert_ne!(prepared.id, original_id);
    assert_ne!(prepared.created_at, original_created);
    assert_eq!(prepared.name, original.name);
}

#[test]
fn test_regenerate_project_ids_with_new_name() {
    let original = metadata("Original");
    let new_name = "Imported".to_string();

    let prepared = regenerate_project_ids(original.clone(), Some(new_name.clone()), "2024-06-01T12:00:00+00:00");

    assert_eq!(prepared.name, new_name);
    assert_ne!(prepared.name, original.name);
    assert_eq!(prepared.created_at, prepared.updated_at);
}
