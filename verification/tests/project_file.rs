use nimby_graph::project_file::{create_export_filename, project_file_bytes, project_payload, CURRENT_PROJECT_VERSION};

#[test]
fn test_deserialize_invalid_size() {
    let bytes = vec![0u8, 1u8, 2u8];
    let result = project_payload(&bytes);
    assert!(result.is_err());
    assert!(result.expect_err("Expected error").contains("too small"));
}

#[test]
fn test_deserialize_invalid_version() {
    let mut bytes = vec![0u8; 8];
    let invalid_version = 99u32;
    bytes[0..4].copy_from_slice(&invalid_version.to_le_bytes());
    let result = project_payload(&bytes);
    assert!(result.is_err());
    assert!(result.expect_err("Expected error").contains("Unsupported project version"));
}

#[test]
fn test_create_export_filename() {
    let filename = create_export_filename("My Project", "2024-01-02-030405");
    assert!(filename.starts_with("My Project."));
    assert!(filename.ends_with(".rgproject"));
}

#[test]
fn test_create_export_filename_sanitizes_invalid_chars() {
    let filename = create_export_filename("My/Project\\Name:Test", "2024-01-02-030405");
    assert!(!filename.contains('/'));
    assert!(!filename.contains('\\'));
    assert!(!filename.contains(':'));
    assert!(filename.ends_with(".rgproject"));
}

#[test]
fn export_filename_is_name_dot_stamp_and_extension() {
    assert_eq!(create_export_filename("a*b?c", "2024-01-02-030405"), "a_b_c.2024-01-02-030405.rgproject");
}

#[test]
fn framed_bytes_read_back() {
    let framed = project_file_bytes(&[7, 8, 9]);
    assert_eq!(framed, vec![1, 0, 0, 0, 7, 8, 9]);
    assert_eq!(CURRENT_PROJECT_VERSION.to_le_bytes().to_vec(), framed[0..4].to_vec());
    assert_eq!(project_payload(&framed), Ok(vec![7, 8, 9]));
    assert_eq!(project_payload(&[1, 0, 0, 0]), Ok(vec![]));
    assert_eq!(project_payload(&[2, 1, 0, 0, 5]), Err("Unsupported project version: 258".to_string()));
}
