use logseq_publisher::converter::{validate_file_path, validate_input_path};

#[test]
fn test_markdown_filter() {
    // Test that only .md and .markdown files would be included
    assert!("test.md".ends_with(".md"));
    assert!("test.markdown".ends_with(".markdown"));
    assert!(!"test.txt".ends_with(".md"));
}

#[test]
fn test_path_validation() {
    // Valid paths
    assert!(validate_input_path("./test").is_ok());
    assert!(validate_file_path("test.md").is_ok());

    // Invalid paths with path traversal
    assert!(validate_input_path("../etc/passwd").is_err());
    assert!(validate_file_path("../../etc/passwd").is_err());

    // Null byte attacks
    assert!(validate_file_path("test\0.md").is_err());

    // Absolute paths
    assert!(validate_file_path("/etc/passwd").is_err());
}
