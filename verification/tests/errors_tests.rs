use logseq_publisher::errors::PublishError;

#[test]
fn test_parse_error() {
    let err = PublishError::parse("test.md", "invalid syntax");
    assert!(err.to_string().contains("test.md"));
    assert!(err.to_string().contains("invalid syntax"));
}

#[test]
fn test_io_error() {
    let err = PublishError::io("file not found");
    assert!(err.to_string().contains("IO error"));
}

#[test]
fn test_graph_error() {
    let err = PublishError::graph("missing page reference");
    assert!(err.to_string().contains("Graph error"));
}

#[test]
fn test_export_error() {
    let err = PublishError::export("failed to render HTML");
    assert!(err.to_string().contains("Export error"));
}

#[test]
fn test_invalid_input_error() {
    let err = PublishError::invalid_input("empty config");
    assert!(err.to_string().contains("Invalid input"));
}

#[test]
fn test_invalid_path_error() {
    let err = PublishError::invalid_path("/invalid/path");
    assert!(err.to_string().contains("Invalid path"));
}

#[test]
fn test_with_context() {
    let err = PublishError::io("read failed").with_context("Loading configuration");
    assert!(err.to_string().contains("Loading configuration"));
}
