use logseq_publisher::config::PublishConfig;
use logseq_publisher::converter::{is_markdown_path, output_path, validate_file_path, validate_input_path};
use logseq_publisher::errors::PublishError;
use logseq_publisher::optimizer::{generate_hash, minify_css, minify_js, optimize_assets, optimize_single_asset};

#[test]
fn errors_are_described() {
    assert_eq!(PublishError::parse("a.md", "bad").to_string(), "Parse error in a.md: bad");
    assert_eq!(PublishError::io("gone").to_string(), "IO error: gone");
    assert_eq!(PublishError::graph("loop").to_string(), "Graph error: loop");
    assert_eq!(PublishError::export("html").to_string(), "Export error: html");
    assert_eq!(PublishError::invalid_input("empty").to_string(), "Invalid input: empty");
    assert_eq!(PublishError::invalid_path("/x").to_string(), "Invalid path: /x");
    assert_eq!(PublishError::js_interop("undefined").to_string(), "JavaScript error: undefined");
    assert_eq!(PublishError::serialization("eof").to_string(), "Serialization error: eof");
    let e = PublishError::io("read failed").with_context("Loading configuration");
    assert_eq!(e.to_string(), "Loading configuration: IO error: read failed");
    assert!(matches!(e, PublishError::WithContext { .. }));
}

#[test]
fn directory_paths_are_checked() {
    assert!(validate_input_path("./graph").is_ok());
    assert!(validate_input_path("/home/me/graph").is_ok());
    assert!(validate_input_path("/tmp/graph").is_ok());
    let message = |r: Result<(), PublishError>| r.unwrap_err().to_string();
    assert_eq!(message(validate_input_path("")), "Invalid input: Input directory path cannot be empty");
    assert_eq!(
        message(validate_input_path("a/../b")),
        "Invalid input: Path traversal not allowed: path contains '..'"
    );
    assert_eq!(
        message(validate_input_path("/etc")),
        "Invalid input: Absolute paths outside allowed directories are not permitted"
    );
    assert_eq!(
        message(validate_input_path("/home")),
        "Invalid input: Absolute paths outside allowed directories are not permitted"
    );
}

#[test]
fn file_paths_are_checked() {
    assert!(validate_file_path("pages/a.md").is_ok());
    assert!(validate_file_path("a.b").is_ok());
    let message = |r: Result<(), PublishError>| r.unwrap_err().to_string();
    assert_eq!(message(validate_file_path("")), "Invalid input: File path cannot be empty");
    assert_eq!(
        message(validate_file_path("a/..")),
        "Invalid input: Path traversal not allowed in file path: 'a/..'"
    );
    assert_eq!(
        message(validate_file_path("a\0b")),
        "Invalid input: Null bytes not allowed in file path: 'a\0b'"
    );
    assert_eq!(message(validate_file_path("/a")), "Invalid input: Absolute file paths not allowed: '/a'");
    assert_eq!(message(validate_file_path("\\a")), "Invalid input: Absolute file paths not allowed: '\\a'");
    assert_eq!(output_path("out", "pages/a.html").unwrap(), "out/pages/a.html");
    assert!(output_path("out", "../a.html").is_err());
}

#[test]
fn note_files_are_told_by_their_endings() {
    assert!(is_markdown_path("test.md"));
    assert!(is_markdown_path("dir/test.markdown"));
    assert!(is_markdown_path(".md"));
    assert!(!is_markdown_path("test.txt"));
    assert!(!is_markdown_path("md"));
    assert!(!is_markdown_path("test.md.bak"));
}

#[test]
fn assets_get_their_hash_and_their_sizes() {
    assert_eq!(generate_hash("image.png"), "4ee84a82");
    assert_eq!(generate_hash(""), "e3b0c442");
    let asset = optimize_single_asset("image.png").unwrap();
    assert_eq!(asset.original_path, "image.png");
    assert_eq!(asset.hash, "4ee84a82");
    assert_eq!(asset.optimized_path, "image..4ee84a82.png");
    assert_eq!(asset.original_size, 900);
    assert_eq!(asset.optimized_size, 630);
    let asset = optimize_single_asset("a.b.c").unwrap();
    assert_eq!(asset.optimized_path, "a.b..845e3044.c");
    assert_eq!(asset.original_size, 500);
    assert_eq!(asset.optimized_size, 350);
    let asset = optimize_single_asset("noext").unwrap();
    assert_eq!(asset.optimized_path, format!(".{}.noext", asset.hash));
    let asset = optimize_single_asset("abab.ab").unwrap();
    assert_eq!(asset.optimized_path, format!("abab..{}.ab", asset.hash));
    let asset = optimize_single_asset("x.").unwrap();
    assert_eq!(asset.optimized_path, format!("x..{}.", asset.hash));
    let manifest = optimize_assets(&["image.png".to_string(), "styles.css".to_string()]).unwrap();
    assert_eq!(manifest.files.len(), 2);
    assert_eq!(manifest.files[1].hash, "380b7b38");
    assert_eq!(manifest.total_size, 1900);
    assert_eq!(manifest.optimized_size, 1330);
}

#[test]
fn style_sheets_and_scripts_are_packed() {
    assert_eq!(minify_css("body {\n    margin: 0;\n\n    padding:  0;\n}\n"), "body {margin: 0;padding: 0;}");
    assert_eq!(minify_css("a   b    c"), "a  b  c");
    assert_eq!(minify_css("  a\r\n\tb  \r\n"), "ab");
    assert_eq!(minify_css(""), "");
    assert_eq!(
        minify_js("// header\nfunction f() {\n  // inner\n  return 1; // kept\n}\n"),
        "function f() {return 1; // kept}"
    );
    assert_eq!(minify_js("a  b\n/ /c\n//"), "a  b/ /c");
}

#[test]
fn settings_are_kept() {
    let mut config = PublishConfig::new("./input".to_string(), "./output".to_string());
    assert_eq!(config.theme(), "default");
    assert!(config.include_backlinks());
    assert!(!config.include_graph_view());
    assert!(config.custom_css.is_none());
    config.set_theme("dark".to_string());
    config.set_include_backlinks(false);
    config.set_include_graph_view(true);
    assert_eq!(config.theme(), "dark");
    assert!(!config.include_backlinks());
    assert!(config.include_graph_view());
    assert_eq!(config.input_dir, "./input");
    assert_eq!(config.output_dir, "./output");
}
