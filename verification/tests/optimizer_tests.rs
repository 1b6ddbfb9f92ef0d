use logseq_publisher::optimizer::{minify_css, optimize_assets};

#[test]
fn optimizer_test_asset_optimization() {
    let assets = vec![
        "image.png".to_string(),
        "styles.css".to_string(),
    ];

    let manifest = optimize_assets(&assets).unwrap();
    assert_eq!(manifest.files.len(), 2);
    assert!(manifest.optimized_size < manifest.total_size);
}

#[test]
fn test_css_minification() {
    let css = r#"
        body {
            margin: 0;
            padding: 0;
        }
        "#;

    let minified = minify_css(css);
    assert!(!minified.contains('\n'));
}
