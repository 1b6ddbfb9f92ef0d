use logseq_publisher::config::PublishConfig;

#[test]
fn test_config_creation() {
    let config = PublishConfig::new("./input".to_string(), "./output".to_string());
    assert_eq!(config.input_dir, "./input");
    assert_eq!(config.output_dir, "./output");
    assert_eq!(config.theme, "default");
    assert!(config.include_backlinks);
}
