use logseq_publisher::outline::{count_indent, extract_title};
use logseq_publisher::parser::parse_logseq_page;

#[test]
fn parser_test_parse_simple_page() {
    let content = r#"---
title: Test Page
---
- This is a block
- Another block with #tag
- Block with [[link]]"#;

    let page = parse_logseq_page(content, "test.md").unwrap();
    assert_eq!(page.title, "test");
    assert_eq!(page.blocks.len(), 3);
    assert!(page.tags.contains(&"tag".to_string()));
    assert!(page.links.contains(&"link".to_string()));
}

#[test]
fn parser_test_parse_nested_blocks() {
    let content = r#"- Parent block
  - Child block
    - Grandchild block"#;

    let page = parse_logseq_page(content, "nested.md").unwrap();
    assert_eq!(page.blocks.len(), 1);
    assert_eq!(page.blocks[0].children.len(), 1);
    assert_eq!(page.blocks[0].children[0].children.len(), 1);
}

#[test]
fn test_extract_title() {
    assert_eq!(extract_title("test.md"), "test");
    assert_eq!(extract_title("pages/test.md"), "test");
    assert_eq!(extract_title("test.markdown"), "test");
}

#[test]
fn test_indent_counting() {
    assert_eq!(count_indent("  - Block"), 1);
    assert_eq!(count_indent("    - Block"), 2);
    assert_eq!(count_indent("\t- Block"), 1);
    assert_eq!(count_indent("\t\t- Block"), 2);
}

#[test]
fn test_complex_markdown_parsing() {
    let content = r#"- Block with [[link]] and #tag
  - Nested with **bold** and *italic*
    - Deep nested
- Another top-level
"#;

    let page = parse_logseq_page(content, "test.md").unwrap();

    assert_eq!(page.blocks.len(), 2);
    assert_eq!(page.blocks[0].children.len(), 1);
    assert_eq!(page.blocks[0].children[0].children.len(), 1);
}

#[test]
fn test_parse_simple_page() {
    let content = r#"---
title: Test Page
---
- This is a block
- Another block with #tag
- Block with [[link]]"#;

    let page = parse_logseq_page(content, "test.md").unwrap();
    assert_eq!(page.title, "test");
    assert_eq!(page.blocks.len(), 3);
    assert!(page.tags.contains(&"tag".to_string()));
    assert!(page.links.contains(&"link".to_string()));
}

#[test]
fn test_parse_nested_blocks() {
    let content = r#"- Parent block
  - Child block
    - Grandchild block"#;

    let page = parse_logseq_page(content, "nested.md").unwrap();
    assert_eq!(page.blocks.len(), 1);
    assert_eq!(page.blocks[0].children.len(), 1);
    assert_eq!(page.blocks[0].children[0].children.len(), 1);
}
