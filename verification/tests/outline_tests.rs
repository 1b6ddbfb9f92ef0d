use logseq_publisher::outline::{count_indent, extract_block_content, extract_title};
use logseq_publisher::graph::Graph;
use logseq_publisher::parser::{
    extract_tags_and_links, parse_blocks, parse_logseq_page, parse_properties, Block, Page,
};
use logseq_publisher::text::{split_lines, to_chars};
use logseq_publisher::errors::PublishError;
use logseq_publisher::properties::Properties;

fn depth_of(blocks: &[Block]) -> usize {
    let mut depth = 0;
    let mut level: Vec<&Block> = blocks.iter().collect();
    while !level.is_empty() {
        depth += 1;
        level = level.iter().flat_map(|b| b.children.iter()).collect();
    }
    depth
}

#[test]
fn unclosed_frontmatter_names_the_path() {
    let result = parse_logseq_page("---\nfoo: bar\n", "notes/day.md");
    match result {
        Err(PublishError::Parse { file, message }) => {
            assert_eq!(file, "notes/day.md");
            assert_eq!(message, "Unclosed frontmatter");
        }
        _ => panic!("the frontmatter is not closed"),
    }
    let e = parse_logseq_page("---", "x.md").unwrap_err();
    assert_eq!(e.to_string(), "Parse error in x.md: Unclosed frontmatter");
}

#[test]
fn fifty_levels_of_nesting_come_back() {
    let mut content = String::new();
    for i in 0..50 {
        content.push_str(&format!("{}- Level {}\n", "  ".repeat(i), i));
    }
    let page = parse_logseq_page(&content, "deep.md").unwrap();
    assert_eq!(depth_of(&page.blocks), 50);
    let mut block = &page.blocks[0];
    for i in 0..50 {
        assert_eq!(block.level, i);
        assert_eq!(block.content, format!("Level {}", i));
        assert_eq!(block.id, format!("block-{}", i));
        if i < 49 {
            assert_eq!(block.children.len(), 1);
            block = &block.children[0];
        } else {
            assert!(block.children.is_empty());
        }
    }
}

#[test]
fn a_thousand_levels_of_nesting_come_back() {
    let mut content = String::new();
    for i in 0..1200 {
        content.push_str(&format!("{}- Level {}\n", "\t".repeat(i), i));
    }
    let page = parse_logseq_page(&content, "deep.md").unwrap();
    assert_eq!(depth_of(&page.blocks), 1200);
}

#[test]
fn frontmatter_gives_the_properties() {
    let content = "---\ntitle: Test Page\nurl: http://example.com\n no colon here \nempty:\n  spaced key  :   spaced value  \ntitle: Later\n---\n- Block";
    let page = parse_logseq_page(content, "p.md").unwrap();
    assert_eq!(page.properties.len(), 4);
    assert_eq!(page.properties.get("title"), Some(&"Later".to_string()));
    assert_eq!(page.properties.get("url"), Some(&"http://example.com".to_string()));
    assert_eq!(page.properties.get("empty"), Some(&"".to_string()));
    assert_eq!(page.properties.get("spaced key"), Some(&"spaced value".to_string()));
    assert!(!page.properties.contains_key("no colon here"));
    assert_eq!(page.blocks.len(), 1);
    assert_eq!(page.blocks[0].content, "Block");
}

#[test]
fn frontmatter_needs_the_delimiter_in_the_first_line() {
    let page = parse_logseq_page("\n---\na: b\n", "p.md").unwrap();
    assert!(page.properties.is_empty());
    assert_eq!(page.blocks.len(), 2);
    assert_eq!(page.blocks[0].content, "---");
    let page = parse_logseq_page("--- \na: b\n", "p.md").unwrap();
    assert_eq!(page.blocks.len(), 2);
    let page = parse_logseq_page("---\n---", "p.md").unwrap();
    assert!(page.properties.is_empty());
    assert!(page.blocks.is_empty());
}

#[test]
fn indentation_counts_tabs_and_pairs_of_spaces() {
    assert_eq!(count_indent(""), 0);
    assert_eq!(count_indent("- Block"), 0);
    assert_eq!(count_indent(" - Block"), 0);
    assert_eq!(count_indent("   - Block"), 1);
    assert_eq!(count_indent("     - Block"), 2);
    assert_eq!(count_indent("\t  \t- Block"), 3);
    assert_eq!(count_indent(" \t - Block"), 1);
    assert_eq!(count_indent("    "), 2);
    assert_eq!(count_indent("\u{a0}\u{a0}- Block"), 0);
}

#[test]
fn bullets_are_stripped_from_the_content() {
    assert_eq!(extract_block_content("  - Hyphen  "), "Hyphen");
    assert_eq!(extract_block_content("* Asterisk"), "Asterisk");
    assert_eq!(extract_block_content("\t+ Plus"), "Plus");
    assert_eq!(extract_block_content("-No space"), "-No space");
    assert_eq!(extract_block_content("- - twice"), "- twice");
    assert_eq!(extract_block_content("-"), "-");
    assert_eq!(extract_block_content("- "), "-");
    assert_eq!(extract_block_content("-  x"), " x");
    assert_eq!(extract_block_content("plain text"), "plain text");
    assert_eq!(extract_block_content("\u{3000}- wide space\u{2003}"), "wide space");
    assert_eq!(extract_block_content("\u{200b}- zero width"), "\u{200b}- zero width");
}

#[test]
fn titles_come_from_paths() {
    assert_eq!(extract_title("a/b/c.md"), "c");
    assert_eq!(extract_title("notes.md.md"), "notes");
    assert_eq!(extract_title("notes.markdown.markdown"), "notes");
    assert_eq!(extract_title("notes.markdown.md"), "notes");
    assert_eq!(extract_title("notes.md.markdown"), "notes.md");
    assert_eq!(extract_title("dir/"), "");
    assert_eq!(extract_title(".md"), "");
    assert_eq!(extract_title("plain"), "plain");
    assert_eq!(extract_title("日本語.md"), "日本語");
}

#[test]
fn children_are_the_run_of_deeper_lines() {
    let content = "- a\n      - deep\n  - shallow\n\n    - under shallow\n- b\n  \n  - under b";
    let page = parse_logseq_page(content, "p.md").unwrap();
    assert_eq!(page.blocks.len(), 2);
    let a = &page.blocks[0];
    assert_eq!(a.content, "a");
    assert_eq!(a.children.len(), 2);
    assert_eq!(a.children[0].content, "deep");
    assert_eq!(a.children[0].level, 3);
    assert!(a.children[0].children.is_empty());
    assert_eq!(a.children[1].content, "shallow");
    assert_eq!(a.children[1].children.len(), 1);
    assert_eq!(a.children[1].children[0].content, "under shallow");
    let b = &page.blocks[1];
    assert_eq!(b.children.len(), 1);
    assert_eq!(b.children[0].content, "under b");
    let ids: Vec<&str> = vec![
        a.id.as_str(),
        a.children[0].id.as_str(),
        a.children[1].id.as_str(),
        a.children[1].children[0].id.as_str(),
        b.id.as_str(),
        b.children[0].id.as_str(),
    ];
    assert_eq!(ids, vec!["block-0", "block-1", "block-2", "block-3", "block-4", "block-5"]);
}

#[test]
fn a_first_line_may_be_indented() {
    let page = parse_logseq_page("    - deep first\n  - less deep\n- top", "p.md").unwrap();
    assert_eq!(page.blocks.len(), 3);
    assert_eq!(page.blocks[0].level, 2);
    assert_eq!(page.blocks[1].level, 1);
    assert_eq!(page.blocks[2].level, 0);
}

#[test]
fn lines_end_at_feeds_and_returns() {
    let page = parse_logseq_page("- one\r\n- two\r- three\n\r\n- four\n", "p.md").unwrap();
    let contents: Vec<&str> = page.blocks.iter().map(|b| b.content.as_str()).collect();
    assert_eq!(contents, vec!["one", "two", "three", "four"]);
}

#[test]
fn tags_and_links_are_found_once_each_in_order() {
    let content = "- #b then #a and [[Two]]\n  - [[One]] #a #c_1 [[Two]]\n- [[Link with [[nested]] link]] #日本語タグ ##x # [[]] [[ ]]";
    let page = parse_logseq_page(content, "p.md").unwrap();
    assert_eq!(page.tags, vec!["b", "a", "c_1", "日本語タグ", "x"]);
    assert_eq!(page.links, vec!["Two", "One", "Link with [[nested", " "]);
}

#[test]
fn pages_without_marks_have_no_tags_and_links() {
    let page = parse_logseq_page("- plain\n- [single] brackets", "p.md").unwrap();
    assert!(page.tags.is_empty());
    assert!(page.links.is_empty());
}

#[test]
fn pages_and_blocks_are_copied_whole() {
    let page = parse_logseq_page("---\nk: v\n---\n- a #t [[l]]\n  - b", "p.md").unwrap();
    let copy: Page = page.clone();
    assert_eq!(copy.path, "p.md");
    assert_eq!(copy.title, "p");
    assert_eq!(copy.tags, vec!["t"]);
    assert_eq!(copy.links, vec!["l"]);
    assert_eq!(copy.properties.get("k"), Some(&"v".to_string()));
    assert_eq!(copy.blocks.len(), 1);
    assert_eq!(copy.blocks[0].children[0].content, "b");
    let mut properties = Properties::new();
    properties.insert("a".to_string(), "1".to_string());
    properties.insert("b".to_string(), "2".to_string());
    properties.insert("a".to_string(), "3".to_string());
    assert_eq!(properties.len(), 2);
    assert_eq!(properties.get("a"), Some(&"3".to_string()));
    assert_eq!(properties.entries()[0], ("a".to_string(), "3".to_string()));
    assert!(!properties.is_empty());
    assert!(properties.clone().contains_key("b"));
}

#[test]
fn blocks_are_built_from_lines() {
    let lines = split_lines(&to_chars("skipped\n- a\n  - b\n\n- c"));
    assert_eq!(lines.len(), 5);
    let blocks = parse_blocks(&lines, 1);
    assert_eq!(blocks.len(), 2);
    assert_eq!(blocks[0].content, "a");
    assert_eq!(blocks[0].children.len(), 1);
    assert_eq!(blocks[1].id, "block-2");
    let mut properties = Properties::new();
    let lines = split_lines(&to_chars("---\na: 1\n---\n- x"));
    assert_eq!(parse_properties(&lines, 1, &mut properties), Ok(2));
    assert_eq!(properties.get("a"), Some(&"1".to_string()));
    let lines = split_lines(&to_chars("---\na: 1"));
    assert_eq!(parse_properties(&lines, 1, &mut properties), Err("Unclosed frontmatter".to_string()));
    let contents = vec!["#one [[two]]".to_string(), "#three".to_string()];
    let mut tags = vec!["three".to_string()];
    let mut links = Vec::new();
    extract_tags_and_links(&contents, &mut tags, &mut links);
    assert_eq!(tags, vec!["three", "one"]);
    assert_eq!(links, vec!["two"]);
    assert_eq!(Graph::default().page_count(), 0);
}
