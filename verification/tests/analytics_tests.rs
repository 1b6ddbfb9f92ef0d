use logseq_publisher::builder::build_graph;
use logseq_publisher::cycles::has_cycle;
use logseq_publisher::dfs::depth_first;
use logseq_publisher::digraph::{breadth_first, find_path, traverse};
use logseq_publisher::errors::PublishError;
use logseq_publisher::graph::Graph;
use logseq_publisher::parser::Page;
use logseq_publisher::properties::Properties;

fn page(path: &str, links: &[&str]) -> Page {
    Page {
        path: path.to_string(),
        title: path.to_string(),
        properties: Properties::new(),
        blocks: Vec::new(),
        tags: Vec::new(),
        links: links.iter().map(|l| l.to_string()).collect(),
    }
}

fn graph_of(pages: &[(&str, &[&str])]) -> Graph {
    let mut graph = Graph::new();
    for (path, links) in pages {
        graph.add_page(page(path, links));
    }
    graph
}

fn chain() -> Graph {
    graph_of(&[("page1", &["page2"]), ("page2", &["page3"]), ("page3", &[])])
}

#[test]
fn breadth_first_search_visits_linked_pages_in_order() {
    let graph = chain();
    assert_eq!(graph.breadth_first_search("page1"), vec!["page1", "page2", "page3"]);
    assert_eq!(graph.breadth_first_search("page3"), vec!["page3"]);
    assert!(graph.breadth_first_search("missing").is_empty());
    assert!(graph.has_edge("page1", "page2"));
    assert!(graph.has_edge("page2", "page3"));
    assert!(!graph.has_edge("page3", "page1"));
    assert!(!graph.has_edge("missing", "page1"));
}

#[test]
fn breadth_first_search_goes_level_by_level() {
    let graph = graph_of(&[
        ("a", &["b", "c"]),
        ("b", &["d"]),
        ("c", &["e", "b"]),
        ("d", &["a"]),
        ("e", &[]),
    ]);
    assert_eq!(graph.breadth_first_search("a"), vec!["a", "b", "c", "d", "e"]);
    assert_eq!(graph.traverse_from("a", 1), vec!["a", "b", "c"]);
    assert_eq!(graph.traverse_from("a", 2), vec!["a", "b", "c", "d", "e"]);
}

#[test]
fn depth_first_search_visits_the_last_link_first() {
    let graph = graph_of(&[
        ("a", &["b", "c"]),
        ("b", &["d"]),
        ("c", &["e", "b"]),
        ("d", &["a"]),
        ("e", &[]),
    ]);
    assert_eq!(graph.depth_first_search("a"), vec!["a", "c", "b", "d", "e"]);
    assert_eq!(chain().depth_first_search("page1").len(), 3);
    assert!(graph.depth_first_search("missing").is_empty());
}

#[test]
fn traversal_skips_links_to_missing_pages() {
    let graph = graph_of(&[("a", &["ghost", "b"]), ("b", &["nowhere"])]);
    assert_eq!(graph.traverse_from("a", 5), vec!["a", "b"]);
    assert_eq!(graph.breadth_first_search("a"), vec!["a", "b"]);
    assert_eq!(graph.depth_first_search("a"), vec!["a", "b"]);
    assert!(graph.traverse_from("ghost", 5).is_empty());
}

#[test]
fn traversal_with_depth_nought_returns_the_start_alone() {
    let graph = chain();
    assert_eq!(graph.traverse_from("page1", 0), vec!["page1"]);
    assert!(graph.traverse_from("missing", 0).is_empty());
}

#[test]
fn traversal_grows_with_the_depth_bound() {
    let mut graph = Graph::new();
    for i in 0..12 {
        let links = [format!("p{}", (i + 1) % 12), format!("p{}", (i * 5) % 12)];
        graph.add_page(page(&format!("p{}", i), &[links[0].as_str(), links[1].as_str()]));
    }
    let all = graph.breadth_first_search("p0");
    let mut last = 0;
    for depth in 0..15 {
        let visited = graph.traverse_from("p0", depth);
        assert!(visited.len() >= last);
        assert!(visited.len() <= all.len());
        assert_eq!(visited[..], all[..visited.len()]);
        last = visited.len();
    }
    assert_eq!(last, all.len());
}

#[test]
fn search_on_a_cycle_visits_each_member_once() {
    let graph = graph_of(&[("a", &["b"]), ("b", &["c"]), ("c", &["d"]), ("d", &["a"]), ("x", &["a"])]);
    assert_eq!(graph.breadth_first_search("a"), vec!["a", "b", "c", "d"]);
    assert_eq!(graph.breadth_first_search("c"), vec!["c", "d", "a", "b"]);
    assert_eq!(graph.depth_first_search("c"), vec!["c", "d", "a", "b"]);
    assert_eq!(graph.traverse_from("b", 100), vec!["b", "c", "d", "a"]);
}

#[test]
fn shortest_path_follows_the_fewest_links() {
    let graph = chain();
    let path = graph.find_shortest_path("page1", "page3").unwrap();
    assert_eq!(path, vec!["page1", "page2", "page3"]);
    assert_eq!(graph.find_shortest_path("page1", "page1").unwrap(), vec!["page1"]);
    assert!(graph.find_shortest_path("page3", "page1").is_none());
    assert!(graph.find_shortest_path("page1", "missing").is_none());
    assert!(graph.find_shortest_path("missing", "page1").is_none());
}

#[test]
fn shortest_path_takes_the_way_that_the_search_finds_first() {
    let graph = graph_of(&[
        ("a", &["b", "c"]),
        ("b", &["d"]),
        ("c", &["d"]),
        ("d", &["e"]),
        ("e", &[]),
        ("f", &["a"]),
    ]);
    assert_eq!(graph.find_shortest_path("a", "e").unwrap(), vec!["a", "b", "d", "e"]);
    assert_eq!(graph.find_shortest_path("c", "e").unwrap(), vec!["c", "d", "e"]);
    assert!(graph.find_shortest_path("a", "f").is_none());
    let long = graph_of(&[("a", &["b", "d"]), ("b", &["c"]), ("c", &["d"]), ("d", &[])]);
    assert_eq!(long.find_shortest_path("a", "d").unwrap(), vec!["a", "d"]);
}

#[test]
fn cycles_are_found() {
    assert!(!chain().has_cycle());
    assert!(!Graph::new().has_cycle());
    assert!(graph_of(&[("a", &["b"]), ("b", &["c"]), ("c", &["a"])]).has_cycle());
    assert!(graph_of(&[("a", &["a"])]).has_cycle());
    assert!(!graph_of(&[("a", &["missing"])]).has_cycle());
    assert!(!graph_of(&[("a", &["b", "c"]), ("b", &["d"]), ("c", &["d"]), ("d", &[])]).has_cycle());
    assert!(graph_of(&[("a", &["b"]), ("b", &[]), ("c", &["d"]), ("d", &["c"])]).has_cycle());
}

#[test]
fn searches_on_numbered_graphs() {
    let adj: Vec<Vec<usize>> = vec![vec![1, 2], vec![3], vec![3, 1], vec![], vec![0]];
    assert_eq!(breadth_first(&adj, 0), vec![0, 1, 2, 3]);
    assert_eq!(traverse(&adj, 0, 0), vec![0]);
    assert_eq!(traverse(&adj, 0, 1), vec![0, 1, 2]);
    assert_eq!(traverse(&adj, 4, 1), vec![4, 0]);
    assert_eq!(traverse(&adj, 4, 7), vec![4, 0, 1, 2, 3]);
    assert_eq!(depth_first(&adj, 0), vec![0, 2, 1, 3]);
    assert_eq!(find_path(&adj, 4, 3), Some(vec![4, 0, 1, 3]));
    assert_eq!(find_path(&adj, 3, 0), None);
    assert!(!has_cycle(&adj));
    let ring: Vec<Vec<usize>> = vec![vec![1], vec![2], vec![0]];
    assert!(has_cycle(&ring));
    assert_eq!(breadth_first(&ring, 1), vec![1, 2, 0]);
}

#[test]
fn orphans_are_the_pages_without_links_and_backlinks() {
    let graph = graph_of(&[("connected", &["other"]), ("other", &[]), ("orphan", &[])]);
    assert_eq!(graph.find_orphan_pages(), vec!["orphan"]);
    assert_eq!(graph.stats().orphan_pages, 1);
}

#[test]
fn scenario_of_three_pages() {
    let graph = graph_of(&[("a", &["b", "c"]), ("b", &["a"])]);
    assert_eq!(graph.get_backlinks("b"), vec!["a"]);
    assert_eq!(graph.get_backlinks("a"), vec!["b"]);
    assert_eq!(graph.get_backlinks("c"), vec!["a"]);
    let apart = graph_of(&[("a", &["b"]), ("b", &["a"]), ("c", &[])]);
    assert_eq!(apart.get_backlinks("b"), vec!["a"]);
    assert_eq!(apart.get_backlinks("a"), vec!["b"]);
    assert!(apart.get_backlinks("c").is_empty());
    assert_eq!(apart.stats().orphan_pages, 1);
}

#[test]
fn backlinks_hold_a_page_once_for_each_of_its_links() {
    let graph = graph_of(&[("a", &["t", "u", "t"]), ("b", &["t"]), ("c", &["u", "u", "u"])]);
    assert_eq!(graph.get_backlinks("t"), vec!["a", "a", "b"]);
    assert_eq!(graph.get_backlinks("u"), vec!["a", "c", "c", "c"]);
    assert_eq!(graph.backlink_count("t"), 3);
    assert!(graph.get_backlinks("a").is_empty());
    assert_eq!(graph.stats().total_links, 7);
}

#[test]
fn a_replaced_page_takes_its_backlinks_with_it() {
    let mut graph = graph_of(&[("a", &["b"]), ("c", &["b"])]);
    assert_eq!(graph.get_backlinks("b"), vec!["a", "c"]);
    graph.add_page(page("a", &["d", "d"]));
    assert_eq!(graph.page_count(), 2);
    assert_eq!(graph.get_backlinks("b"), vec!["c"]);
    assert_eq!(graph.get_backlinks("d"), vec!["a", "a"]);
    let paths: Vec<&str> = graph.pages().iter().map(|p| p.path.as_str()).collect();
    assert_eq!(paths, vec!["a", "c"]);
    assert_eq!(graph.position("c"), Some(1));
    assert_eq!(graph.position("b"), None);
}

#[test]
fn namespaces_group_pages() {
    let graph = graph_of(&[
        ("Category___Page1.md", &[]),
        ("Category___Page2.md", &[]),
        ("Category___Sub___Deep.md", &[]),
        ("Category.md", &[]),
        ("Categories___Other.md", &[]),
        ("project/docs/readme.md", &[]),
    ]);
    assert_eq!(
        graph.get_namespace_pages("Category"),
        vec!["Category___Page1.md", "Category___Page2.md", "Category___Sub___Deep.md"]
    );
    assert_eq!(graph.get_namespace_pages("Category/Sub"), vec!["Category___Sub___Deep.md"]);
    assert_eq!(graph.get_namespace_pages("Category___Sub"), vec!["Category___Sub___Deep.md"]);
    assert_eq!(graph.get_namespace_pages("project/docs"), vec!["project/docs/readme.md"]);
    assert!(graph.get_namespace_pages("docs").is_empty());
}

#[test]
fn pages_are_filtered_by_tag_and_by_visibility() {
    let mut graph = Graph::new();
    for (path, tags, public) in [
        ("rust.md", vec!["rust"], Some("true")),
        ("python.md", vec!["python"], Some("false")),
        ("both.md", vec!["rust", "python"], None),
    ] {
        let mut p = page(path, &[]);
        p.tags = tags.iter().map(|t| t.to_string()).collect();
        if let Some(v) = public {
            p.properties.insert("public".to_string(), v.to_string());
        }
        graph.add_page(p);
    }
    assert_eq!(graph.filter_by_tag("rust"), vec!["rust.md", "both.md"]);
    assert_eq!(graph.filter_by_tag("python"), vec!["python.md", "both.md"]);
    assert!(graph.filter_by_tag("go").is_empty());
    assert_eq!(graph.filter_public_only(), vec!["rust.md"]);
}

#[test]
fn a_graph_is_built_from_files_and_brought_up_to_date() {
    let files = vec![
        ("page1".to_string(), "- Page 1 links to [[page2]]".to_string()),
        ("broken".to_string(), "---\nfoo: bar\n".to_string()),
        ("page2".to_string(), "- Page 2 links to [[page3]]".to_string()),
        ("page3".to_string(), "- Page 3 content".to_string()),
    ];
    let (mut graph, errors) = build_graph(&files);
    assert_eq!(graph.page_count(), 3);
    assert!(graph.get_page("broken").is_none());
    assert_eq!(errors.len(), 1);
    assert!(matches!(&errors[0], PublishError::Parse { file, message }
        if file == "broken" && message == "Unclosed frontmatter"));
    assert!(graph.has_edge("page1", "page2"));

    let changed = vec![
        ("page4".to_string(), "- New page links to [[page1]]".to_string()),
        ("page2".to_string(), "- Page 2 links nowhere now".to_string()),
    ];
    let errors = graph.incremental_update(&changed);
    assert!(errors.is_empty());
    assert_eq!(graph.page_count(), 4);
    assert!(graph.has_edge("page4", "page1"));
    assert!(!graph.has_edge("page2", "page3"));
    assert!(graph.get_backlinks("page3").is_empty());
    assert_eq!(graph.get_backlinks("page1"), vec!["page4"]);
    assert_eq!(graph.get_backlinks("page2"), vec!["page1"]);
    assert_eq!(graph.breadth_first_search("page4"), vec!["page4", "page1", "page2"]);
}

#[test]
fn counts_of_a_graph() {
    let (graph, _) = build_graph(&vec![
        ("a".to_string(), "- one\n  - two\n    - three\n- four [[b]] [[b]] [[c]]".to_string()),
        ("b".to_string(), "".to_string()),
    ]);
    let stats = graph.stats();
    assert_eq!(stats.page_count, 2);
    assert_eq!(stats.total_blocks, 4);
    assert_eq!(stats.total_links, 2);
    assert_eq!(stats.orphan_pages, 0);
    let adj = graph.adjacency_lists();
    assert_eq!(adj, vec![vec![1], vec![]]);
}
