use logseq_publisher::graph::Graph;
use logseq_publisher::optimizer::{minify_css, minify_js, optimize_assets};
use logseq_publisher::parser::{parse_logseq_page, Page};
use logseq_publisher::properties::Properties;
use std::time::{Duration, Instant};

/// Helper function to measure execution time
fn measure_time<F, R>(f: F) -> (R, Duration)
where
    F: FnOnce() -> R,
{
    let start = Instant::now();
    let result = f();
    let duration = start.elapsed();
    (result, duration)
}

fn generate_realistic_page(block_count: usize) -> String {
    let mut content = String::from("# Page Title\n\n");

    for i in 0..block_count {
        let indent = "  ".repeat(i % 3);
        content.push_str(&format!(
            "{}- Block {} with [[Link {}]] and #tag{}\n",
            indent,
            i,
            i % 10,
            i % 5
        ));
    }

    content
}

fn generate_large_css(lines: usize) -> String {
    let mut css = String::new();
    for i in 0..lines {
        css.push_str(&format!(
            ".class{} {{\n  color: #000;\n  margin: 0;\n  padding: 0;\n}}\n",
            i
        ));
    }
    css
}

fn generate_large_js(lines: usize) -> String {
    let mut js = String::new();
    for i in 0..lines {
        js.push_str(&format!(
            "function func{}() {{\n  console.log('test');\n  return {};\n}}\n",
            i, i
        ));
    }
    js
}

#[test]
fn test_graph_traversal_performance() {
    let mut graph = Graph::new();

    // Create a connected graph
    for i in 0..500 {
        let page = Page {
            path: format!("page{}.md", i),
            title: format!("Page {}", i),
            properties: Properties::new(),
            blocks: Vec::new(),
            tags: Vec::new(),
            links: vec![
                format!("page{}.md", (i + 1) % 500),
                format!("page{}.md", (i + 2) % 500),
            ],
        };
        graph.add_page(page);
    }

    let (visited, duration) = measure_time(|| {
        graph.traverse_from("page0.md", 10)
    });

    // Should traverse graph in under 10ms
    assert!(
        duration.as_millis() < 10,
        "Graph traversal took {:?}, expected < 10ms",
        duration
    );

    assert!(!visited.is_empty());
}

#[test]
fn test_backlinks_computation_performance() {
    let mut graph = Graph::new();

    // Create pages with many backlinks
    for i in 0..200 {
        let page = Page {
            path: format!("page{}.md", i),
            title: format!("Page {}", i),
            properties: Properties::new(),
            blocks: Vec::new(),
            tags: Vec::new(),
            links: vec!["target.md".to_string()],
        };
        graph.add_page(page);
    }

    let (backlinks, duration) = measure_time(|| {
        graph.get_backlinks("target.md")
    });

    // Should compute backlinks in under 1ms
    assert!(
        duration.as_micros() < 1000,
        "Backlinks computation took {:?}, expected < 1ms",
        duration
    );

    assert_eq!(backlinks.len(), 200);
}

#[test]
fn test_asset_optimization_performance() {
    let assets: Vec<String> = (0..500)
        .map(|i| format!("assets/image{}.png", i))
        .collect();

    let (result, duration) = measure_time(|| {
        optimize_assets(&assets)
    });

    assert!(result.is_ok());
    // Should optimize 500 assets in under 50ms
    assert!(
        duration.as_millis() < 50,
        "Asset optimization took {:?}, expected < 50ms",
        duration
    );
}

#[test]
fn test_css_minification_performance() {
    let css = generate_large_css(1000);

    let (minified, duration) = measure_time(|| {
        minify_css(&css)
    });

    // Should minify 1000 lines in under 5ms
    assert!(
        duration.as_millis() < 5,
        "CSS minification took {:?}, expected < 5ms",
        duration
    );

    assert!(minified.len() < css.len());
}

#[test]
fn test_js_minification_performance() {
    let js = generate_large_js(1000);

    let (minified, duration) = measure_time(|| {
        minify_js(&js)
    });

    // Should minify 1000 lines in under 5ms
    assert!(
        duration.as_millis() < 5,
        "JS minification took {:?}, expected < 5ms",
        duration
    );

    assert!(minified.len() < js.len());
}

#[test]
fn test_graph_stats_performance() {
    let mut graph = Graph::new();

    for i in 0..500 {
        let content = generate_realistic_page(30);
        let page = parse_logseq_page(&content, &format!("page{}.md", i)).unwrap();
        graph.add_page(page);
    }

    let (stats, duration) = measure_time(|| {
        graph.stats()
    });

    // Should compute stats in under 20ms
    assert!(
        duration.as_millis() < 20,
        "Stats computation took {:?}, expected < 20ms",
        duration
    );

    assert_eq!(stats.page_count, 500);
}

#[test]
fn test_incremental_graph_building_performance() {
    let mut graph = Graph::new();

    let (_, duration) = measure_time(|| {
        for i in 0..100 {
            let content = format!("- Page {} content", i);
            let page = parse_logseq_page(&content, &format!("page{}.md", i)).unwrap();
            graph.add_page(page);
        }
    });

    // Should incrementally build graph in under 50ms
    assert!(
        duration.as_millis() < 50,
        "Incremental building took {:?}, expected < 50ms",
        duration
    );
}
