use code_path_lens::model::{
    EdgeKind, LensEdge, LensGraph, LensNode, Limits, NodeKind, ScanSummary,
};
use code_path_lens::render::{dot_escape, html_escape, render_dot, render_html};

fn empty_graph(symbol: &str) -> LensGraph {
    LensGraph {
        schema_version: 1,
        symbol: symbol.into(),
        root: "/tmp".into(),
        approximation_notice: "Static only".into(),
        limits: Limits {
            depth: 2,
            max_nodes: 40,
            truncated: false,
        },
        scanned: ScanSummary::default(),
        nodes: vec![],
        edges: vec![],
        warnings: vec![],
    }
}

fn node(id: &str, label: &str, kind: NodeKind) -> LensNode {
    LensNode {
        id: id.into(),
        label: label.into(),
        kind,
        language: None,
        location: None,
        excerpt: None,
        evidence: "e".into(),
    }
}

#[test]
fn html_has_accessibility_basics_and_safe_title() {
    let graph = empty_graph("<entry>");
    let html = render_html(&graph, "{\"symbol\":\"<entry>\",\"nodes\":[]}");
    assert!(html.contains("<html lang=\"en\""));
    assert_eq!(html.matches("<h1>").count(), 1);
    assert!(html.contains("<main id=\"main\">"));
    assert!(html.contains("&lt;entry&gt;"));
}

#[test]
fn html_embeds_counts_title_and_script_safe_json() {
    let mut graph = empty_graph("a&b");
    graph.nodes.push(node("x", "x", NodeKind::Entry));
    graph.scanned.parsed_files = 7;
    let html = render_html(&graph, "{\"s\":\"</script>\"}");
    assert!(html.contains("<title>a&amp;b \u{2014} Code Path Lens</title>"));
    assert!(html.contains("<h1>a&amp;b</h1>"));
    assert!(html.contains("<strong>1</strong><span>nodes</span>"));
    assert!(html.contains("<strong>0</strong><span>edges</span>"));
    assert!(html.contains("<strong>7</strong><span>parsed files</span>"));
    assert!(html.contains("<strong>2</strong><span>call depth</span>"));
    assert!(html.contains("{\"s\":\"<\\/script>\"}</script>"));
    assert!(html.ends_with("</body></html>"));
}

#[test]
fn escapes_cover_markup_and_dot_strings() {
    assert_eq!(html_escape("<a href='x'>&\"</a>"), "&lt;a href=&#39;x&#39;&gt;&amp;&quot;&lt;/a&gt;");
    assert_eq!(html_escape("&lt;"), "&amp;lt;");
    assert_eq!(dot_escape("a\"b\\c\nd"), "a\\\"b\\\\c\\nd");
}

#[test]
fn dot_lists_nodes_then_edges_with_styles() {
    let mut graph = empty_graph("entry");
    graph.nodes.push(node("a", "entry", NodeKind::Entry));
    graph.nodes.push(node("u", "mystery", NodeKind::Unresolved));
    graph.edges.push(LensEdge {
        from: "a".into(),
        to: "u".into(),
        kind: EdgeKind::UnresolvedCall,
        evidence: "e".into(),
    });
    graph.edges.push(LensEdge {
        from: "a".into(),
        to: "t".into(),
        kind: EdgeKind::UsesType,
        evidence: "e".into(),
    });
    graph.edges.push(LensEdge {
        from: "a".into(),
        to: "b".into(),
        kind: EdgeKind::CalledBy,
        evidence: "e".into(),
    });
    let dot = render_dot(&graph);
    assert_eq!(
        dot,
        "digraph code_path_lens {\n  rankdir=LR;\n  node [shape=box, fontname=\"monospace\"];\n  \"a\" [label=\"entry\\nEntry\"];\n  \"u\" [label=\"mystery\\nUnresolved\"];\n  \"a\" -> \"u\" [label=\"UnresolvedCall\", style=dashed];\n  \"a\" -> \"t\" [label=\"UsesType\", style=dotted];\n  \"a\" -> \"b\" [label=\"CalledBy\", style=solid];\n}\n"
    );
}
