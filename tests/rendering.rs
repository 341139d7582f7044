use crabviz::dot::{clusters, css_classes_href, escape_html, generate_dot_source, join_strings, process_cell, process_edge};
use crabviz::graph::{Cell, CssClass, CssClasses, Edge, Style, Subgraph, TableNode};
use crabviz::lang::{infer_from_file, may_be_golang, may_be_rust};

fn style(rounded: bool, border: Option<u8>, icon: Option<char>, classes: CssClasses) -> Style {
    Style { rounded, border, icon, classes }
}

#[test]
fn html_escaping() {
    assert_eq!(escape_html("a<b>&\"c\""), "a&lt;b&gt;&amp;&quot;c&quot;");
    assert_eq!(escape_html(""), "");
    assert_eq!(escape_html("plain ü"), "plain ü");
}

#[test]
fn class_links() {
    assert_eq!(css_classes_href(&CssClasses::new()), "");
    let cs = CssClasses::new().with(CssClass::Cell).with(CssClass::Function);
    assert_eq!(css_classes_href(&cs), "href=\"remove_me_url.function.cell\"");
}

#[test]
fn edge_lines() {
    let plain = Edge { from: (1, 2, 3), to: (4, 5, 6), classes: CssClasses::new() };
    assert_eq!(process_edge(&plain), "1:\"2_3\" -> 4:\"5_6\" [id=\"1:2_3 -> 4:5_6\"];");
    let imp = Edge { from: (2, 5, 0), to: (1, 1, 0), classes: CssClasses::new().with(CssClass::Impl) };
    assert_eq!(
        process_edge(&imp),
        "2:\"5_0\" -> 1:\"1_0\" [id=\"2:5_0 -> 1:1_0\", href=\"remove_me_url.impl\"];"
    );
}

#[test]
fn leaf_cell_row() {
    let c = Cell {
        range_start: (3, 1),
        range_end: (3, 4),
        title: "S<T>".to_string(),
        style: style(false, Some(0), Some('S'), CssClasses::new().with(CssClass::Type)),
        children: vec![],
    };
    assert_eq!(
        process_cell(7, &c),
        "     <TR><TD PORT=\"3_1\" ID=\"7:3_1\" BORDER=\"0\"  href=\"remove_me_url.type\"><B>S</B>  S&lt;T&gt;</TD></TR>"
    );
}

#[test]
fn nested_cell_rows() {
    let child = Cell { range_start: (2, 0), range_end: (2, 1), title: "c".to_string(), style: style(true, None, None, CssClasses::new()), children: vec![] };
    let parent = Cell { range_start: (1, 0), range_end: (1, 1), title: "p".to_string(), style: style(true, None, None, CssClasses::new()), children: vec![child] };
    let text = process_cell(1, &parent);
    assert!(text.contains("<TABLE ID=\"1:1_0\""));
    assert!(text.contains("<TR><TD PORT=\"1_0\" BORDER=\"0\" >p</TD></TR>\n     <TR><TD PORT=\"2_0\" ID=\"1:2_0\"  STYLE=\"ROUNDED\" >c</TD></TR>"));
}

#[test]
fn cluster_text() {
    let inner = Subgraph { title: "a".to_string(), nodes: vec!["1".to_string()], subgraphs: vec![] };
    let outer = Subgraph { title: "src".to_string(), nodes: vec!["2".to_string(), "3".to_string()], subgraphs: vec![inner] };
    let text = clusters(&vec![outer]);
    assert!(text.starts_with("\n        subgraph \"cluster_src\" {\n            label = \"src\";\n\n            2 3\n\n            \n        subgraph \"cluster_a\""));
    assert_eq!(join_strings(&vec!["x".to_string(), "y".to_string(), "z".to_string()], ", "), "x, y, z");
}

#[test]
fn whole_source() {
    let t = TableNode { id: 1, title: "a.go".to_string(), sections: vec![] };
    let text = generate_dot_source(&vec![t], &vec![], &vec![]);
    assert!(text.starts_with("\ndigraph {\n    graph ["));
    assert!(text.contains("\"1\" [id=\"1\", label=<"));
    assert!(text.contains("HREF=\"remove_me_url.title\">a.go</TD></TR>"));
    assert!(text.ends_with("\n\n    \n\n    \n}\n"));
}

#[test]
fn language_markers() {
    assert!(may_be_rust("Cargo.toml", Some("toml")));
    assert!(may_be_rust("main.rs", Some("rs")));
    assert!(!may_be_rust("main.go", Some("go")));
    assert!(may_be_golang("go.sum", Some("sum")));
    assert_eq!(infer_from_file("lib.rs", Some("rs")), Some("Rust"));
    assert_eq!(infer_from_file("x.go", Some("go")), Some("Go"));
    assert_eq!(infer_from_file("README", None), None);
}
