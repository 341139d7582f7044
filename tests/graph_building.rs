use crabviz::cluster::subgraphs;
use crabviz::generator::{Graph, GraphGenerator};
use crabviz::graph::{CssClass, Subgraph};
use crabviz::lsp_types::{
    CallHierarchyIncomingCall, CallHierarchyItem, CallHierarchyOutgoingCall, DocumentSymbol, Location,
    Position, Range, SymbolKind, Uri,
};
use crabviz::outline::{try_insert_symbol, FileOutline};

fn pos(line: u32, character: u32) -> Position {
    Position { line, character }
}

fn range(a: (u32, u32), b: (u32, u32)) -> Range {
    Range { start: pos(a.0, a.1), end: pos(b.0, b.1) }
}

fn symbol(name: &str, kind: SymbolKind, r: Range, sel: Range, children: Vec<DocumentSymbol>) -> DocumentSymbol {
    DocumentSymbol {
        name: name.to_string(),
        detail: None,
        kind,
        tags: None,
        range: r,
        selection_range: sel,
        children,
    }
}

fn item(name: &str, path: &str, kind: SymbolKind, r: Range, sel: Range) -> CallHierarchyItem {
    CallHierarchyItem {
        name: name.to_string(),
        kind,
        tags: None,
        detail: None,
        uri: Uri { path: path.to_string() },
        range: r,
        selection_range: sel,
    }
}

fn edge_keys(g: &Graph) -> Vec<((u32, u32, u32), (u32, u32, u32))> {
    g.edges.iter().map(|e| (e.from, e.to)).collect()
}

#[test]
#[allow(deprecated)]
fn nested_function() {
    let mut generator = GraphGenerator::new("abc".to_string(), "");
    let parent_range = Range {
        start: Position { line: 1, character: 3 },
        end: Position { line: 1, character: 10 },
    };
    let child_range = Range {
        start: Position { line: 10, character: 4 },
        end: Position { line: 10, character: 16 },
    };

    generator.add_file(
        "abc".to_string(),
        vec![DocumentSymbol {
            name: "fn_parent".to_string(),
            detail: None,
            kind: SymbolKind::Function,
            tags: None,
            range: parent_range,
            selection_range: parent_range,
            children: vec![DocumentSymbol {
                name: "fn_child".to_string(),
                detail: None,
                kind: SymbolKind::Function,
                tags: None,
                range: child_range,
                selection_range: child_range,
                children: vec![],
            }],
        }],
    );

    let graph = generator.build();
    println!("{:?} {:?}", graph.tables, graph.subgraphs);
    assert_eq!(graph.tables.len(), 1);
    assert_eq!(graph.tables[0].sections[0].title, "fn_parent");
    assert_eq!(graph.tables[0].sections[0].children[0].title, "fn_child");
}

#[test]
fn callee_outside_any_callable_is_not_grafted() {
    let mut g = GraphGenerator::new("/p".to_string(), "");
    let f = symbol("F", SymbolKind::Function, range((3, 0), (5, 1)), range((3, 1), (3, 2)), vec![]);
    assert!(g.add_file("/p/a.go".to_string(), vec![f]));
    let s = symbol("S", SymbolKind::Struct, range((1, 0), (2, 0)), range((1, 5), (1, 6)), vec![]);
    assert!(g.add_file("/p/b.go".to_string(), vec![s]));
    let callee = item("G", "/p/b.go", SymbolKind::Function, range((10, 0), (12, 0)), range((10, 2), (10, 3)));
    g.add_outgoing_calls(
        "/p/a.go".to_string(),
        pos(3, 1),
        vec![CallHierarchyOutgoingCall { to: callee, from_ranges: vec![range((4, 1), (4, 2))] }],
    );
    let graph = g.build();
    assert!(graph.edges.is_empty());
    let b = &graph.tables[1];
    assert_eq!(b.sections.len(), 1);
    assert_eq!(b.sections[0].title, "S");
    assert!(b.sections[0].children.is_empty());
}

#[test]
fn duplicate_implementation_gives_one_edge() {
    let mut g = GraphGenerator::new("/p".to_string(), "");
    let i = symbol("I", SymbolKind::Interface, range((1, 0), (3, 0)), range((1, 0), (1, 1)), vec![]);
    assert!(g.add_file("/p/x".to_string(), vec![i]));
    let t = symbol("T", SymbolKind::Struct, range((5, 0), (9, 0)), range((5, 0), (5, 1)), vec![]);
    assert!(g.add_file("/p/y".to_string(), vec![t]));
    let loc = || Location { uri: Uri { path: "/p/y".to_string() }, range: range((5, 0), (5, 1)) };
    g.add_interface_implementations("/p/x".to_string(), pos(1, 0), vec![loc(), loc()]);
    // the same endpoints once more, as a plain call with no class
    let as_call = item("I", "/p/x", SymbolKind::Interface, range((1, 0), (3, 0)), range((1, 0), (1, 1)));
    g.add_outgoing_calls(
        "/p/y".to_string(),
        pos(5, 0),
        vec![CallHierarchyOutgoingCall { to: as_call, from_ranges: vec![] }],
    );
    let graph = g.build();
    assert_eq!(edge_keys(&graph), vec![((2, 5, 0), (1, 1, 0))]);
    // the call is found before the implementations, so its (empty) style wins
    assert!(graph.edges[0].classes.to_vec().is_empty());
}

#[test]
fn implementation_recorded_twice_keeps_impl_style() {
    let mut g = GraphGenerator::new("/p".to_string(), "");
    let i = symbol("I", SymbolKind::Interface, range((1, 0), (3, 0)), range((1, 0), (1, 1)), vec![]);
    assert!(g.add_file("/p/x".to_string(), vec![i]));
    let t = symbol("T", SymbolKind::Struct, range((5, 0), (9, 0)), range((5, 0), (5, 1)), vec![]);
    assert!(g.add_file("/p/y".to_string(), vec![t]));
    let loc = || Location { uri: Uri { path: "/p/y".to_string() }, range: range((5, 0), (5, 1)) };
    g.add_interface_implementations("/p/x".to_string(), pos(1, 0), vec![loc(), loc()]);
    let graph = g.build();
    assert_eq!(edge_keys(&graph), vec![((2, 5, 0), (1, 1, 0))]);
    assert_eq!(graph.edges[0].classes.to_vec(), vec![CssClass::Impl]);
    assert_eq!((graph.tables[0].id, graph.tables[1].id), (1, 2));
}

#[test]
fn repeated_file_replaces_outline() {
    let mut g = GraphGenerator::new("/p".to_string(), "");
    let a = symbol("A", SymbolKind::Function, range((0, 0), (1, 0)), range((0, 3), (0, 4)), vec![]);
    let b = symbol("B", SymbolKind::Function, range((2, 0), (3, 0)), range((2, 3), (2, 4)), vec![]);
    assert!(g.add_file("/p/one.go".to_string(), vec![a]));
    assert!(g.add_file("/p/two.go".to_string(), vec![]));
    assert!(g.add_file("/p/one.go".to_string(), vec![b]));
    let graph = g.build();
    assert_eq!(graph.tables.len(), 2);
    assert_eq!(graph.tables[0].id, 1);
    assert_eq!(graph.tables[0].sections.len(), 1);
    assert_eq!(graph.tables[0].sections[0].title, "B");
}

#[test]
fn unresolved_callee_drops_only_its_edge() {
    let mut g = GraphGenerator::new("/p".to_string(), "");
    let a = symbol("A", SymbolKind::Function, range((0, 0), (4, 0)), range((0, 3), (0, 4)), vec![]);
    let b = symbol("B", SymbolKind::Function, range((6, 0), (8, 0)), range((6, 3), (6, 4)), vec![]);
    assert!(g.add_file("/p/m.go".to_string(), vec![a, b]));
    let to_b = item("B", "/p/m.go", SymbolKind::Function, range((6, 0), (8, 0)), range((6, 3), (6, 4)));
    let elsewhere = item("Z", "/q/z.go", SymbolKind::Function, range((1, 0), (2, 0)), range((1, 3), (1, 4)));
    g.add_outgoing_calls(
        "/p/m.go".to_string(),
        pos(0, 3),
        vec![
            CallHierarchyOutgoingCall { to: elsewhere, from_ranges: vec![] },
            CallHierarchyOutgoingCall { to: to_b, from_ranges: vec![] },
        ],
    );
    let graph = g.build();
    assert_eq!(edge_keys(&graph), vec![((1, 0, 3), (1, 6, 3))]);
}

#[test]
fn filtered_symbol_has_no_edge_and_self_call_once() {
    let mut g = GraphGenerator::new("/p".to_string(), "");
    let a = symbol("A", SymbolKind::Function, range((0, 0), (4, 0)), range((0, 3), (0, 4)), vec![]);
    let b = symbol("B", SymbolKind::Constant, range((6, 0), (6, 9)), range((6, 6), (6, 7)), vec![]);
    assert!(g.add_file("/p/m.go".to_string(), vec![a, b]));
    let to_b = item("B", "/p/m.go", SymbolKind::Constant, range((6, 0), (6, 9)), range((6, 6), (6, 7)));
    let to_a1 = item("A", "/p/m.go", SymbolKind::Function, range((0, 0), (4, 0)), range((0, 3), (0, 4)));
    let to_a2 = item("A", "/p/m.go", SymbolKind::Function, range((0, 0), (4, 0)), range((0, 3), (0, 4)));
    g.add_outgoing_calls(
        "/p/m.go".to_string(),
        pos(0, 3),
        vec![
            CallHierarchyOutgoingCall { to: to_b, from_ranges: vec![range((1, 1), (1, 2))] },
            CallHierarchyOutgoingCall { to: to_a1, from_ranges: vec![range((2, 1), (2, 2))] },
            CallHierarchyOutgoingCall { to: to_a2, from_ranges: vec![range((3, 1), (3, 2))] },
        ],
    );
    let graph = g.build();
    assert_eq!(edge_keys(&graph), vec![((1, 0, 3), (1, 0, 3))]);
    assert_eq!(graph.tables[0].sections.len(), 1);
}

#[test]
fn caller_nested_in_function_is_grafted() {
    let mut g = GraphGenerator::new("/p".to_string(), "");
    let inner = symbol("inner_old", SymbolKind::Variable, range((6, 0), (7, 0)), range((6, 3), (6, 4)), vec![]);
    let outer = symbol("outer", SymbolKind::Function, range((0, 0), (20, 0)), range((0, 3), (0, 8)), vec![inner]);
    let callee = symbol("callee", SymbolKind::Function, range((22, 0), (25, 0)), range((22, 3), (22, 9)), vec![]);
    assert!(g.add_file("/p/n.rs".to_string(), vec![outer, callee]));
    let caller = item("nested", "/p/n.rs", SymbolKind::Function, range((5, 4), (8, 1)), range((5, 7), (5, 13)));
    g.add_incoming_calls(
        "/p/n.rs".to_string(),
        pos(22, 3),
        vec![CallHierarchyIncomingCall { from: caller, from_ranges: vec![range((7, 1), (7, 2))] }],
    );
    let graph = g.build();
    assert_eq!(edge_keys(&graph), vec![((1, 5, 7), (1, 22, 3))]);
    let t = &graph.tables[0];
    assert_eq!(t.sections[0].title, "outer");
    let nested = &t.sections[0].children[0];
    assert_eq!(nested.title, "nested");
    assert_eq!(nested.range_start, (5, 7));
}

#[test]
fn graft_keeps_ancestor_range_and_order() {
    let early = symbol("early", SymbolKind::Function, range((2, 0), (3, 0)), range((2, 3), (2, 8)), vec![]);
    let demoted = symbol("demoted", SymbolKind::Function, range((6, 0), (7, 0)), range((6, 3), (6, 10)), vec![]);
    let late = symbol("late", SymbolKind::Function, range((12, 0), (13, 0)), range((12, 3), (12, 7)), vec![]);
    let outer = symbol("outer", SymbolKind::Function, range((0, 0), (20, 0)), range((0, 3), (0, 8)), vec![early, demoted, late]);
    let mut file = FileOutline { id: 1, path: "/p/f.rs".to_string(), symbols: vec![outer] };
    let it = item("mid", "/p/f.rs", SymbolKind::Function, range((5, 0), (8, 0)), range((5, 3), (5, 6)));
    assert!(try_insert_symbol(&it, &mut file));
    let outer = &file.symbols[0];
    assert_eq!(outer.range, range((0, 0), (20, 0)));
    let names: Vec<&str> = outer.children.iter().map(|c| c.name.as_str()).collect();
    assert_eq!(names, vec!["early", "mid", "late"]);
    assert_eq!(outer.children[1].children[0].name, "demoted");
    let starts: Vec<Position> = outer.children.iter().map(|c| c.selection_range.start).collect();
    assert!(starts.windows(2).all(|w| (w[0].line, w[0].character) < (w[1].line, w[1].character)));
}

#[test]
fn graft_refused_at_top_level_and_in_non_callable() {
    let class = symbol("C", SymbolKind::Class, range((0, 0), (10, 0)), range((0, 6), (0, 7)), vec![]);
    let mut file = FileOutline { id: 1, path: "/p/c.java".to_string(), symbols: vec![class] };
    let in_class = item("m", "/p/c.java", SymbolKind::Method, range((2, 0), (3, 0)), range((2, 4), (2, 5)));
    assert!(!try_insert_symbol(&in_class, &mut file));
    let top = item("t", "/p/c.java", SymbolKind::Function, range((12, 0), (13, 0)), range((12, 3), (12, 4)));
    assert!(!try_insert_symbol(&top, &mut file));
    assert_eq!(file.symbols.len(), 1);
    assert!(file.symbols[0].children.is_empty());
}

fn same(a: &[Subgraph], b: &[Subgraph]) -> bool {
    a.len() == b.len()
        && a.iter().zip(b).all(|(x, y)| x.title == y.title && x.nodes == y.nodes && same(&x.subgraphs, &y.subgraphs))
}

fn outline(id: u32, path: &str) -> FileOutline {
    FileOutline { id, path: path.to_string(), symbols: vec![] }
}

#[test]
fn clustering_twice_gives_same_tree() {
    let root = "/r".to_string();
    let files = vec![
        outline(1, "/r/src/a/x.go"),
        outline(2, "/r/src/b.go"),
        outline(3, "/r/main.go"),
        outline(4, "/r/src/a/y.go"),
    ];
    let t1 = subgraphs(&root, &files);
    let t2 = subgraphs(&root, &files);
    assert!(same(&t1, &t2));
    // the root's own files cluster under the empty title, and everything nests there
    assert_eq!(t1.len(), 1);
    assert_eq!(t1[0].title, "");
    assert_eq!(t1[0].nodes, vec!["3".to_string()]);
    let src = &t1[0].subgraphs[0];
    assert_eq!(src.title, "src");
    assert_eq!(src.nodes, vec!["2".to_string()]);
    assert_eq!(src.subgraphs[0].title, "a");
    assert_eq!(src.subgraphs[0].nodes, vec!["1".to_string(), "4".to_string()]);
}

#[test]
fn clusters_nest_by_directory() {
    let root = "/r".to_string();
    let files = vec![outline(1, "/r/lib/z/q.rs"), outline(2, "/r/lib/p.rs"), outline(3, "/other/o.rs")];
    let t = subgraphs(&root, &files);
    let titles: Vec<&str> = t.iter().map(|g| g.title.as_str()).collect();
    assert_eq!(titles, vec!["/other", "lib"]);
    assert_eq!(t[1].subgraphs[0].title, "z");
    assert_eq!(t[1].subgraphs[0].nodes, vec!["1".to_string()]);
}

#[test]
fn highlight_marks_cell() {
    let mut g = GraphGenerator::new("/p".to_string(), "Go");
    let f = symbol("F", SymbolKind::Function, range((0, 0), (2, 0)), range((0, 5), (0, 6)), vec![]);
    assert!(g.add_file("/p/h.go".to_string(), vec![]));
    // a repeated path replaces the outline and keeps the id
    assert!(g.add_file("/p/h.go".to_string(), vec![f]));
    assert!(!g.add_file("/p/h_test.go".to_string(), vec![]));
    g.highlight("/p/h.go".to_string(), pos(0, 5));
    g.highlight("/p/none.go".to_string(), pos(0, 5));
    let graph = g.build();
    let classes = graph.tables[0].sections[0].style.classes;
    assert!(classes.contains(CssClass::Highlight));
    assert!(classes.contains(CssClass::Function));
    assert_eq!(graph.tables[0].title, "h.go");
}
