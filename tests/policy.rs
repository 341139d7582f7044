use crabviz::cluster::id_text;
use crabviz::config::Config;
use crabviz::graph::{Cell, CssClass, CssClasses, Style, TableNode};
use crabviz::lang::{
    all_functions, all_interfaces, file_repr, language_handler, symbol_style, Entry, Lang, Language,
};
use crabviz::lsp_types::{DocumentSymbol, Position, Range, SymbolKind};
use crabviz::outline::FileOutline;
use crabviz::text::{path_extension, path_file_name, path_join, path_parent};

fn sym(name: &str, kind: SymbolKind, line: u32, children: Vec<DocumentSymbol>) -> DocumentSymbol {
    let r = Range { start: Position { line, character: 0 }, end: Position { line: line + 1, character: 0 } };
    DocumentSymbol { name: name.to_string(), detail: None, kind, tags: None, range: r, selection_range: r, children }
}

#[test]
fn languages_by_name() {
    assert!(matches!(language_handler("Go"), Lang::Go(_)));
    assert!(matches!(language_handler("Rust"), Lang::Rust(_)));
    assert!(matches!(language_handler("go"), Lang::Default(_)));
    let go = language_handler("Go");
    assert!(go.should_filter_out_file("/a/b_test.go"));
    assert!(!go.should_filter_out_file("/a/b.go"));
    assert!(!language_handler("").should_filter_out_file("/a/b_test.go"));
}

#[test]
fn rust_policy_drops_tests_module() {
    let rust = language_handler("Rust");
    assert!(!rust.filter_symbol(&sym("tests", SymbolKind::Module, 0, vec![])));
    assert!(rust.filter_symbol(&sym("other", SymbolKind::Module, 0, vec![])));
    assert!(rust.filter_symbol(&sym("v", SymbolKind::Variable, 0, vec![])));
    assert!(!rust.filter_symbol(&sym("F", SymbolKind::Field, 0, vec![])));
    let default = language_handler("");
    assert!(!default.filter_symbol(&sym("v", SymbolKind::Variable, 0, vec![])));
}

#[test]
fn table_keeps_interface_children() {
    let iface = sym("I", SymbolKind::Interface, 0, vec![sym("p", SymbolKind::Property, 1, vec![])]);
    let class = sym("C", SymbolKind::Class, 5, vec![sym("f", SymbolKind::Field, 6, vec![]), sym("m", SymbolKind::Method, 7, vec![])]);
    let k = sym("K", SymbolKind::Constant, 9, vec![]);
    let file = FileOutline { id: 4, path: "/src/t.java".to_string(), symbols: vec![iface, class, k] };
    let t = file_repr(&language_handler(""), &vec![], &file);
    assert_eq!(t.id, 4);
    assert_eq!(t.title, "t.java");
    assert_eq!(t.sections.len(), 2);
    assert_eq!(t.sections[0].children.len(), 1);
    assert_eq!(t.sections[1].children.len(), 1);
    assert_eq!(t.sections[1].children[0].title, "m");
    assert_eq!(t.sections[1].style.icon, Some('C'));
    assert_eq!(t.sections[0].style.border, Some(0));
}

#[test]
fn styles_by_kind() {
    let s = symbol_style(&sym("f", SymbolKind::Function, 0, vec![]));
    assert!(s.rounded);
    assert_eq!(s.classes.to_vec(), vec![CssClass::Function, CssClass::Clickable, CssClass::Cell]);
    let e = symbol_style(&sym("E", SymbolKind::Enum, 0, vec![]));
    assert!(!e.rounded);
    assert_eq!(e.icon, Some('E'));
    assert_eq!(e.classes.to_vec(), vec![CssClass::Type, CssClass::Cell]);
    let other = symbol_style(&sym("x", SymbolKind::Null, 0, vec![]));
    assert_eq!(other.classes.to_vec(), vec![CssClass::Cell]);
    assert_eq!(CssClass::Impl.to_str(), "impl");
    assert_eq!(CssClass::Highlight.to_str(), "highlight");
    assert!(CssClasses::new().to_vec().is_empty());
}

#[test]
fn qualifying_symbols() {
    let file = FileOutline {
        id: 1,
        path: "/a.go".to_string(),
        symbols: vec![
            sym("f", SymbolKind::Function, 0, vec![sym("inner", SymbolKind::Function, 1, vec![])]),
            sym("I", SymbolKind::Interface, 3, vec![]),
            sym("m", SymbolKind::Method, 5, vec![]),
            sym("S", SymbolKind::Struct, 7, vec![]),
        ],
    };
    let fs: Vec<&str> = all_functions(&file).iter().map(|s| s.name.as_str()).collect();
    assert_eq!(fs, vec!["f", "m"]);
    let is: Vec<&str> = all_interfaces(&file).iter().map(|s| s.name.as_str()).collect();
    assert_eq!(is, vec!["I"]);
}

#[test]
fn entry_filters_paths() {
    let e = Entry::new("/proj", vec!["go".to_string()], &["vendor", "/abs"]);
    assert_eq!(e.roots, vec!["/proj".to_string()]);
    assert_eq!(e.exclude, vec!["/proj/vendor".to_string(), "/abs".to_string()]);
    assert!(e.admits("/proj"));
    assert!(e.admits("/proj/src/a.go"));
    assert!(!e.admits("/proj/vendor"));
    assert!(!e.admits("/projx/a.go"));
    assert!(e.has_extension("/proj/a.go"));
    assert!(!e.has_extension("/proj/a.rs"));
    assert!(!e.has_extension("/proj/.go"));
}

#[test]
fn path_parts() {
    assert_eq!(path_file_name("/a/b/c.rs"), "c.rs");
    assert_eq!(path_file_name("c.rs"), "c.rs");
    assert_eq!(path_parent("/a/b/c.rs"), "/a/b");
    assert_eq!(path_parent("c.rs"), "");
    assert_eq!(path_extension("/a/b.tar.gz"), "gz");
    assert_eq!(path_extension("/a/.bashrc"), "");
    assert_eq!(path_extension("/a/Makefile"), "");
    assert_eq!(path_join("/a/", "b"), "/a/b");
    assert_eq!(path_join("/a", "b"), "/a/b");
    assert_eq!(id_text(0), "0");
    assert_eq!(id_text(4021), "4021");
}

#[test]
fn config_lookup() {
    let c = Config::default();
    assert_eq!(c.server_path("rust"), Some("path/to/lsp_server".to_string()));
    assert_eq!(c.server_path("go"), None);
}

#[test]
fn path_ids_are_stable() {
    let mut m = crabviz::generator::PathMap::new();
    assert_eq!(m.insert("/a".to_string()), Some(1));
    assert_eq!(m.insert("/b".to_string()), Some(2));
    assert_eq!(m.insert("/a".to_string()), Some(1));
    assert_eq!(m.get("/b"), Some(2));
    assert_eq!(m.get("/c"), None);
}

#[test]
fn highlight_nested_cells() {
    let plain = Style { rounded: true, border: None, icon: None, classes: CssClasses::new() };
    let inner = Cell { range_start: (2, 1), range_end: (2, 3), title: "i".to_string(), style: plain, children: vec![] };
    let outer = Cell { range_start: (1, 0), range_end: (1, 3), title: "o".to_string(), style: plain, children: vec![inner] };
    let mut t = TableNode { id: 1, title: "t".to_string(), sections: vec![outer] };
    t.highlight_cells(&vec![(2, 1)]);
    assert!(!t.sections[0].style.classes.contains(CssClass::Highlight));
    assert!(t.sections[0].children[0].style.classes.contains(CssClass::Highlight));
}
