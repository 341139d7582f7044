//! Source-language policy: which symbols are drawn, how, and which files are skipped.

use vstd::prelude::*;
use crate::graph::{Cell, CssClass, CssClasses, Style, TableNode};
use crate::lsp_types::{DocumentSymbol, SymbolKind};
use crate::outline::FileOutline;
use crate::cluster::{is_under, under};
use crate::text::{ends_with, extension, file_name, join, path_extension, path_file_name, path_join, str_ends_with, str_eq};

verus! {

/// What a style is for each kind: rounded, border, icon, classes.
pub open spec fn style_for(k: SymbolKind) -> (bool, Option<u8>, Option<char>, Set<CssClass>) {
    match k {
        SymbolKind::Module => (true, None, None, set![CssClass::Cell, CssClass::Module]),
        SymbolKind::Function => (true, None, None, set![CssClass::Cell, CssClass::Function, CssClass::Clickable]),
        SymbolKind::Method => (true, None, None, set![CssClass::Cell, CssClass::Method, CssClass::Clickable]),
        SymbolKind::Constructor => (true, None, None, set![CssClass::Cell, CssClass::Constructor, CssClass::Clickable]),
        SymbolKind::Interface => (true, Some(0u8), None, set![CssClass::Cell, CssClass::Interface, CssClass::Clickable]),
        SymbolKind::Enum => (false, None, Some('E'), set![CssClass::Cell, CssClass::Type]),
        SymbolKind::Struct => (false, None, Some('S'), set![CssClass::Cell, CssClass::Type]),
        SymbolKind::Class => (false, None, Some('C'), set![CssClass::Cell, CssClass::Type]),
        SymbolKind::Property => (false, None, Some('p'), set![CssClass::Cell, CssClass::Property]),
        _ => (true, None, None, set![CssClass::Cell]),
    }
}

pub open spec fn style_matches(st: Style, k: SymbolKind) -> bool {
    (st.rounded, st.border, st.icon, st.classes@) == style_for(k)
}

/// The style of kind `k`, with the highlight class added where `lit`.
pub open spec fn style_lit(st: Style, k: SymbolKind, lit: bool) -> bool {
    let (rounded, border, icon, classes) = style_for(k);
    &&& st.rounded == rounded
    &&& st.border == border
    &&& st.icon == icon
    &&& st.classes@ == if lit { classes.insert(CssClass::Highlight) } else { classes }
}

/// Whether a position is among the highlighted ones.
pub fn is_lit(hl: &Vec<(u32, u32)>, p: (u32, u32)) -> (r: bool)
    ensures
        r == hl@.contains(p),
{
    let mut i: usize = 0;
    while i < hl.len()
        invariant
            i <= hl@.len(),
            forall|k: int| 0 <= k < i ==> hl@[k] != p,
        decreases hl@.len() - i,
    {
        if hl[i].0 == p.0 && hl[i].1 == p.1 {
            assert(hl@[i as int] == p);
            return true;
        }
        i = i + 1;
    }
    false
}

/// The kinds that no language draws by default.
pub open spec fn default_keeps(k: SymbolKind) -> bool {
    !(k == SymbolKind::Constant || k == SymbolKind::Variable || k == SymbolKind::Field
        || k == SymbolKind::Property || k == SymbolKind::EnumMember)
}

pub open spec fn rust_keeps(k: SymbolKind, name: Seq<char>) -> bool {
    !(k == SymbolKind::Constant || k == SymbolKind::Field || k == SymbolKind::EnumMember)
        && !(k == SymbolKind::Module && name == "tests"@)
}

/// A source language's decisions on symbols and files.
pub trait Language {
    /// Whether a symbol of this kind and name is drawn.
    spec fn keeps(&self, kind: SymbolKind, name: Seq<char>) -> bool;

    /// Whether a file is left out of the analysis.
    spec fn skips_file(&self, path: Seq<char>) -> bool;

    fn filter_symbol(&self, symbol: &DocumentSymbol) -> (r: bool)
        ensures
            r == self.keeps(symbol.kind, symbol.name@),
    ;

    fn should_filter_out_file(&self, file: &str) -> (r: bool)
        ensures
            r == self.skips_file(file@),
    ;
}

/// The style of a symbol's cell.
pub fn symbol_style(symbol: &DocumentSymbol) -> (r: Style)
    ensures
        style_matches(r, symbol.kind),
{
    let cell = CssClasses::new().with(CssClass::Cell);
    let (rounded, border, icon, classes) = match symbol.kind {
        SymbolKind::Module => (true, None, None, cell.with(CssClass::Module)),
        SymbolKind::Function => (true, None, None, cell.with(CssClass::Function).with(CssClass::Clickable)),
        SymbolKind::Method => (true, None, None, cell.with(CssClass::Method).with(CssClass::Clickable)),
        SymbolKind::Constructor => (true, None, None, cell.with(CssClass::Constructor).with(CssClass::Clickable)),
        SymbolKind::Interface => (true, Some(0u8), None, cell.with(CssClass::Interface).with(CssClass::Clickable)),
        SymbolKind::Enum => (false, None, Some('E'), cell.with(CssClass::Type)),
        SymbolKind::Struct => (false, None, Some('S'), cell.with(CssClass::Type)),
        SymbolKind::Class => (false, None, Some('C'), cell.with(CssClass::Type)),
        SymbolKind::Property => (false, None, Some('p'), cell.with(CssClass::Property)),
        _ => (true, None, None, cell),
    };
    let r = Style { rounded, border, icon, classes };
    assert(r.classes@ =~= style_for(symbol.kind).3);
    r
}

fn default_filter_symbol(symbol: &DocumentSymbol) -> (r: bool)
    ensures
        r == default_keeps(symbol.kind),
{
    match symbol.kind {
        SymbolKind::Constant | SymbolKind::Variable | SymbolKind::Field | SymbolKind::Property
        | SymbolKind::EnumMember => false,
        _ => true,
    }
}

/// The policy of a language with no rules of its own.
pub struct DefaultLang;

impl Language for DefaultLang {
    open spec fn keeps(&self, kind: SymbolKind, name: Seq<char>) -> bool {
        default_keeps(kind)
    }

    open spec fn skips_file(&self, path: Seq<char>) -> bool {
        false
    }

    fn filter_symbol(&self, symbol: &DocumentSymbol) -> (r: bool) {
        default_filter_symbol(symbol)
    }

    fn should_filter_out_file(&self, file: &str) -> (r: bool) {
        false
    }
}

/// Go: test files are skipped.
pub struct Go;

impl Language for Go {
    open spec fn keeps(&self, kind: SymbolKind, name: Seq<char>) -> bool {
        default_keeps(kind)
    }

    open spec fn skips_file(&self, path: Seq<char>) -> bool {
        ends_with(path, "_test.go"@)
    }

    fn filter_symbol(&self, symbol: &DocumentSymbol) -> (r: bool) {
        default_filter_symbol(symbol)
    }

    fn should_filter_out_file(&self, file: &str) -> (r: bool) {
        str_ends_with(file, "_test.go")
    }
}

/// Rust: constants, fields, enum members and `tests` modules are not drawn.
pub struct Rust;

impl Language for Rust {
    open spec fn keeps(&self, kind: SymbolKind, name: Seq<char>) -> bool {
        rust_keeps(kind, name)
    }

    open spec fn skips_file(&self, path: Seq<char>) -> bool {
        false
    }

    fn filter_symbol(&self, symbol: &DocumentSymbol) -> (r: bool) {
        match symbol.kind {
            SymbolKind::Constant | SymbolKind::Field | SymbolKind::EnumMember => false,
            SymbolKind::Module => !str_eq(symbol.name.as_str(), "tests"),
            _ => true,
        }
    }

    fn should_filter_out_file(&self, file: &str) -> (r: bool) {
        false
    }
}

/// The policy chosen for an analysis.
pub enum Lang {
    Default(DefaultLang),
    Go(Go),
    Rust(Rust),
}

impl Language for Lang {
    open spec fn keeps(&self, kind: SymbolKind, name: Seq<char>) -> bool {
        match self {
            Lang::Default(l) => l.keeps(kind, name),
            Lang::Go(l) => l.keeps(kind, name),
            Lang::Rust(l) => l.keeps(kind, name),
        }
    }

    open spec fn skips_file(&self, path: Seq<char>) -> bool {
        match self {
            Lang::Default(l) => l.skips_file(path),
            Lang::Go(l) => l.skips_file(path),
            Lang::Rust(l) => l.skips_file(path),
        }
    }

    fn filter_symbol(&self, symbol: &DocumentSymbol) -> (r: bool) {
        match self {
            Lang::Default(l) => l.filter_symbol(symbol),
            Lang::Go(l) => l.filter_symbol(symbol),
            Lang::Rust(l) => l.filter_symbol(symbol),
        }
    }

    fn should_filter_out_file(&self, file: &str) -> (r: bool) {
        match self {
            Lang::Default(l) => l.should_filter_out_file(file),
            Lang::Go(l) => l.should_filter_out_file(file),
            Lang::Rust(l) => l.should_filter_out_file(file),
        }
    }
}

/// The policy for a language name: "Go", "Rust", or the default for any other.
pub open spec fn language_handler_spec(lang: Seq<char>) -> Lang {
    if lang == "Go"@ {
        Lang::Go(Go)
    } else if lang == "Rust"@ {
        Lang::Rust(Rust)
    } else {
        Lang::Default(DefaultLang)
    }
}

pub fn language_handler(lang: &str) -> (r: Lang)
    ensures
        r == language_handler_spec(lang@),
{
    proof {
        reveal_strlit("Go");
        reveal_strlit("Rust");
        assert("Go"@.len() != "Rust"@.len());
    }
    if str_eq(lang, "Go") {
        Lang::Go(Go)
    } else if str_eq(lang, "Rust") {
        Lang::Rust(Rust)
    } else {
        Lang::Default(DefaultLang)
    }
}

/// `cs` are the cells of those of `ds` that are drawn (all of them where `all`), in order.
pub open spec fn represents_seq<L: Language>(
    lang: L,
    hl: Set<(u32, u32)>,
    ds: Seq<DocumentSymbol>,
    cs: Seq<Cell>,
    all: bool,
) -> bool
    decreases ds, 0int,
{
    if ds.len() == 0 {
        cs.len() == 0
    } else {
        let d = ds.last();
        if all || lang.keeps(d.kind, d.name@) {
            &&& cs.len() > 0
            &&& represents_seq(lang, hl, ds.drop_last(), cs.drop_last(), all)
            &&& represents(lang, hl, d, cs.last())
        } else {
            represents_seq(lang, hl, ds.drop_last(), cs, all)
        }
    }
}

/// `c` is the cell of symbol `d`: its selection range, name and style (lit where
/// its selection start is among `hl`), and the cells of its drawn children (all
/// children of an interface).
pub open spec fn represents<L: Language>(lang: L, hl: Set<(u32, u32)>, d: DocumentSymbol, c: Cell) -> bool
    decreases d, 1int,
{
    &&& c.range_start == (d.selection_range.start.line, d.selection_range.start.character)
    &&& c.range_end == (d.selection_range.end.line, d.selection_range.end.character)
    &&& c.title == d.name
    &&& style_lit(c.style, d.kind, hl.contains(c.range_start))
    &&& represents_seq(lang, hl, d.children@, c.children@, d.kind == SymbolKind::Interface)
}

/// The cell of a symbol, with the cells of its drawn children.
pub fn symbol_repr<L: Language>(lang: &L, hl: &Vec<(u32, u32)>, symbol: &DocumentSymbol) -> (c: Cell)
    ensures
        represents(*lang, hl@.to_set(), *symbol, c),
    decreases symbol,
{
    let all = symbol.kind == SymbolKind::Interface;
    let mut children: Vec<Cell> = Vec::new();
    let n = symbol.children.len();
    let mut i: usize = 0;
    assert(symbol.children@.subrange(0, 0) =~= Seq::<DocumentSymbol>::empty());
    while i < n
        invariant
            n == symbol.children@.len(),
            i <= n,
            represents_seq(*lang, hl@.to_set(), symbol.children@.subrange(0, i as int), children@, all),
        decreases n - i,
    {
        let child = &symbol.children[i];
        let ghost pre = children@;
        assert(symbol.children@.subrange(0, i + 1).drop_last() =~= symbol.children@.subrange(0, i as int));
        if all || lang.filter_symbol(child) {
            let c = symbol_repr(lang, hl, child);
            children.push(c);
            assert(children@.drop_last() =~= pre);
        }
        i = i + 1;
    }
    assert(symbol.children@.subrange(0, n as int) =~= symbol.children@);
    let range = symbol.selection_range;
    let start = (range.start.line, range.start.character);
    let mut style = symbol_style(symbol);
    if is_lit(hl, start) {
        style.classes.insert(CssClass::Highlight);
    }
    Cell {
        range_start: start,
        range_end: (range.end.line, range.end.character),
        title: symbol.name.clone(),
        style,
        children,
    }
}

/// `t` is the table of file `f`: its id, the last component of its path, and the
/// cells of its drawn top-level symbols, lit at the positions `hl`.
pub open spec fn table_of<L: Language>(lang: L, hl: Set<(u32, u32)>, f: FileOutline, t: TableNode) -> bool {
    &&& t.id == f.id
    &&& t.title@ == file_name(f.path@)
    &&& represents_seq(lang, hl, f.symbols@, t.sections@, false)
}

/// The table of a file, with the cells at the positions `hl` lit.
pub fn file_repr<L: Language>(lang: &L, hl: &Vec<(u32, u32)>, file: &FileOutline) -> (t: TableNode)
    ensures
        table_of(*lang, hl@.to_set(), *file, t),
{
    let mut sections: Vec<Cell> = Vec::new();
    let n = file.symbols.len();
    let mut i: usize = 0;
    assert(file.symbols@.subrange(0, 0) =~= Seq::<DocumentSymbol>::empty());
    while i < n
        invariant
            n == file.symbols@.len(),
            i <= n,
            represents_seq(*lang, hl@.to_set(), file.symbols@.subrange(0, i as int), sections@, false),
        decreases n - i,
    {
        let symbol = &file.symbols[i];
        let ghost pre = sections@;
        assert(file.symbols@.subrange(0, i + 1).drop_last() =~= file.symbols@.subrange(0, i as int));
        if lang.filter_symbol(symbol) {
            let c = symbol_repr(lang, hl, symbol);
            sections.push(c);
            assert(sections@.drop_last() =~= pre);
        }
        i = i + 1;
    }
    assert(file.symbols@.subrange(0, n as int) =~= file.symbols@);
    TableNode { id: file.id, title: path_file_name(file.path.as_str()), sections }
}

/// The top-level symbols of `s` whose kind is callable (or an interface, where
/// `interfaces`), in order.
pub open spec fn qualifying(s: Seq<DocumentSymbol>, interfaces: bool) -> Seq<DocumentSymbol>
    decreases s.len(),
{
    if s.len() == 0 {
        s
    } else {
        let r = qualifying(s.drop_last(), interfaces);
        let k = s.last().kind;
        if (interfaces && k == SymbolKind::Interface) || (!interfaces && crate::lsp_types::is_callable(k)) {
            r.push(s.last())
        } else {
            r
        }
    }
}

fn select<'a>(outline: &'a FileOutline, interfaces: bool) -> (r: Vec<&'a DocumentSymbol>)
    ensures
        r@.len() == qualifying(outline.symbols@, interfaces).len(),
        forall|k: int| 0 <= k < r@.len() ==> *r@[k] == qualifying(outline.symbols@, interfaces)[k],
{
    let mut r: Vec<&'a DocumentSymbol> = Vec::new();
    let n = outline.symbols.len();
    let mut i: usize = 0;
    assert(outline.symbols@.subrange(0, 0) =~= Seq::<DocumentSymbol>::empty());
    while i < n
        invariant
            n == outline.symbols@.len(),
            i <= n,
            r@.len() == qualifying(outline.symbols@.subrange(0, i as int), interfaces).len(),
            forall|k: int| 0 <= k < r@.len() ==> *r@[k] == qualifying(outline.symbols@.subrange(0, i as int), interfaces)[k],
        decreases n - i,
    {
        let d = &outline.symbols[i];
        let ghost cur = outline.symbols@.subrange(0, i + 1);
        assert(cur.drop_last() =~= outline.symbols@.subrange(0, i as int));
        assert(cur.last() == *d);
        let take = if interfaces {
            d.kind == SymbolKind::Interface
        } else {
            d.kind.is_callable()
        };
        if take {
            r.push(d);
        }
        i = i + 1;
    }
    assert(outline.symbols@.subrange(0, n as int) =~= outline.symbols@);
    r
}

/// The top-level functions and methods of a file: those that an outgoing-call
/// query is issued for.
pub fn all_functions<'a>(outline: &'a FileOutline) -> (r: Vec<&'a DocumentSymbol>)
    ensures
        r@.len() == qualifying(outline.symbols@, false).len(),
        forall|k: int| 0 <= k < r@.len() ==> *r@[k] == qualifying(outline.symbols@, false)[k],
{
    select(outline, false)
}

/// The top-level interfaces of a file: those that an implementation query is
/// issued for.
pub fn all_interfaces<'a>(outline: &'a FileOutline) -> (r: Vec<&'a DocumentSymbol>)
    ensures
        r@.len() == qualifying(outline.symbols@, true).len(),
        forall|k: int| 0 <= k < r@.len() ==> *r@[k] == qualifying(outline.symbols@, true)[k],
{
    select(outline, true)
}

/// Which files of a project are analysed: those below one of its root directories,
/// outside every excluded one, with one of the extensions.
pub struct Entry {
    pub extensions: Vec<String>,
    pub roots: Vec<String>,
    pub exclude: Vec<String>,
}

pub open spec fn texts_of(v: Seq<String>) -> Seq<Seq<char>> {
    v.map_values(|s: String| s@)
}

impl Entry {
    /// The entry for a project at `base`: all of it, but the directories
    /// `exclude` (relative to `base`).
    pub fn new(base: &str, extensions: Vec<String>, exclude: &[&str]) -> (r: Entry)
        ensures
            r.extensions == extensions,
            texts_of(r.roots@) == seq![base@],
            r.exclude@.len() == exclude@.len(),
            forall|k: int| 0 <= k < exclude@.len() ==> (#[trigger] r.exclude@[k])@ == join(base@, exclude@[k]@),
    {
        let mut ex: Vec<String> = Vec::new();
        let mut i: usize = 0;
        while i < exclude.len()
            invariant
                i <= exclude@.len(),
                ex@.len() == i,
                forall|k: int| 0 <= k < i ==> (#[trigger] ex@[k])@ == join(base@, exclude@[k]@),
            decreases exclude@.len() - i,
        {
            ex.push(path_join(base, exclude[i]));
            i = i + 1;
        }
        let roots = vec![base.to_string()];
        assert(texts_of(roots@) =~= seq![base@]);
        Entry { extensions, roots, exclude: ex }
    }

    /// Whether the walk enters (or keeps) this path: it is no excluded
    /// directory, and lies below a root directory.
    pub fn admits(&self, path: &str) -> (r: bool)
        ensures
            r == ((forall|k: int| 0 <= k < self.exclude@.len() ==> (#[trigger] self.exclude@[k])@ != path@)
                && exists|k: int| 0 <= k < self.roots@.len() && under(path@, (#[trigger] self.roots@[k])@)),
    {
        let mut i: usize = 0;
        while i < self.exclude.len()
            invariant
                i <= self.exclude@.len(),
                forall|k: int| 0 <= k < i ==> (#[trigger] self.exclude@[k])@ != path@,
            decreases self.exclude@.len() - i,
        {
            if str_eq(self.exclude[i].as_str(), path) {
                return false;
            }
            i = i + 1;
        }
        let mut j: usize = 0;
        while j < self.roots.len()
            invariant
                j <= self.roots@.len(),
                forall|k: int| 0 <= k < self.exclude@.len() ==> (#[trigger] self.exclude@[k])@ != path@,
                forall|k: int| 0 <= k < j ==> !under(path@, (#[trigger] self.roots@[k])@),
            decreases self.roots@.len() - j,
        {
            if is_under(path, self.roots[j].as_str()) {
                return true;
            }
            j = j + 1;
        }
        false
    }

    /// Whether a file has one of the analysed extensions.
    pub fn has_extension(&self, path: &str) -> (r: bool)
        ensures
            r == exists|k: int| 0 <= k < self.extensions@.len() && (#[trigger] self.extensions@[k])@ == extension(path@),
    {
        let ext = path_extension(path);
        let mut i: usize = 0;
        while i < self.extensions.len()
            invariant
                i <= self.extensions@.len(),
                ext@ == extension(path@),
                forall|k: int| 0 <= k < i ==> (#[trigger] self.extensions@[k])@ != extension(path@),
            decreases self.extensions@.len() - i,
        {
            if str_eq(self.extensions[i].as_str(), ext.as_str()) {
                return true;
            }
            i = i + 1;
        }
        false
    }
}

/// A file that marks a Rust project: its `Cargo.toml` or a Rust source.
pub fn may_be_rust(file_name: &str, extension: Option<&str>) -> (r: bool)
    ensures
        r == (file_name@ == "Cargo.toml"@ || (extension matches Some(e) && e@ == "rs"@)),
{
    str_eq(file_name, "Cargo.toml") || match extension {
        Some(e) => str_eq(e, "rs"),
        None => false,
    }
}

/// A file that marks a Go project: its checksum file or a Go source.
pub fn may_be_golang(file_name: &str, extension: Option<&str>) -> (r: bool)
    ensures
        r == (file_name@ == "go.sum"@ || (extension matches Some(e) && e@ == "go"@)),
{
    str_eq(file_name, "go.sum") || match extension {
        Some(e) => str_eq(e, "go"),
        None => false,
    }
}

/// The language that a file of a project's top directory suggests, by the
/// names `language_handler` knows.
pub fn infer_from_file(file_name: &str, extension: Option<&str>) -> (r: Option<&'static str>)
    ensures
        (file_name@ == "Cargo.toml"@ || (extension matches Some(e) && e@ == "rs"@)) ==> r == Some("Rust"),
        !(file_name@ == "Cargo.toml"@ || (extension matches Some(e) && e@ == "rs"@))
            && (file_name@ == "go.sum"@ || (extension matches Some(e) && e@ == "go"@)) ==> r == Some("Go"),
        !(file_name@ == "Cargo.toml"@ || (extension matches Some(e) && e@ == "rs"@))
            && !(file_name@ == "go.sum"@ || (extension matches Some(e) && e@ == "go"@)) ==> r is None,
{
    if may_be_rust(file_name, extension) {
        Some("Rust")
    } else if may_be_golang(file_name, extension) {
        Some("Go")
    } else {
        None
    }
}

/// The files a language analyses below `base`: Rust sources outside `target`,
/// Go sources; none for a language with no rules of its own.
pub fn entry_for(lang: &Lang, base: &str) -> (r: Entry)
    ensures
        texts_of(r.roots@) == seq![base@],
        lang is Rust ==> texts_of(r.extensions@) == seq!["rs"@] && r.exclude@.len() == 1
            && r.exclude@[0]@ == join(base@, "target"@),
        lang is Go ==> texts_of(r.extensions@) == seq!["go"@] && r.exclude@.len() == 0,
        lang is Default ==> r.extensions@.len() == 0 && r.exclude@.len() == 0,
{
    match lang {
        Lang::Rust(_) => {
            let ext = vec!["rs".to_string()];
            let r = Entry::new(base, ext, &["target"]);
            assert(texts_of(r.extensions@) =~= seq!["rs"@]);
            r
        },
        Lang::Go(_) => {
            let ext = vec!["go".to_string()];
            let r = Entry::new(base, ext, &[]);
            assert(texts_of(r.extensions@) =~= seq!["go"@]);
            r
        },
        Lang::Default(_) => Entry::new(base, Vec::new(), &[]),
    }
}

} // verus!
