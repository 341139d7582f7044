//! The subset of the language-server protocol's data types that the graph is built from.

use vstd::prelude::*;

verus! {

/// A symbol kind.
#[derive(Debug, PartialEq, Eq, Structural, Clone, Copy)]
pub enum SymbolKind {
    File,
    Module,
    Namespace,
    Package,
    Class,
    Method,
    Property,
    Field,
    Constructor,
    Enum,
    Interface,
    Function,
    Variable,
    Constant,
    String,
    Number,
    Boolean,
    Array,
    Object,
    Key,
    Null,
    EnumMember,
    Struct,
    Event,
    Operator,
    TypeParameter,
}

/// A symbol kind that can make calls and so can hold nested functions.
pub open spec fn is_callable(k: SymbolKind) -> bool {
    k == SymbolKind::Function || k == SymbolKind::Method
}

impl SymbolKind {
    pub fn is_callable(&self) -> (r: bool)
        ensures
            r == is_callable(*self),
    {
        match self {
            SymbolKind::Function | SymbolKind::Method => true,
            _ => false,
        }
    }
}

#[derive(Debug, PartialEq, Eq, Structural, Clone, Copy)]
pub enum SymbolTag {
    /// Render a symbol as obsolete, usually using a strike-out.
    Deprecated,
}

/// Position in a text document expressed as zero-based line and character offset.
#[derive(Debug, PartialEq, Eq, Structural, Clone, Copy, Default)]
pub struct Position {
    /// Line position in a document (zero-based).
    pub line: u32,
    /// Character offset on a line in a document (zero-based).
    pub character: u32,
}

/// The order of positions: by line, then by character.
pub open spec fn pos_lt(a: Position, b: Position) -> bool {
    a.line < b.line || (a.line == b.line && a.character < b.character)
}

pub open spec fn pos_le(a: Position, b: Position) -> bool {
    pos_lt(a, b) || a == b
}

impl Position {
    pub fn new(line: u32, character: u32) -> (r: Position)
        ensures
            r.line == line,
            r.character == character,
    {
        Position { line, character }
    }

    /// Whether `self` comes strictly before `other`.
    pub fn before(&self, other: &Position) -> (r: bool)
        ensures
            r == pos_lt(*self, *other),
    {
        self.line < other.line || (self.line == other.line && self.character < other.character)
    }
}

/// A range in a text document expressed as (zero-based) start and end positions.
#[derive(Debug, PartialEq, Eq, Structural, Clone, Copy, Default)]
pub struct Range {
    /// The range's start position.
    pub start: Position,
    /// The range's end position (exclusive).
    pub end: Position,
}


/// A node of a file's symbol outline.
#[derive(Debug)]
pub struct DocumentSymbol {
    /// The name of this symbol.
    pub name: String,
    /// More detail for this symbol, e.g. the signature of a function.
    pub detail: Option<String>,
    /// The kind of this symbol.
    pub kind: SymbolKind,
    /// Tags for this symbol.
    pub tags: Option<Vec<SymbolTag>>,
    /// The range enclosing this symbol.
    pub range: Range,
    /// The range that is selected when the symbol is picked, e.g. its name.
    /// Lies within `range`.
    pub selection_range: Range,
    /// Children of this symbol, e.g. properties of a class.
    pub children: Vec<DocumentSymbol>,
}

/// The resource identifier of a document.
#[derive(Debug)]
pub struct Uri {
    pub path: String,
}

/// A location inside a resource, such as a line inside a text file.
#[derive(Debug)]
pub struct Location {
    pub uri: Uri,
    pub range: Range,
}

/// A link between a source and a target location.
#[derive(Debug)]
pub struct LocationLink {
    /// Span of the origin of this link.
    pub origin_selection_range: Option<Range>,
    /// The target resource identifier of this link.
    pub target_uri: Uri,
    /// The full target range of this link.
    pub target_range: Range,
    /// The span of this link.
    pub target_selection_range: Range,
}

/// A symbol as named by a call hierarchy.
#[derive(Debug)]
pub struct CallHierarchyItem {
    /// The name of this item.
    pub name: String,
    /// The kind of this item.
    pub kind: SymbolKind,
    /// Tags for this item.
    pub tags: Option<Vec<SymbolTag>>,
    /// More detail for this item, e.g. the signature of a function.
    pub detail: Option<String>,
    /// The resource identifier of this item.
    pub uri: Uri,
    /// The range enclosing this symbol.
    pub range: Range,
    /// The range that is selected when the symbol is picked. Lies within `range`.
    pub selection_range: Range,
}

/// An incoming call, e.g. a caller of a method or constructor.
#[derive(Debug)]
pub struct CallHierarchyIncomingCall {
    /// The item that makes the call.
    pub from: CallHierarchyItem,
    /// The ranges at which the calls appear, relative to the caller.
    pub from_ranges: Vec<Range>,
}

/// An outgoing call, e.g. calling a getter from a method.
#[derive(Debug)]
pub struct CallHierarchyOutgoingCall {
    /// The item that is called.
    pub to: CallHierarchyItem,
    /// The ranges at which this item is called, relative to the caller.
    pub from_ranges: Vec<Range>,
}

/// The three shapes in which a server may answer a go-to-implementation query.
#[derive(Debug)]
pub enum GotoImplementationResponse {
    Scalar(Location),
    Array(Vec<Location>),
    Link(Vec<LocationLink>),
}

/// A location reduced to its path and start position.
pub open spec fn loc_view(l: Location) -> (Seq<char>, Position) {
    (l.uri.path@, l.range.start)
}

/// A link taken as a location: its target resource and the start of its target selection.
pub open spec fn link_view(l: LocationLink) -> (Seq<char>, Position) {
    (l.target_uri.path@, l.target_selection_range.start)
}

/// The locations that an answer names, in order.
pub open spec fn implementation_targets(r: GotoImplementationResponse) -> Seq<(Seq<char>, Position)> {
    match r {
        GotoImplementationResponse::Scalar(l) => seq![loc_view(l)],
        GotoImplementationResponse::Array(ls) => ls@.map_values(|l: Location| loc_view(l)),
        GotoImplementationResponse::Link(ls) => ls@.map_values(|l: LocationLink| link_view(l)),
    }
}

/// Brings all three answer shapes to one list of locations; a link stands for
/// its target resource and target selection range.
pub fn normalize_implementations(rsp: GotoImplementationResponse) -> (r: Vec<Location>)
    ensures
        r@.map_values(|l: Location| loc_view(l)) == implementation_targets(rsp),
{
    match rsp {
        GotoImplementationResponse::Scalar(l) => {
            let r = vec![l];
            assert(r@.map_values(|l: Location| loc_view(l)) =~= implementation_targets(rsp));
            r
        },
        GotoImplementationResponse::Array(ls) => ls,
        GotoImplementationResponse::Link(links) => {
            let ghost links_view = links@;
            let mut r: Vec<Location> = Vec::new();
            let mut rest = links;
            while rest.len() > 0
                invariant
                    rest@ == links_view.subrange(r@.len() as int, links_view.len() as int),
                    r@.len() <= links_view.len(),
                    forall|k: int| 0 <= k < r@.len() ==> loc_view(#[trigger] r@[k]) == link_view(links_view[k]),
                decreases rest.len(),
            {
                let link = rest.remove(0);
                r.push(Location { uri: link.target_uri, range: link.target_selection_range });
            }
            assert(r@.map_values(|l: Location| loc_view(l)) =~= implementation_targets(rsp));
            r
        },
    }
}

} // verus!
