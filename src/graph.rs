//! The renderer-agnostic graph: tables of cells, edges between cells, and
//! directory clusters.

use vstd::prelude::*;

verus! {

/// A presentation class of a cell or an edge.
#[derive(Debug, PartialEq, Eq, Structural, Clone, Copy)]
pub enum CssClass {
    Module,
    Interface,
    Function,
    Method,
    Constructor,
    Property,
    Type,
    Impl,
    Clickable,
    Highlight,
    Cell,
}

/// The position of a class in the declaration order.
pub open spec fn class_index(c: CssClass) -> u16 {
    match c {
        CssClass::Module => 0,
        CssClass::Interface => 1,
        CssClass::Function => 2,
        CssClass::Method => 3,
        CssClass::Constructor => 4,
        CssClass::Property => 5,
        CssClass::Type => 6,
        CssClass::Impl => 7,
        CssClass::Clickable => 8,
        CssClass::Highlight => 9,
        CssClass::Cell => 10,
    }
}

pub open spec fn class_name(c: CssClass) -> Seq<char> {
    match c {
        CssClass::Module => "module"@,
        CssClass::Interface => "interface"@,
        CssClass::Type => "type"@,
        CssClass::Function => "function"@,
        CssClass::Method => "method"@,
        CssClass::Constructor => "constructor"@,
        CssClass::Property => "property"@,
        CssClass::Impl => "impl"@,
        CssClass::Clickable => "clickable"@,
        CssClass::Highlight => "highlight"@,
        CssClass::Cell => "cell"@,
    }
}

impl CssClass {
    pub fn index(&self) -> (r: u16)
        ensures
            r == class_index(*self),
            r < 11,
    {
        match self {
            CssClass::Module => 0,
            CssClass::Interface => 1,
            CssClass::Function => 2,
            CssClass::Method => 3,
            CssClass::Constructor => 4,
            CssClass::Property => 5,
            CssClass::Type => 6,
            CssClass::Impl => 7,
            CssClass::Clickable => 8,
            CssClass::Highlight => 9,
            CssClass::Cell => 10,
        }
    }

    /// The class at a position of the declaration order.
    pub fn from_index(i: u16) -> (r: CssClass)
        requires
            i < 11,
        ensures
            class_index(r) == i,
    {
        if i == 0 {
            CssClass::Module
        } else if i == 1 {
            CssClass::Interface
        } else if i == 2 {
            CssClass::Function
        } else if i == 3 {
            CssClass::Method
        } else if i == 4 {
            CssClass::Constructor
        } else if i == 5 {
            CssClass::Property
        } else if i == 6 {
            CssClass::Type
        } else if i == 7 {
            CssClass::Impl
        } else if i == 8 {
            CssClass::Clickable
        } else if i == 9 {
            CssClass::Highlight
        } else {
            CssClass::Cell
        }
    }

    /// The name under which a renderer knows the class.
    pub fn to_str(&self) -> (r: &'static str)
        ensures
            r@ == class_name(*self),
    {
        match self {
            CssClass::Module => "module",
            CssClass::Interface => "interface",
            CssClass::Type => "type",
            CssClass::Function => "function",
            CssClass::Method => "method",
            CssClass::Constructor => "constructor",
            CssClass::Property => "property",
            CssClass::Impl => "impl",
            CssClass::Clickable => "clickable",
            CssClass::Highlight => "highlight",
            CssClass::Cell => "cell",
        }
    }
}

proof fn lemma_class_index_injective(a: CssClass, b: CssClass)
    ensures
        class_index(a) == class_index(b) ==> a == b,
{
}

/// A set of classes, one bit per class.
#[derive(Debug, PartialEq, Eq, Structural, Clone, Copy)]
pub struct CssClasses {
    bits: u16,
}

pub open spec fn has_bit(bits: u16, i: u16) -> bool {
    bits & (1u16 << i) != 0
}

impl View for CssClasses {
    type V = Set<CssClass>;

    closed spec fn view(&self) -> Set<CssClass> {
        Set::new(|c: CssClass| has_bit(self.bits, class_index(c)))
    }
}

proof fn lemma_bit_or(a: u16, i: u16, j: u16)
    requires
        i < 16,
        j < 16,
    ensures
        has_bit(a | (1u16 << i), j) == (has_bit(a, j) || i == j),
{
    assert((a | (1u16 << i)) & (1u16 << j) != 0 <==> (a & (1u16 << j) != 0 || i == j)) by (bit_vector)
        requires
            i < 16,
            j < 16,
    ;
}

proof fn lemma_bit_zero(j: u16)
    requires
        j < 16,
    ensures
        !has_bit(0u16, j),
{
    assert(0u16 & (1u16 << j) == 0) by (bit_vector);
}

impl CssClasses {
    pub fn new() -> (r: CssClasses)
        ensures
            r@ == Set::<CssClass>::empty(),
    {
        let r = CssClasses { bits: 0 };
        proof {
            assert forall|c: CssClass| !r@.contains(c) by {
                lemma_bit_zero(class_index(c));
            }
        }
        assert(r@ =~= Set::<CssClass>::empty());
        r
    }

    pub fn contains(&self, c: CssClass) -> (r: bool)
        ensures
            r == self@.contains(c),
    {
        let i = c.index();
        self.bits & (1u16 << i) != 0
    }

    pub fn insert(&mut self, c: CssClass)
        ensures
            final(self)@ == old(self)@.insert(c),
    {
        let i = c.index();
        let ghost old_bits = self.bits;
        self.bits = self.bits | (1u16 << i);
        proof {
            assert forall|d: CssClass| final(self)@.contains(d) == old(self)@.insert(c).contains(d) by {
                lemma_bit_or(old_bits, i, class_index(d));
                lemma_class_index_injective(c, d);
            }
            assert(final(self)@ =~= old(self)@.insert(c));
        }
    }

    /// The set with `c` added.
    pub fn with(self, c: CssClass) -> (r: CssClasses)
        ensures
            r@ == self@.insert(c),
    {
        let mut r = self;
        r.insert(c);
        r
    }

    /// The classes of the set in declaration order.
    pub fn to_vec(&self) -> (r: Vec<CssClass>)
        ensures
            r@ == class_seq(*self),
    {
        let mut r: Vec<CssClass> = Vec::new();
        let mut i: u16 = 0;
        assert(all_classes().subrange(0, 0) =~= Seq::<CssClass>::empty());
        while i < 11
            invariant
                i <= 11,
                r@ == pick(all_classes().subrange(0, i as int), self@),
            decreases 11 - i,
        {
            let c = CssClass::from_index(i);
            proof {
                lemma_all_classes_index();
                lemma_class_index_injective(c, all_classes()[i as int]);
                let cur = all_classes().subrange(0, i + 1);
                assert(cur.drop_last() =~= all_classes().subrange(0, i as int));
                assert(cur.last() == c);
            }
            if self.contains(c) {
                r.push(c);
            }
            i = i + 1;
        }
        assert(all_classes().subrange(0, 11) =~= all_classes());
        r
    }
}

/// Every class, in declaration order.
pub open spec fn all_classes() -> Seq<CssClass> {
    seq![
        CssClass::Module,
        CssClass::Interface,
        CssClass::Function,
        CssClass::Method,
        CssClass::Constructor,
        CssClass::Property,
        CssClass::Type,
        CssClass::Impl,
        CssClass::Clickable,
        CssClass::Highlight,
        CssClass::Cell,
    ]
}

proof fn lemma_all_classes_index()
    ensures
        all_classes().len() == 11,
        forall|i: int| 0 <= i < 11 ==> class_index(#[trigger] all_classes()[i]) == i,
{
}

/// The classes of `s` that are in `set`, in the order of `s`.
pub open spec fn pick(s: Seq<CssClass>, set: Set<CssClass>) -> Seq<CssClass>
    decreases s.len(),
{
    if s.len() == 0 {
        s
    } else {
        let r = pick(s.drop_last(), set);
        if set.contains(s.last()) {
            r.push(s.last())
        } else {
            r
        }
    }
}

/// The classes of a set in declaration order.
pub open spec fn class_seq(cs: CssClasses) -> Seq<CssClass> {
    pick(all_classes(), cs@)
}

/// How a cell is drawn.
#[derive(Debug, PartialEq, Eq, Structural, Clone, Copy)]
pub struct Style {
    pub rounded: bool,
    pub border: Option<u8>,
    pub icon: Option<char>,
    pub classes: CssClasses,
}

/// One retained symbol of a file, with the symbols nested in it.
#[derive(Debug)]
pub struct Cell {
    pub range_start: (u32, u32),
    pub range_end: (u32, u32),
    pub title: String,
    pub style: Style,
    pub children: Vec<Cell>,
}

/// `new` is the cell `old` with the highlight class added to it and to each
/// cell nested in it whose start is among `lit`; nothing else changes.
pub open spec fn lit_cell(old: Cell, new: Cell, lit: Set<(u32, u32)>) -> bool
    decreases old,
{
    &&& new.range_start == old.range_start
    &&& new.range_end == old.range_end
    &&& new.title == old.title
    &&& new.style.rounded == old.style.rounded
    &&& new.style.border == old.style.border
    &&& new.style.icon == old.style.icon
    &&& new.style.classes@ == if lit.contains(old.range_start) {
        old.style.classes@.insert(CssClass::Highlight)
    } else {
        old.style.classes@
    }
    &&& new.children@.len() == old.children@.len()
    &&& forall|k: int| 0 <= k < old.children@.len() ==> lit_cell(#[trigger] old.children@[k], new.children@[k], lit)
}

fn has_position(cells: &Vec<(u32, u32)>, p: (u32, u32)) -> (r: bool)
    ensures
        r == cells@.contains(p),
{
    let mut i: usize = 0;
    while i < cells.len()
        invariant
            i <= cells@.len(),
            forall|k: int| 0 <= k < i ==> cells@[k] != p,
        decreases cells@.len() - i,
    {
        if cells[i].0 == p.0 && cells[i].1 == p.1 {
            assert(cells@[i as int] == p);
            return true;
        }
        i = i + 1;
    }
    false
}

impl Cell {
    /// Adds the highlight class to this cell and the cells nested in it whose
    /// start is among `cells`.
    pub fn highlight(&mut self, cells: &Vec<(u32, u32)>)
        ensures
            lit_cell(*old(self), *final(self), cells@.to_set()),
        decreases old(self).children@,
    {
        if has_position(cells, self.range_start) {
            self.style.classes.insert(CssClass::Highlight);
        }
        let n = self.children.len();
        let ghost kids = self.children@;
        assert(kids == old(self).children@);
        let mut k: usize = 0;
        while k < n
            invariant
                n == kids.len(),
                k <= n,
                self.children@.len() == n,
                kids == old(self).children@,
                self.range_start == old(self).range_start,
                self.range_end == old(self).range_end,
                self.title == old(self).title,
                self.style.rounded == old(self).style.rounded,
                self.style.border == old(self).style.border,
                self.style.icon == old(self).style.icon,
                self.style.classes@ == if cells@.to_set().contains(old(self).range_start) {
                    old(self).style.classes@.insert(CssClass::Highlight)
                } else {
                    old(self).style.classes@
                },
                forall|m: int| 0 <= m < k ==> lit_cell(#[trigger] kids[m], self.children@[m], cells@.to_set()),
                forall|m: int| k <= m < n ==> self.children@[m] == kids[m],
            decreases n - k,
        {
            let mut c = self.children.remove(k);
            proof {
                assert(c == kids[k as int]);
                assert(decreases_to!(old(self).children@ => c.children@));
            }
            c.highlight(cells);
            let ghost before = self.children@;
            self.children.insert(k, c);
            proof {
                assert forall|m: int| k + 1 <= m < n implies self.children@[m] == kids[m] by {
                    assert(self.children@[m] == before[m - 1]);
                }
                assert forall|m: int| 0 <= m < k + 1 implies lit_cell(#[trigger] kids[m], self.children@[m], cells@.to_set()) by {
                    if m < k {
                        assert(self.children@[m] == before[m]);
                    }
                }
            }
            k = k + 1;
        }
    }
}

/// One file: its id, its title, and the cells of its top-level symbols.
#[derive(Debug)]
pub struct TableNode {
    pub id: u32,
    pub title: String,
    pub sections: Vec<Cell>,
}

impl TableNode {
    /// Adds the highlight class to the cells, at any depth, whose start is among `cells`.
    pub fn highlight_cells(&mut self, cells: &Vec<(u32, u32)>)
        ensures
            final(self).id == old(self).id,
            final(self).title == old(self).title,
            final(self).sections@.len() == old(self).sections@.len(),
            forall|k: int| 0 <= k < old(self).sections@.len() ==> lit_cell(
                #[trigger] old(self).sections@[k],
                final(self).sections@[k],
                cells@.to_set(),
            ),
    {
        let n = self.sections.len();
        let ghost secs = self.sections@;
        let mut k: usize = 0;
        while k < n
            invariant
                n == secs.len(),
                k <= n,
                secs == old(self).sections@,
                self.id == old(self).id,
                self.title == old(self).title,
                self.sections@.len() == n,
                forall|m: int| 0 <= m < k ==> lit_cell(#[trigger] secs[m], self.sections@[m], cells@.to_set()),
                forall|m: int| k <= m < n ==> self.sections@[m] == secs[m],
            decreases n - k,
        {
            let mut c = self.sections.remove(k);
            c.highlight(cells);
            let ghost before = self.sections@;
            self.sections.insert(k, c);
            proof {
                assert forall|m: int| k + 1 <= m < n implies self.sections@[m] == secs[m] by {
                    assert(self.sections@[m] == before[m - 1]);
                }
                assert forall|m: int| 0 <= m < k + 1 implies lit_cell(#[trigger] secs[m], self.sections@[m], cells@.to_set()) by {
                    if m < k {
                        assert(self.sections@[m] == before[m]);
                    }
                }
            }
            k = k + 1;
        }
    }
}

/// A directory cluster: its title, the ids of the tables of its files, and the
/// clusters of its subdirectories.
#[derive(Debug)]
pub struct Subgraph {
    pub title: String,
    pub nodes: Vec<String>,
    pub subgraphs: Vec<Subgraph>,
}

/// A cell address: table id, line and character of the symbol's selection start.
pub type CellId = (u32, u32, u32);

/// An edge between two cells. Two edges are equal when their endpoints are,
/// whatever their classes.
#[derive(Debug, Clone, Copy)]
pub struct Edge {
    pub from: CellId,
    pub to: CellId,
    pub classes: CssClasses,
}

/// Whether two cell addresses are the same.
pub fn same_cell(a: &CellId, b: &CellId) -> (r: bool)
    ensures
        r == (*a == *b),
{
    a.0 == b.0 && a.1 == b.1 && a.2 == b.2
}

impl PartialEq for Edge {
    fn eq(&self, other: &Edge) -> (r: bool) {
        same_cell(&self.from, &other.from) && same_cell(&self.to, &other.to)
    }
}

impl vstd::std_specs::cmp::PartialEqSpecImpl for Edge {
    open spec fn obeys_eq_spec() -> bool {
        true
    }

    open spec fn eq_spec(&self, other: &Edge) -> bool {
        self.from == other.from && self.to == other.to
    }
}

impl Eq for Edge {}

} // verus!
