//! Per-file symbol outlines and their repair: grafting nested functions that a
//! server leaves out of an outline but names as call-hierarchy endpoints.

use vstd::prelude::*;
use crate::lsp_types::{
    is_callable, pos_le, pos_lt, CallHierarchyItem, DocumentSymbol, Position, SymbolTag,
};

verus! {

/// The position by which siblings of an outline are ordered: the start of the selection range.
pub open spec fn key(s: DocumentSymbol) -> Position {
    s.selection_range.start
}

/// Siblings strictly increasing by selection-range start.
pub open spec fn sorted_level(s: Seq<DocumentSymbol>) -> bool {
    forall|a: int, b: int| 0 <= a < b < s.len() ==> pos_lt(#[trigger] key(s[a]), #[trigger] key(s[b]))
}

/// Every level of the outline is strictly increasing by selection-range start.
pub open spec fn sorted_tree(s: Seq<DocumentSymbol>) -> bool
    decreases s,
{
    &&& sorted_level(s)
    &&& forall|k: int| 0 <= k < s.len() ==> sorted_tree(#[trigger] s[k].children@)
}

/// `i` is where a symbol keyed at `p` would stand among `s`: everything before it
/// is keyed earlier, everything from it on later.
pub open spec fn split_at(s: Seq<DocumentSymbol>, i: int, p: Position) -> bool {
    &&& 0 <= i <= s.len()
    &&& forall|k: int| 0 <= k < i ==> pos_lt(#[trigger] key(s[k]), p)
    &&& forall|k: int| i <= k < s.len() ==> pos_lt(p, #[trigger] key(s[k]))
}

/// `outer`'s range strictly contains `item`'s range.
pub open spec fn encloses(outer: DocumentSymbol, item: CallHierarchyItem) -> bool {
    pos_le(outer.range.start, item.range.start) && pos_lt(item.range.end, outer.range.end)
}

/// The sibling at the insertion point lies strictly inside the new node's range,
/// so it moves one level down, under the new node.
pub open spec fn demotes(next: DocumentSymbol, item: CallHierarchyItem) -> bool {
    pos_lt(item.range.start, next.range.start) && pos_lt(next.range.end, item.range.end)
}

pub open spec fn tags_view(t: Option<Vec<SymbolTag>>) -> Option<Seq<SymbolTag>> {
    match t {
        Some(v) => Some(v@),
        None => None,
    }
}

/// `n` is the node made from the call-hierarchy item: same name, detail, kind,
/// tags and ranges.
pub open spec fn synthesized(n: DocumentSymbol, item: CallHierarchyItem) -> bool {
    &&& n.name == item.name
    &&& n.detail == item.detail
    &&& n.kind == item.kind
    &&& tags_view(n.tags) == tags_view(item.tags)
    &&& n.range == item.range
    &&& n.selection_range == item.selection_range
}

/// `a` and `b` agree in everything but their children.
pub open spec fn same_but_children(a: DocumentSymbol, b: DocumentSymbol) -> bool {
    &&& a.name == b.name
    &&& a.detail == b.detail
    &&& a.kind == b.kind
    &&& a.tags == b.tags
    &&& a.range == b.range
    &&& a.selection_range == b.selection_range
}

/// Whether grafting `item` into the siblings `s` succeeds. It descends into the
/// symbol just before the insertion point while that symbol strictly contains
/// the item, refuses a container that is not callable, never grafts at the level
/// it started on unless `nested`, and never grafts where a sibling already
/// starts at the item's selection start.
pub open spec fn graft_happens(s: Seq<DocumentSymbol>, item: CallHierarchyItem, nested: bool) -> bool
    decreases s,
{
    let p = item.selection_range.start;
    if exists|i: int| split_at(s, i, p) {
        let i = choose|i: int| split_at(s, i, p);
        if i > 0 && encloses(s[i - 1], item) {
            is_callable(s[i - 1].kind) && graft_happens(s[i - 1].children@, item, true)
        } else {
            nested
        }
    } else {
        false
    }
}

/// `new` is `old` with `item` grafted as `graft_happens` describes (where it
/// does happen).
pub open spec fn graft_result(
    old: Seq<DocumentSymbol>,
    new: Seq<DocumentSymbol>,
    item: CallHierarchyItem,
    nested: bool,
) -> bool
    decreases old,
{
    let p = item.selection_range.start;
    if !exists|i: int| split_at(old, i, p) {
        false
    } else {
        let i = choose|i: int| split_at(old, i, p);
        if i > 0 && encloses(old[i - 1], item) {
            &&& new.len() == old.len()
            &&& forall|k: int| 0 <= k < old.len() && k != i - 1 ==> new[k] == old[k]
            &&& same_but_children(new[i - 1], old[i - 1])
            &&& graft_result(old[i - 1].children@, new[i - 1].children@, item, true)
        } else if i < old.len() && demotes(old[i], item) {
            &&& new.len() == old.len()
            &&& forall|k: int| 0 <= k < old.len() && k != i ==> new[k] == old[k]
            &&& synthesized(new[i], item)
            &&& new[i].children@ == seq![old[i]]
        } else {
            &&& new.len() == old.len() + 1
            &&& forall|k: int| 0 <= k < i ==> new[k] == old[k]
            &&& forall|k: int| i < k < new.len() ==> new[k] == old[k - 1]
            &&& synthesized(new[i], item)
            &&& new[i].children@.len() == 0
        }
    }
}

/// Along the path that a graft descends, every ancestor keeps its range and
/// selection range, and still strictly contains the grafted item.
pub open spec fn ancestors_kept(
    old: Seq<DocumentSymbol>,
    new: Seq<DocumentSymbol>,
    item: CallHierarchyItem,
) -> bool
    decreases old,
{
    let p = item.selection_range.start;
    if !exists|i: int| split_at(old, i, p) {
        true
    } else {
        let i = choose|i: int| split_at(old, i, p);
        if i > 0 && encloses(old[i - 1], item) {
            &&& new[i - 1].range == old[i - 1].range
            &&& new[i - 1].selection_range == old[i - 1].selection_range
            &&& encloses(new[i - 1], item)
            &&& ancestors_kept(old[i - 1].children@, new[i - 1].children@, item)
        } else {
            true
        }
    }
}

proof fn lemma_sorted_singleton(d: DocumentSymbol)
    requires
        sorted_tree(d.children@),
    ensures
        sorted_tree(seq![d]),
{
    let s = seq![d];
    assert(s[0] == d);
}

/// Grafting a nested function keeps every level of the outline strictly
/// increasing by selection-range start, and changes the range of no ancestor
/// of the grafted node.
pub proof fn lemma_graft_keeps_order_and_ranges(
    old: Seq<DocumentSymbol>,
    new: Seq<DocumentSymbol>,
    item: CallHierarchyItem,
    nested: bool,
)
    requires
        sorted_tree(old),
        graft_happens(old, item, nested),
        graft_result(old, new, item, nested),
    ensures
        sorted_tree(new),
        ancestors_kept(old, new, item),
    decreases old,
{
    let p = item.selection_range.start;
    let i = choose|i: int| split_at(old, i, p);
    if i > 0 && encloses(old[i - 1], item) {
        assert(sorted_tree(old[i - 1].children@));
        lemma_graft_keeps_order_and_ranges(old[i - 1].children@, new[i - 1].children@, item, true);
        assert forall|a: int, b: int| 0 <= a < b < new.len() implies pos_lt(
            #[trigger] key(new[a]),
            #[trigger] key(new[b]),
        ) by {
            assert(key(new[a]) == key(old[a]));
            assert(key(new[b]) == key(old[b]));
        }
        assert forall|k: int| 0 <= k < new.len() implies sorted_tree(#[trigger] new[k].children@) by {
            if k != i - 1 {
                assert(new[k] == old[k]);
            }
        }
    } else if i < old.len() && demotes(old[i], item) {
        assert(sorted_tree(old[i].children@));
        lemma_sorted_singleton(old[i]);
        assert forall|a: int, b: int| 0 <= a < b < new.len() implies pos_lt(
            #[trigger] key(new[a]),
            #[trigger] key(new[b]),
        ) by {
            if a == i {
                assert(pos_lt(p, key(old[b])));
            } else if b == i {
                assert(pos_lt(key(old[a]), p));
            } else {
                assert(key(new[a]) == key(old[a]));
                assert(key(new[b]) == key(old[b]));
            }
        }
        assert forall|k: int| 0 <= k < new.len() implies sorted_tree(#[trigger] new[k].children@) by {
            if k != i {
                assert(new[k] == old[k]);
            }
        }
    } else {
        assert(sorted_tree(new[i].children@)) by {
            assert(new[i].children@ =~= Seq::<DocumentSymbol>::empty());
        }
        assert forall|a: int, b: int| 0 <= a < b < new.len() implies pos_lt(
            #[trigger] key(new[a]),
            #[trigger] key(new[b]),
        ) by {
            if a == i {
                assert(new[b] == old[b - 1]);
                assert(pos_lt(p, key(old[b - 1])));
            } else if b == i {
                assert(new[a] == old[a]);
                assert(pos_lt(key(old[a]), p));
            } else if b < i {
                assert(new[a] == old[a]);
                assert(new[b] == old[b]);
            } else if a < i {
                assert(new[a] == old[a]);
                assert(new[b] == old[b - 1]);
                assert(pos_lt(key(old[a]), p));
                assert(pos_lt(p, key(old[b - 1])));
            } else {
                assert(new[a] == old[a - 1]);
                assert(new[b] == old[b - 1]);
            }
        }
        assert forall|k: int| 0 <= k < new.len() implies sorted_tree(#[trigger] new[k].children@) by {
            if k < i {
                assert(new[k] == old[k]);
            } else if k > i {
                assert(new[k] == old[k - 1]);
            }
        }
    }
}

proof fn lemma_split_unique(s: Seq<DocumentSymbol>, i: int, j: int, p: Position)
    requires
        split_at(s, i, p),
        split_at(s, j, p),
    ensures
        i == j,
{
    if i < j {
        assert(pos_lt(key(s[i]), p));
        assert(pos_lt(p, key(s[i])));
    } else if j < i {
        assert(pos_lt(key(s[j]), p));
        assert(pos_lt(p, key(s[j])));
    }
}

/// Binary search of the siblings by selection-range start.
fn search_key(s: &Vec<DocumentSymbol>, p: Position) -> (r: Result<usize, usize>)
    requires
        sorted_level(s@),
    ensures
        match r {
            Ok(k) => k < s@.len() && key(s@[k as int]) == p,
            Err(i) => split_at(s@, i as int, p),
        },
{
    let mut lo: usize = 0;
    let mut hi: usize = s.len();
    while lo < hi
        invariant
            lo <= hi <= s@.len(),
            sorted_level(s@),
            forall|k: int| 0 <= k < lo ==> pos_lt(#[trigger] key(s@[k]), p),
            forall|k: int| hi <= k < s@.len() ==> pos_lt(p, #[trigger] key(s@[k])),
        decreases hi - lo,
    {
        let mid = lo + (hi - lo) / 2;
        let k = s[mid].selection_range.start;
        if k.before(&p) {
            assert forall|j: int| 0 <= j < mid + 1 implies pos_lt(#[trigger] key(s@[j]), p) by {
                if j < mid {
                    assert(pos_lt(key(s@[j]), key(s@[mid as int])));
                }
            }
            lo = mid + 1;
        } else if p.before(&k) {
            assert forall|j: int| mid <= j < s@.len() implies pos_lt(p, #[trigger] key(s@[j])) by {
                if j > mid {
                    assert(pos_lt(key(s@[mid as int]), key(s@[j])));
                }
            }
            hi = mid;
        } else {
            return Ok(mid);
        }
    }
    Err(lo)
}

fn clone_detail(d: &Option<String>) -> (r: Option<String>)
    ensures
        r == *d,
{
    match d {
        Some(s) => Some(s.clone()),
        None => None,
    }
}

fn clone_tags(t: &Option<Vec<SymbolTag>>) -> (r: Option<Vec<SymbolTag>>)
    ensures
        tags_view(r) == tags_view(*t),
{
    match t {
        Some(v) => {
            let mut out: Vec<SymbolTag> = Vec::new();
            let mut i: usize = 0;
            while i < v.len()
                invariant
                    i <= v@.len(),
                    out@ == v@.subrange(0, i as int),
                decreases v@.len() - i,
            {
                out.push(v[i]);
                i = i + 1;
            }
            assert(out@ =~= v@);
            Some(out)
        },
        None => None,
    }
}

/// A new outline node standing for a call-hierarchy item.
fn synthesize(item: &CallHierarchyItem, children: Vec<DocumentSymbol>) -> (n: DocumentSymbol)
    ensures
        synthesized(n, *item),
        n.children == children,
{
    DocumentSymbol {
        name: item.name.clone(),
        detail: clone_detail(&item.detail),
        kind: item.kind,
        tags: clone_tags(&item.tags),
        range: item.range,
        selection_range: item.selection_range,
        children,
    }
}

/// Whether `item` can be grafted into the siblings `symbols` (see `graft_happens`).
pub fn can_graft(symbols: &Vec<DocumentSymbol>, item: &CallHierarchyItem, nested: bool) -> (r: bool)
    requires
        sorted_tree(symbols@),
    ensures
        r == graft_happens(symbols@, *item, nested),
    decreases symbols@,
{
    let ghost s0 = symbols@;
    let p = item.selection_range.start;
    match search_key(symbols, p) {
        Ok(k) => {
            proof {
                assert forall|i: int| !split_at(s0, i, p) by {
                    if split_at(s0, i, p) {
                        if k < i {
                            assert(pos_lt(key(s0[k as int]), p));
                        } else {
                            assert(pos_lt(p, key(s0[k as int])));
                        }
                    }
                }
            }
            false
        },
        Err(i) => {
            proof {
                let c = choose|j: int| split_at(s0, j, p);
                lemma_split_unique(s0, i as int, c, p);
            }
            if i > 0 && pos_le_exec(&symbols[i - 1].range.start, &item.range.start)
                && item.range.end.before(&symbols[i - 1].range.end) {
                proof {
                    assert(sorted_tree(s0[i - 1].children@));
                }
                symbols[i - 1].kind.is_callable() && can_graft(&symbols[i - 1].children, item, true)
            } else {
                nested
            }
        },
    }
}

/// Grafts `item` into the siblings `symbols` where `graft_happens` says it can be.
pub fn graft(symbols: &mut Vec<DocumentSymbol>, item: &CallHierarchyItem, nested: bool)
    requires
        sorted_tree(old(symbols)@),
        graft_happens(old(symbols)@, *item, nested),
    ensures
        graft_result(old(symbols)@, final(symbols)@, *item, nested),
    decreases old(symbols)@,
{
    let ghost s0 = symbols@;
    let p = item.selection_range.start;
    match search_key(symbols, p) {
        Ok(k) => {
            proof {
                assert(!split_at(s0, choose|j: int| split_at(s0, j, p), p)) by {
                    let c = choose|j: int| split_at(s0, j, p);
                    if split_at(s0, c, p) {
                        if k < c {
                            assert(pos_lt(key(s0[k as int]), p));
                        } else {
                            assert(pos_lt(p, key(s0[k as int])));
                        }
                    }
                }
            }
        },
        Err(i) => {
            proof {
                let c = choose|j: int| split_at(s0, j, p);
                lemma_split_unique(s0, i as int, c, p);
            }
            if i > 0 && pos_le_exec(&symbols[i - 1].range.start, &item.range.start)
                && item.range.end.before(&symbols[i - 1].range.end) {
                let mut sym = symbols.remove(i - 1);
                proof {
                    assert(sorted_tree(s0[i - 1].children@));
                }
                graft(&mut sym.children, item, true);
                symbols.insert(i - 1, sym);
            } else {
                let mut children: Vec<DocumentSymbol> = Vec::new();
                if i < symbols.len() && item.range.start.before(&symbols[i].range.start)
                    && symbols[i].range.end.before(&item.range.end) {
                    let next = symbols.remove(i);
                    children.push(next);
                    let node = synthesize(item, children);
                    symbols.insert(i, node);
                    assert(symbols@[i as int].children@ =~= seq![s0[i as int]]);
                } else {
                    let node = synthesize(item, children);
                    symbols.insert(i, node);
                }
            }
        },
    }
}

/// Whether every level of the outline is strictly increasing by selection-range start.
pub fn is_sorted_tree(symbols: &Vec<DocumentSymbol>) -> (r: bool)
    ensures
        r == sorted_tree(symbols@),
    decreases symbols@,
{
    let n = symbols.len();
    let mut i: usize = 0;
    while i < n
        invariant
            n == symbols@.len(),
            i <= n,
            forall|k: int| 0 <= k < i ==> sorted_tree(#[trigger] symbols@[k].children@),
            forall|a: int, b: int| 0 <= a < b < i ==> pos_lt(#[trigger] key(symbols@[a]), #[trigger] key(symbols@[b])),
        decreases n - i,
    {
        if i > 0 && !symbols[i - 1].selection_range.start.before(&symbols[i].selection_range.start) {
            assert(!sorted_level(symbols@)) by {
                assert(!pos_lt(key(symbols@[i - 1]), key(symbols@[i as int])));
            }
            return false;
        }
        if !is_sorted_tree(&symbols[i].children) {
            assert(!sorted_tree(symbols@[i as int].children@));
            return false;
        }
        proof {
            assert forall|a: int, b: int| 0 <= a < b < i + 1 implies pos_lt(#[trigger] key(symbols@[a]), #[trigger] key(symbols@[b])) by {
                if b == i && a < i - 1 {
                    assert(pos_lt(key(symbols@[a]), key(symbols@[i - 1])));
                }
            }
        }
        i = i + 1;
    }
    true
}

/// One file's outline: its id, its path and its top-level symbols.
#[derive(Debug)]
pub struct FileOutline {
    pub id: u32,
    pub path: String,
    pub symbols: Vec<DocumentSymbol>,
}

/// Whether a graft of `item` into the file's outline takes place: the outline
/// must be in order, and the item must fall inside a callable symbol.
pub open spec fn file_graft_happens(f: FileOutline, item: CallHierarchyItem) -> bool {
    sorted_tree(f.symbols@) && graft_happens(f.symbols@, item, false)
}

/// Grafts a call-hierarchy endpoint that the outline lacks into the innermost
/// callable symbol that strictly contains it, and reports whether it did. The
/// outline is left as it was where no graft takes place.
pub fn try_insert_symbol(item: &CallHierarchyItem, file: &mut FileOutline) -> (r: bool)
    ensures
        r == file_graft_happens(*old(file), *item),
        r ==> final(file).id == old(file).id && final(file).path == old(file).path
            && graft_result(old(file).symbols@, final(file).symbols@, *item, false)
            && sorted_tree(final(file).symbols@)
            && ancestors_kept(old(file).symbols@, final(file).symbols@, *item),
        !r ==> *final(file) == *old(file),
{
    if !is_sorted_tree(&file.symbols) {
        return false;
    }
    if !can_graft(&file.symbols, item, false) {
        return false;
    }
    let ghost before = file.symbols@;
    graft(&mut file.symbols, item, false);
    proof {
        lemma_graft_keeps_order_and_ranges(before, file.symbols@, *item, false);
    }
    true
}

fn pos_le_exec(a: &Position, b: &Position) -> (r: bool)
    ensures
        r == pos_le(*a, *b),
{
    a.before(b) || (a.line == b.line && a.character == b.character)
}

} // verus!
