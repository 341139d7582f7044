//! The symbol model of one analysis and the graph built from it.

use vstd::prelude::*;
use crate::cluster::{clusters_of, subgraphs};
use crate::dot::{dot_text, generate_dot_source};
use crate::edges::{collect_file_ids, dedup_edges, dedup_first, edge_key, files_ids, filter_resolved, has_id, resolved};
use crate::graph::{CellId, CssClass, CssClasses, Edge, Subgraph, TableNode};
use crate::lang::{file_repr, table_of};
use crate::outline::{file_graft_happens, graft_result, try_insert_symbol};
use crate::lang::{language_handler, language_handler_spec, Lang, Language};
use crate::lsp_types::{
    CallHierarchyIncomingCall, CallHierarchyItem, CallHierarchyOutgoingCall, DocumentSymbol, Location,
    Position,
};
use crate::outline::FileOutline;
use crate::text::str_eq;

verus! {

/// A position-addressed code entity: a file path, a line and a character.
#[derive(Debug)]
pub struct SymbolLocation {
    pub path: String,
    pub line: u32,
    pub character: u32,
}

/// What identifies a location: two locations are the same when all three parts are.
pub open spec fn loc_key(l: SymbolLocation) -> (Seq<char>, u32, u32) {
    (l.path@, l.line, l.character)
}

impl SymbolLocation {
    pub fn new(path: String, position: &Position) -> (r: SymbolLocation)
        ensures
            r.path == path,
            r.line == position.line,
            r.character == position.character,
    {
        SymbolLocation { path, line: position.line, character: position.character }
    }
}

fn same_location(a: &SymbolLocation, b: &SymbolLocation) -> (r: bool)
    ensures
        r == (loc_key(*a) == loc_key(*b)),
{
    a.line == b.line && a.character == b.character && str_eq(a.path.as_str(), b.path.as_str())
}

/// Relations recorded per source location; each location appears once.
pub open spec fn keys_unique<V>(rel: Seq<(SymbolLocation, V)>) -> bool {
    forall|a: int, b: int| 0 <= a < b < rel.len() ==> loc_key(#[trigger] rel[a].0) != loc_key(#[trigger] rel[b].0)
}

/// `new` is `old` with the entry for `key` set to `val`: replaced in place where
/// the location was recorded before, appended where not.
pub open spec fn upserted<V>(
    old: Seq<(SymbolLocation, V)>,
    new: Seq<(SymbolLocation, V)>,
    key: SymbolLocation,
    val: V,
) -> bool {
    if exists|k: int| 0 <= k < old.len() && loc_key(#[trigger] old[k].0) == loc_key(key) {
        let k = choose|k: int| 0 <= k < old.len() && loc_key(#[trigger] old[k].0) == loc_key(key);
        new == old.update(k, (key, val))
    } else {
        new == old.push((key, val))
    }
}

fn upsert<V>(rel: &mut Vec<(SymbolLocation, V)>, key: SymbolLocation, val: V)
    requires
        keys_unique(old(rel)@),
    ensures
        keys_unique(final(rel)@),
        upserted(old(rel)@, final(rel)@, key, val),
{
    let ghost k0 = key;
    let mut i: usize = 0;
    while i < rel.len()
        invariant
            i <= rel@.len(),
            rel@ == old(rel)@,
            keys_unique(old(rel)@),
            forall|k: int| 0 <= k < i ==> loc_key(#[trigger] rel@[k].0) != loc_key(k0),
            key == k0,
        decreases rel@.len() - i,
    {
        if same_location(&rel[i].0, &key) {
            proof {
                let c = choose|k: int| 0 <= k < old(rel)@.len() && loc_key(#[trigger] old(rel)@[k].0) == loc_key(k0);
                if c != i {
                    if c < i {
                    } else {
                        assert(loc_key(old(rel)@[i as int].0) != loc_key(old(rel)@[c].0));
                    }
                }
            }
            rel.remove(i);
            rel.insert(i, (key, val));
            assert(rel@ =~= old(rel)@.update(i as int, (k0, val)));
            assert(keys_unique(rel@)) by {
                assert forall|a: int, b: int| 0 <= a < b < rel@.len() implies loc_key(#[trigger] rel@[a].0) != loc_key(#[trigger] rel@[b].0) by {
                    if a == i {
                        assert(loc_key(old(rel)@[a].0) == loc_key(k0));
                        assert(loc_key(old(rel)@[a].0) != loc_key(old(rel)@[b].0));
                    } else if b == i {
                        assert(loc_key(old(rel)@[b].0) == loc_key(k0));
                        assert(loc_key(old(rel)@[a].0) != loc_key(old(rel)@[b].0));
                    }
                }
            }
            return;
        }
        i = i + 1;
    }
    rel.push((key, val));
    assert(keys_unique(rel@)) by {
        assert forall|a: int, b: int| 0 <= a < b < rel@.len() implies loc_key(#[trigger] rel@[a].0) != loc_key(#[trigger] rel@[b].0) by {
            if b == rel@.len() - 1 {
                assert(loc_key(rel@[a].0) == loc_key(old(rel)@[a].0));
            } else {
                assert(rel@[a] == old(rel)@[a]);
                assert(rel@[b] == old(rel)@[b]);
            }
        }
    }
}

/// The index of the file with this path, if there is one.
pub open spec fn file_index(files: Seq<FileOutline>, path: Seq<char>) -> Option<int> {
    if exists|k: int| 0 <= k < files.len() && (#[trigger] files[k]).path@ == path {
        Some(choose|k: int| 0 <= k < files.len() && (#[trigger] files[k]).path@ == path)
    } else {
        None
    }
}

/// Files of one analysis: paths distinct, ids 1, 2, 3, ... in order of insertion.
pub open spec fn files_wf(files: Seq<FileOutline>) -> bool {
    &&& forall|a: int, b: int| 0 <= a < b < files.len() ==> (#[trigger] files[a]).path@ != (#[trigger] files[b]).path@
    &&& forall|k: int| 0 <= k < files.len() ==> (#[trigger] files[k]).id == k + 1
}

proof fn lemma_file_index_unique(files: Seq<FileOutline>, path: Seq<char>, k: int)
    requires
        files_wf(files),
        0 <= k < files.len(),
        files[k].path@ == path,
    ensures
        file_index(files, path) == Some(k),
{
    let c = choose|c: int| 0 <= c < files.len() && (#[trigger] files[c]).path@ == path;
    if c != k {
        if c < k {
            assert(files[c].path@ != files[k].path@);
        } else {
            assert(files[k].path@ != files[c].path@);
        }
    }
}

fn find_file(files: &Vec<FileOutline>, path: &str) -> (r: Option<usize>)
    requires
        files_wf(files@),
    ensures
        r matches Some(k) ==> file_index(files@, path@) == Some(k as int),
        r is None ==> file_index(files@, path@) is None,
{
    let mut i: usize = 0;
    while i < files.len()
        invariant
            i <= files@.len(),
            files_wf(files@),
            forall|k: int| 0 <= k < i ==> (#[trigger] files@[k]).path@ != path@,
        decreases files@.len() - i,
    {
        if str_eq(files[i].path.as_str(), path) {
            proof {
                lemma_file_index_unique(files@, path@, i as int);
            }
            return Some(i);
        }
        i = i + 1;
    }
    None
}

/// The cell address of a location: the id of the file it names, with its line
/// and character; none where the file is not part of the analysis.
pub open spec fn location_id(files: Seq<FileOutline>, path: Seq<char>, p: (u32, u32)) -> Option<CellId> {
    match file_index(files, path) {
        Some(k) => Some((files[k].id, p.0, p.1)),
        None => None,
    }
}

pub open spec fn symbol_location_id(files: Seq<FileOutline>, l: SymbolLocation) -> Option<CellId> {
    location_id(files, l.path@, (l.line, l.character))
}

pub open spec fn item_id(files: Seq<FileOutline>, item: CallHierarchyItem) -> Option<CellId> {
    location_id(files, item.uri.path@, (item.selection_range.start.line, item.selection_range.start.character))
}

fn resolve(files: &Vec<FileOutline>, path: &str, line: u32, character: u32) -> (r: Option<CellId>)
    requires
        files_wf(files@),
    ensures
        r == location_id(files@, path@, (line, character)),
{
    match find_file(files, path) {
        Some(k) => Some((files[k].id, line, character)),
        None => None,
    }
}

/// Two file lists that agree in length, ids and paths.
pub open spec fn same_files(a: Seq<FileOutline>, b: Seq<FileOutline>) -> bool {
    &&& a.len() == b.len()
    &&& forall|k: int| 0 <= k < a.len() ==> (#[trigger] a[k]).id == b[k].id && a[k].path == b[k].path
}

proof fn lemma_same_files(a: Seq<FileOutline>, b: Seq<FileOutline>)
    requires
        files_wf(a),
        same_files(a, b),
    ensures
        files_wf(b),
        forall|path: Seq<char>, p: (u32, u32)| #[trigger] location_id(b, path, p) == location_id(a, path, p),
{
    assert forall|x: int, y: int| 0 <= x < y < b.len() implies (#[trigger] b[x]).path@ != (#[trigger] b[y]).path@ by {
        assert(a[x].path@ != a[y].path@);
        assert(a[x].path == b[x].path);
        assert(a[y].path == b[y].path);
    }
    assert forall|k: int| 0 <= k < b.len() implies (#[trigger] b[k]).id == k + 1 by {
        assert(a[k].id == b[k].id);
    }
    assert forall|path: Seq<char>, p: (u32, u32)| #[trigger] location_id(b, path, p) == location_id(a, path, p) by {
        if exists|k: int| 0 <= k < a.len() && (#[trigger] a[k]).path@ == path {
            let k = choose|k: int| 0 <= k < a.len() && (#[trigger] a[k]).path@ == path;
            lemma_file_index_unique(a, path, k);
            assert(b[k].path == a[k].path);
            lemma_file_index_unique(b, path, k);
        } else {
            assert forall|k: int| 0 <= k < b.len() implies (#[trigger] b[k]).path@ != path by {
                assert(a[k].path == b[k].path);
            }
        }
    }
}

/// Whether a call-hierarchy endpoint can be grafted into the file it names.
pub open spec fn can_graft_into(files: Seq<FileOutline>, item: CallHierarchyItem) -> bool {
    match file_index(files, item.uri.path@) {
        Some(k) => file_graft_happens(files[k], item),
        None => false,
    }
}

/// `files2` is `files` with `item` grafted into the outline of the file it names.
pub open spec fn grafted(files: Seq<FileOutline>, files2: Seq<FileOutline>, item: CallHierarchyItem) -> bool {
    match file_index(files, item.uri.path@) {
        Some(k) => {
            &&& file_graft_happens(files[k], item)
            &&& files2.len() == files.len()
            &&& forall|m: int| 0 <= m < files.len() && m != k ==> files2[m] == files[m]
            &&& files2[k].id == files[k].id
            &&& files2[k].path == files[k].path
            &&& graft_result(files[k].symbols@, files2[k].symbols@, item, false)
        },
        None => false,
    }
}

/// One piece of edge-candidate work, in the order that `build` takes them.
pub enum Job {
    /// A recorded caller (the item) of the symbol at a location.
    Caller(CallHierarchyItem, SymbolLocation),
    /// A recorded callee (the item) of the symbol at a location.
    Callee(SymbolLocation, CallHierarchyItem),
    /// A recorded implementation (first) of the interface at a location (second).
    Implementor(SymbolLocation, SymbolLocation),
}

/// Where the candidate work stands: the files, the addresses grafted so far,
/// and the edge candidates.
pub type BuildState = (Seq<FileOutline>, Seq<CellId>, Seq<Edge>);

pub open spec fn incoming_jobs(rel: Seq<(SymbolLocation, Vec<CallHierarchyIncomingCall>)>) -> Seq<Job>
    decreases rel.len(),
{
    if rel.len() == 0 {
        Seq::empty()
    } else {
        incoming_jobs(rel.drop_last()) + rel.last().1@.map_values(|c: CallHierarchyIncomingCall| Job::Caller(c.from, rel.last().0))
    }
}

pub open spec fn outgoing_jobs(rel: Seq<(SymbolLocation, Vec<CallHierarchyOutgoingCall>)>) -> Seq<Job>
    decreases rel.len(),
{
    if rel.len() == 0 {
        Seq::empty()
    } else {
        outgoing_jobs(rel.drop_last()) + rel.last().1@.map_values(|c: CallHierarchyOutgoingCall| Job::Callee(rel.last().0, c.to))
    }
}

pub open spec fn impl_jobs(rel: Seq<(SymbolLocation, Vec<SymbolLocation>)>) -> Seq<Job>
    decreases rel.len(),
{
    if rel.len() == 0 {
        Seq::empty()
    } else {
        impl_jobs(rel.drop_last()) + rel.last().1@.map_values(|l: SymbolLocation| Job::Implementor(l, rel.last().0))
    }
}

/// `c2` is `c` with the edge `from -> to` of these classes appended.
pub open spec fn pushed(c: Seq<Edge>, c2: Seq<Edge>, from: CellId, to: CellId, classes: Set<CssClass>) -> bool {
    &&& c2.len() == c.len() + 1
    &&& c2.drop_last() == c
    &&& c2.last().from == from
    &&& c2.last().to == to
    &&& c2.last().classes@ == classes
}

/// A call between `moving` (the end a call-hierarchy item names) and `anchor`
/// (the end recorded by location; `item_first` where the item is the caller).
/// Where the anchor is drawn, the edge is added if the item's end is drawn or
/// grafted before, or once it is grafted now; else nothing changes.
pub open spec fn call_step(
    s: BuildState,
    s2: BuildState,
    ids0: Set<CellId>,
    item: CallHierarchyItem,
    moving: Option<CellId>,
    anchor: Option<CellId>,
    item_first: bool,
) -> bool {
    if moving is Some && anchor is Some && ids0.contains(anchor->0) {
        let m = moving->0;
        let a = anchor->0;
        let from = if item_first { m } else { a };
        let to = if item_first { a } else { m };
        if ids0.contains(m) || s.1.contains(m) {
            s2.0 == s.0 && s2.1 == s.1 && pushed(s.2, s2.2, from, to, Set::empty())
        } else if can_graft_into(s.0, item) {
            grafted(s.0, s2.0, item) && s2.1 == s.1.push(m) && pushed(s.2, s2.2, from, to, Set::empty())
        } else {
            s2 == s
        }
    } else {
        s2 == s
    }
}

/// One step of the candidate work; addresses resolve against `files0`, cells
/// drawn at the start are `ids0`.
pub open spec fn step(files0: Seq<FileOutline>, ids0: Set<CellId>, s: BuildState, s2: BuildState, job: Job) -> bool {
    match job {
        Job::Caller(item, loc) => call_step(s, s2, ids0, item, item_id(files0, item), symbol_location_id(files0, loc), true),
        Job::Callee(loc, item) => call_step(s, s2, ids0, item, item_id(files0, item), symbol_location_id(files0, loc), false),
        Job::Implementor(imp, iface) => {
            let f = symbol_location_id(files0, imp);
            let t = symbol_location_id(files0, iface);
            if f is Some && t is Some && ids0.contains(f->0) && ids0.contains(t->0) {
                s2.0 == s.0 && s2.1 == s.1 && pushed(s.2, s2.2, f->0, t->0, set![CssClass::Impl])
            } else {
                s2 == s
            }
        },
    }
}

/// `states` are the states while `jobs` are done in order.
pub open spec fn runs(files0: Seq<FileOutline>, ids0: Set<CellId>, jobs: Seq<Job>, states: Seq<BuildState>) -> bool {
    &&& states.len() == jobs.len() + 1
    &&& forall|k: int| 0 <= k < jobs.len() ==> step(files0, ids0, states[k], states[k + 1], #[trigger] jobs[k])
}

/// The jobs run from `start` to `end`.
pub open spec fn ran(files0: Seq<FileOutline>, ids0: Set<CellId>, jobs: Seq<Job>, start: BuildState, end: BuildState) -> bool {
    exists|states: Seq<BuildState>| #[trigger] runs(files0, ids0, jobs, states) && states[0] == start && states.last() == end
}

/// All candidate work of a model: its callers, then its callees, then its implementations.
pub open spec fn all_jobs(g: GraphGenerator) -> Seq<Job> {
    incoming_jobs(g.incoming()) + outgoing_jobs(g.outgoing()) + impl_jobs(g.interfaces())
}

proof fn lemma_ran_concat(
    f0: Seq<FileOutline>,
    ids: Set<CellId>,
    j1: Seq<Job>,
    j2: Seq<Job>,
    a: BuildState,
    b: BuildState,
    c: BuildState,
)
    requires
        ran(f0, ids, j1, a, b),
        ran(f0, ids, j2, b, c),
    ensures
        ran(f0, ids, j1 + j2, a, c),
{
    let s1 = choose|states: Seq<BuildState>| #[trigger] runs(f0, ids, j1, states) && states[0] == a && states.last() == b;
    let s2 = choose|states: Seq<BuildState>| #[trigger] runs(f0, ids, j2, states) && states[0] == b && states.last() == c;
    let s = s1 + s2.drop_first();
    let j = j1 + j2;
    assert forall|k: int| 0 <= k < j.len() implies step(f0, ids, s[k], s[k + 1], #[trigger] j[k]) by {
        if k < j1.len() {
            assert(j[k] == j1[k]);
            assert(s[k] == s1[k]);
            if k + 1 < s1.len() {
                assert(s[k + 1] == s1[k + 1]);
            }
        } else {
            let m = k - j1.len();
            assert(j[k] == j2[m]);
            assert(step(f0, ids, s2[m], s2[m + 1], j2[m]));
            if m == 0 {
                assert(s[k] == s1.last());
            } else {
                assert(s[k] == s2[m]);
            }
            assert(s[k + 1] == s2[m + 1]);
        }
    }
    assert(runs(f0, ids, j, s));
    if s2.len() == 1 {
        assert(s.last() == s1.last());
    } else {
        assert(s.last() == s2.last());
    }
}

proof fn lemma_ran_same_files(fa: Seq<FileOutline>, fb: Seq<FileOutline>, ids: Set<CellId>, jobs: Seq<Job>, a: BuildState, b: BuildState)
    requires
        files_wf(fa),
        same_files(fa, fb),
        ran(fb, ids, jobs, a, b),
    ensures
        ran(fa, ids, jobs, a, b),
{
    lemma_same_files(fa, fb);
    let s = choose|states: Seq<BuildState>| #[trigger] runs(fb, ids, jobs, states) && states[0] == a && states.last() == b;
    assert forall|k: int| 0 <= k < jobs.len() implies step(fa, ids, s[k], s[k + 1], #[trigger] jobs[k]) by {
        assert(step(fb, ids, s[k], s[k + 1], jobs[k]));
        match jobs[k] {
            Job::Caller(item, loc) => {
                assert(item_id(fa, item) == item_id(fb, item));
                assert(symbol_location_id(fa, loc) == symbol_location_id(fb, loc));
            },
            Job::Callee(loc, item) => {
                assert(item_id(fa, item) == item_id(fb, item));
                assert(symbol_location_id(fa, loc) == symbol_location_id(fb, loc));
            },
            Job::Implementor(x, y) => {
                assert(symbol_location_id(fa, x) == symbol_location_id(fb, x));
                assert(symbol_location_id(fa, y) == symbol_location_id(fb, y));
            },
        }
    }
    assert(runs(fa, ids, jobs, s));
}

/// Grafts a call-hierarchy endpoint into the outline of the file it names, if
/// that file is part of the analysis; reports whether it did.
fn graft_into(files: &mut Vec<FileOutline>, item: &CallHierarchyItem) -> (r: bool)
    requires
        files_wf(old(files)@),
    ensures
        files_wf(final(files)@),
        same_files(old(files)@, final(files)@),
        r == can_graft_into(old(files)@, *item),
        r ==> grafted(old(files)@, final(files)@, *item),
        !r ==> final(files)@ == old(files)@,
{
    match find_file(files, item.uri.path.as_str()) {
        None => false,
        Some(k) => {
            let mut f = files.remove(k);
            let r = try_insert_symbol(item, &mut f);
            files.insert(k, f);
            proof {
                assert(files@ =~= old(files)@.update(k as int, f));
                if !r {
                    assert(files@ =~= old(files)@);
                }
                assert(same_files(old(files)@, files@));
                lemma_same_files(old(files)@, files@);
            }
            r
        },
    }
}

/// The callers recorded for a symbol name an edge `from -> to`.
pub open spec fn incoming_edge(
    files: Seq<FileOutline>,
    rel: Seq<(SymbolLocation, Vec<CallHierarchyIncomingCall>)>,
    from: CellId,
    to: CellId,
) -> bool {
    exists|i: int, j: int|
        0 <= i < rel.len() && 0 <= j < rel[i].1@.len() && symbol_location_id(files, rel[i].0) == Some(to)
            && item_id(files, (#[trigger] rel[i].1@[j]).from) == Some(from)
}

/// The callees recorded for a symbol name an edge `from -> to`.
pub open spec fn outgoing_edge(
    files: Seq<FileOutline>,
    rel: Seq<(SymbolLocation, Vec<CallHierarchyOutgoingCall>)>,
    from: CellId,
    to: CellId,
) -> bool {
    exists|i: int, j: int|
        0 <= i < rel.len() && 0 <= j < rel[i].1@.len() && symbol_location_id(files, rel[i].0) == Some(from)
            && item_id(files, (#[trigger] rel[i].1@[j]).to) == Some(to)
}

/// The implementations recorded for an interface name an edge `from -> to`.
pub open spec fn impl_edge(
    files: Seq<FileOutline>,
    rel: Seq<(SymbolLocation, Vec<SymbolLocation>)>,
    from: CellId,
    to: CellId,
) -> bool {
    exists|i: int, j: int|
        0 <= i < rel.len() && 0 <= j < rel[i].1@.len() && symbol_location_id(files, rel[i].0) == Some(to)
            && symbol_location_id(files, #[trigger] rel[i].1@[j]) == Some(from)
}

/// Where both ends resolve to cells drawn before and after grafting, an edge joins them.
pub open spec fn covered(edges: Seq<Edge>, before: Set<CellId>, after: Set<CellId>, from: Option<CellId>, to: Option<CellId>) -> bool {
    (from matches Some(f) && to matches Some(t) && before.contains(f) && before.contains(t) && after.contains(f)
        && after.contains(t)) ==> exists|k: int| 0 <= k < edges.len() && edge_key(#[trigger] edges[k]) == (from->0, to->0)
}

/// Edges only ever added at the end: what was there stays.
pub open spec fn extends(old: Seq<Edge>, new: Seq<Edge>) -> bool {
    old.len() <= new.len() && new.subrange(0, old.len() as int) == old
}

proof fn lemma_covered_extends(old: Seq<Edge>, new: Seq<Edge>, b: Set<CellId>, from: Option<CellId>, to: Option<CellId>)
    requires
        extends(old, new),
        covered(old, b, b, from, to),
    ensures
        covered(new, b, b, from, to),
{
    if from is Some && to is Some && b.contains(from->0) && b.contains(to->0) {
        let k = choose|k: int| 0 <= k < old.len() && edge_key(#[trigger] old[k]) == (from->0, to->0);
        assert(new[k] == old[k]);
    }
}

/// Edge candidates from the recorded callers: a caller that the outline lacks
/// is grafted into its file where it can be.
fn collect_incoming(
    files: &mut Vec<FileOutline>,
    rel: &Vec<(SymbolLocation, Vec<CallHierarchyIncomingCall>)>,
    ids0: &Vec<CellId>,
    inserted: &mut Vec<CellId>,
    cands: &mut Vec<Edge>,
)
    requires
        files_wf(old(files)@),
    ensures
        files_wf(final(files)@),
        same_files(old(files)@, final(files)@),
        extends(old(cands)@, final(cands)@),
        forall|k: int| old(cands)@.len() <= k < final(cands)@.len() ==> incoming_edge(
            old(files)@, rel@, (#[trigger] final(cands)@[k]).from, final(cands)@[k].to)
            && final(cands)@[k].classes@ == Set::<CssClass>::empty(),
        forall|a: int, b: int| 0 <= a < rel@.len() && 0 <= b < rel@[a].1@.len() ==> covered(
            final(cands)@, ids0@.to_set(), ids0@.to_set(),
            item_id(old(files)@, (#[trigger] rel@[a].1@[b]).from), symbol_location_id(old(files)@, rel@[a].0)),
        ran(old(files)@, ids0@.to_set(), incoming_jobs(rel@), (old(files)@, old(inserted)@, old(cands)@),
            (final(files)@, final(inserted)@, final(cands)@)),
{
    let ghost files0 = files@;
    let ghost c0 = cands@;
    let ghost inc = rel@;
    let ghost i0 = inserted@;
    let ghost ids = ids0@.to_set();
    let ghost mut states: Seq<BuildState> = seq![(files@, inserted@, cands@)];
    let ghost mut done: Seq<Job> = Seq::empty();
    assert(c0.subrange(0, c0.len() as int) =~= c0);
    assert(inc.subrange(0, 0) =~= Seq::<(SymbolLocation, Vec<CallHierarchyIncomingCall>)>::empty());
    let mut i: usize = 0;
    while i < rel.len()
        invariant
            files_wf(files0),
            files_wf(files@),
            same_files(files0, files@),
            files0 == old(files)@,
            c0 == old(cands)@,
            inc == rel@,
            0 <= i <= inc.len(),
            i0 == old(inserted)@,
            ids == ids0@.to_set(),
            runs(files0, ids, done, states),
            states[0] == (files0, i0, c0),
            states.last() == (files@, inserted@, cands@),
            done == incoming_jobs(inc.subrange(0, i as int)),
            extends(c0, cands@),
            forall|k: int| c0.len() <= k < cands@.len() ==> incoming_edge(files0, inc, (#[trigger] cands@[k]).from, cands@[k].to)
                && cands@[k].classes@ == Set::<CssClass>::empty(),
            forall|a: int, b: int| 0 <= a < i && 0 <= b < inc[a].1@.len() ==> covered(
                cands@, ids0@.to_set(), ids0@.to_set(),
                item_id(files0, (#[trigger] inc[a].1@[b]).from), symbol_location_id(files0, inc[a].0)),
        decreases inc.len() - i,
    {
        proof {
            lemma_same_files(files0, files@);
        }
        let target = resolve(files, rel[i].0.path.as_str(), rel[i].0.line, rel[i].0.character);
        let n = rel[i].1.len();
        let mut j: usize = 0;
        assert(inc[i as int].1@.subrange(0, 0).map_values(|c: CallHierarchyIncomingCall| Job::Caller(c.from, inc[i as int].0))
            =~= Seq::<Job>::empty());
        assert(done + Seq::<Job>::empty() =~= done);
        while j < n
            invariant
                files_wf(files0),
                files_wf(files@),
                same_files(files0, files@),
                files0 == old(files)@,
                c0 == old(cands)@,
                inc == rel@,
                0 <= i < inc.len(),
                i0 == old(inserted)@,
                ids == ids0@.to_set(),
                runs(files0, ids, done, states),
                states[0] == (files0, i0, c0),
                states.last() == (files@, inserted@, cands@),
                done == incoming_jobs(inc.subrange(0, i as int))
                    + inc[i as int].1@.subrange(0, j as int).map_values(|c: CallHierarchyIncomingCall| Job::Caller(c.from, inc[i as int].0)),
                n == inc[i as int].1@.len(),
                0 <= j <= n,
                target == symbol_location_id(files0, inc[i as int].0),
                extends(c0, cands@),
                forall|k: int| c0.len() <= k < cands@.len() ==> incoming_edge(files0, inc, (#[trigger] cands@[k]).from, cands@[k].to)
                && cands@[k].classes@ == Set::<CssClass>::empty(),
                forall|a: int, b: int| 0 <= a < i && 0 <= b < inc[a].1@.len() ==> covered(
                    cands@, ids0@.to_set(), ids0@.to_set(),
                    item_id(files0, (#[trigger] inc[a].1@[b]).from), symbol_location_id(files0, inc[a].0)),
                forall|b: int| 0 <= b < j ==> covered(
                    cands@, ids0@.to_set(), ids0@.to_set(),
                    item_id(files0, (#[trigger] inc[i as int].1@[b]).from), symbol_location_id(files0, inc[i as int].0)),
            decreases n - j,
        {
            proof {
                lemma_same_files(files0, files@);
            }
            let ghost pre = cands@;
            let ghost st = (files@, inserted@, cands@);
            let item = &rel[i].1[j].from;
            let source = resolve(files, item.uri.path.as_str(), item.selection_range.start.line, item.selection_range.start.character);
            match (source, target) {
                (Some(from), Some(to)) => {
                    if has_id(ids0, to) {
                        let known = has_id(ids0, from) || has_id(inserted, from);
                        let ok = known || graft_into(files, item);
                        if ok {
                            if !known {
                                inserted.push(from);
                            }
                            cands.push(Edge { from, to, classes: CssClasses::new() });
                        }
                    }
                },
                _ => {},
            }
            proof {
                let s2 = (files@, inserted@, cands@);
                let job = Job::Caller(inc[i as int].1@[j as int].from, inc[i as int].0);
                assert(inc[i as int].1@[j as int].from == *item);
                if cands@.len() > pre.len() {
                    assert(cands@.drop_last() =~= pre);
                }
                assert(step(files0, ids, st, s2, job));
                let old_states = states;
                let old_done = done;
                states = states.push(s2);
                done = done.push(job);
                assert forall|k: int| 0 <= k < done.len() implies step(files0, ids, states[k], states[k + 1], #[trigger] done[k]) by {
                    if k < old_done.len() {
                        assert(done[k] == old_done[k]);
                        assert(states[k] == old_states[k]);
                        assert(states[k + 1] == old_states[k + 1]);
                    }
                }
                assert(done =~= incoming_jobs(inc.subrange(0, i as int))
                    + inc[i as int].1@.subrange(0, j + 1).map_values(|c: CallHierarchyIncomingCall| Job::Caller(c.from, inc[i as int].0)));
                lemma_same_files(files0, files@);
                assert(extends(pre, cands@)) by {
                    assert(cands@.subrange(0, pre.len() as int) =~= pre);
                }
                assert(extends(c0, cands@)) by {
                    assert forall|k: int| 0 <= k < c0.len() implies cands@[k] == c0[k] by {
                        assert(cands@.subrange(0, pre.len() as int)[k] == pre[k]);
                        assert(pre.subrange(0, c0.len() as int)[k] == c0[k]);
                    }
                    assert(cands@.subrange(0, c0.len() as int) =~= c0);
                }
                assert forall|k: int| c0.len() <= k < cands@.len() implies incoming_edge(files0, inc, (#[trigger] cands@[k]).from, cands@[k].to)
                    && cands@[k].classes@ == Set::<CssClass>::empty() by {
                    if k < pre.len() {
                        assert(cands@[k] == pre[k]);
                    } else {
                        assert(inc[i as int].1@[j as int].from == *item);
                    }
                }
                assert forall|a: int, b: int| 0 <= a < i && 0 <= b < inc[a].1@.len() implies covered(
                    cands@, ids0@.to_set(), ids0@.to_set(),
                    item_id(files0, (#[trigger] inc[a].1@[b]).from), symbol_location_id(files0, inc[a].0)) by {
                    lemma_covered_extends(pre, cands@, ids0@.to_set(), item_id(files0, inc[a].1@[b].from), symbol_location_id(files0, inc[a].0));
                }
                assert forall|b: int| 0 <= b < j + 1 implies covered(
                    cands@, ids0@.to_set(), ids0@.to_set(),
                    item_id(files0, (#[trigger] inc[i as int].1@[b]).from), symbol_location_id(files0, inc[i as int].0)) by {
                    if b < j {
                        lemma_covered_extends(pre, cands@, ids0@.to_set(), item_id(files0, inc[i as int].1@[b].from), symbol_location_id(files0, inc[i as int].0));
                    } else {
                        assert(inc[i as int].1@[b].from == *item);
                        if cands@.len() > pre.len() {
                            assert(edge_key(cands@[cands@.len() - 1]) == (source->0, target->0));
                        }
                    }
                }
            }
            j = j + 1;
        }
        proof {
            assert(inc[i as int].1@.subrange(0, n as int) =~= inc[i as int].1@);
            let cur = inc.subrange(0, i + 1);
            assert(cur.drop_last() =~= inc.subrange(0, i as int));
            assert(cur.last() == inc[i as int]);
        }
        i = i + 1;
    }
    proof {
        assert(inc.subrange(0, inc.len() as int) =~= inc);
    }
}

/// Edge candidates from the recorded callees: a callee that the outline lacks
/// is grafted into its file where it can be.
fn collect_outgoing(
    files: &mut Vec<FileOutline>,
    rel: &Vec<(SymbolLocation, Vec<CallHierarchyOutgoingCall>)>,
    ids0: &Vec<CellId>,
    inserted: &mut Vec<CellId>,
    cands: &mut Vec<Edge>,
)
    requires
        files_wf(old(files)@),
    ensures
        files_wf(final(files)@),
        same_files(old(files)@, final(files)@),
        extends(old(cands)@, final(cands)@),
        forall|k: int| old(cands)@.len() <= k < final(cands)@.len() ==> outgoing_edge(
            old(files)@, rel@, (#[trigger] final(cands)@[k]).from, final(cands)@[k].to)
            && final(cands)@[k].classes@ == Set::<CssClass>::empty(),
        forall|a: int, b: int| 0 <= a < rel@.len() && 0 <= b < rel@[a].1@.len() ==> covered(
            final(cands)@, ids0@.to_set(), ids0@.to_set(),
            symbol_location_id(old(files)@, rel@[a].0), item_id(old(files)@, (#[trigger] rel@[a].1@[b]).to)),
        ran(old(files)@, ids0@.to_set(), outgoing_jobs(rel@), (old(files)@, old(inserted)@, old(cands)@),
            (final(files)@, final(inserted)@, final(cands)@)),
{
    let ghost files0 = files@;
    let ghost c0 = cands@;
    let ghost inc = rel@;
    let ghost i0 = inserted@;
    let ghost ids = ids0@.to_set();
    let ghost mut states: Seq<BuildState> = seq![(files@, inserted@, cands@)];
    let ghost mut done: Seq<Job> = Seq::empty();
    assert(c0.subrange(0, c0.len() as int) =~= c0);
    assert(inc.subrange(0, 0) =~= Seq::<(SymbolLocation, Vec<CallHierarchyOutgoingCall>)>::empty());
    let mut i: usize = 0;
    while i < rel.len()
        invariant
            files_wf(files0),
            files_wf(files@),
            same_files(files0, files@),
            files0 == old(files)@,
            c0 == old(cands)@,
            inc == rel@,
            0 <= i <= inc.len(),
            i0 == old(inserted)@,
            ids == ids0@.to_set(),
            runs(files0, ids, done, states),
            states[0] == (files0, i0, c0),
            states.last() == (files@, inserted@, cands@),
            done == outgoing_jobs(inc.subrange(0, i as int)),
            extends(c0, cands@),
            forall|k: int| c0.len() <= k < cands@.len() ==> outgoing_edge(files0, inc, (#[trigger] cands@[k]).from, cands@[k].to)
                && cands@[k].classes@ == Set::<CssClass>::empty(),
            forall|a: int, b: int| 0 <= a < i && 0 <= b < inc[a].1@.len() ==> covered(
                cands@, ids0@.to_set(), ids0@.to_set(),
                symbol_location_id(files0, inc[a].0), item_id(files0, (#[trigger] inc[a].1@[b]).to)),
        decreases inc.len() - i,
    {
        proof {
            lemma_same_files(files0, files@);
        }
        let source = resolve(files, rel[i].0.path.as_str(), rel[i].0.line, rel[i].0.character);
        let n = rel[i].1.len();
        let mut j: usize = 0;
        assert(inc[i as int].1@.subrange(0, 0).map_values(|c: CallHierarchyOutgoingCall| Job::Callee(inc[i as int].0, c.to))
            =~= Seq::<Job>::empty());
        assert(done + Seq::<Job>::empty() =~= done);
        while j < n
            invariant
                files_wf(files0),
                files_wf(files@),
                same_files(files0, files@),
                files0 == old(files)@,
                c0 == old(cands)@,
                inc == rel@,
                0 <= i < inc.len(),
                i0 == old(inserted)@,
                ids == ids0@.to_set(),
                runs(files0, ids, done, states),
                states[0] == (files0, i0, c0),
                states.last() == (files@, inserted@, cands@),
                done == outgoing_jobs(inc.subrange(0, i as int))
                    + inc[i as int].1@.subrange(0, j as int).map_values(|c: CallHierarchyOutgoingCall| Job::Callee(inc[i as int].0, c.to)),
                n == inc[i as int].1@.len(),
                0 <= j <= n,
                source == symbol_location_id(files0, inc[i as int].0),
                extends(c0, cands@),
                forall|k: int| c0.len() <= k < cands@.len() ==> outgoing_edge(files0, inc, (#[trigger] cands@[k]).from, cands@[k].to)
                && cands@[k].classes@ == Set::<CssClass>::empty(),
                forall|a: int, b: int| 0 <= a < i && 0 <= b < inc[a].1@.len() ==> covered(
                    cands@, ids0@.to_set(), ids0@.to_set(),
                    symbol_location_id(files0, inc[a].0), item_id(files0, (#[trigger] inc[a].1@[b]).to)),
                forall|b: int| 0 <= b < j ==> covered(
                    cands@, ids0@.to_set(), ids0@.to_set(),
                    symbol_location_id(files0, inc[i as int].0), item_id(files0, (#[trigger] inc[i as int].1@[b]).to)),
            decreases n - j,
        {
            proof {
                lemma_same_files(files0, files@);
            }
            let ghost pre = cands@;
            let ghost st = (files@, inserted@, cands@);
            let item = &rel[i].1[j].to;
            let target = resolve(files, item.uri.path.as_str(), item.selection_range.start.line, item.selection_range.start.character);
            match (source, target) {
                (Some(from), Some(to)) => {
                    if has_id(ids0, from) {
                        let known = has_id(ids0, to) || has_id(inserted, to);
                        let ok = known || graft_into(files, item);
                        if ok {
                            if !known {
                                inserted.push(to);
                            }
                            cands.push(Edge { from, to, classes: CssClasses::new() });
                        }
                    }
                },
                _ => {},
            }
            proof {
                let s2 = (files@, inserted@, cands@);
                let job = Job::Callee(inc[i as int].0, inc[i as int].1@[j as int].to);
                assert(inc[i as int].1@[j as int].to == *item);
                if cands@.len() > pre.len() {
                    assert(cands@.drop_last() =~= pre);
                }
                assert(step(files0, ids, st, s2, job));
                let old_states = states;
                let old_done = done;
                states = states.push(s2);
                done = done.push(job);
                assert forall|k: int| 0 <= k < done.len() implies step(files0, ids, states[k], states[k + 1], #[trigger] done[k]) by {
                    if k < old_done.len() {
                        assert(done[k] == old_done[k]);
                        assert(states[k] == old_states[k]);
                        assert(states[k + 1] == old_states[k + 1]);
                    }
                }
                assert(done =~= outgoing_jobs(inc.subrange(0, i as int))
                    + inc[i as int].1@.subrange(0, j + 1).map_values(|c: CallHierarchyOutgoingCall| Job::Callee(inc[i as int].0, c.to)));
                lemma_same_files(files0, files@);
                assert(extends(pre, cands@)) by {
                    assert(cands@.subrange(0, pre.len() as int) =~= pre);
                }
                assert(extends(c0, cands@)) by {
                    assert forall|k: int| 0 <= k < c0.len() implies cands@[k] == c0[k] by {
                        assert(cands@.subrange(0, pre.len() as int)[k] == pre[k]);
                        assert(pre.subrange(0, c0.len() as int)[k] == c0[k]);
                    }
                    assert(cands@.subrange(0, c0.len() as int) =~= c0);
                }
                assert forall|k: int| c0.len() <= k < cands@.len() implies outgoing_edge(files0, inc, (#[trigger] cands@[k]).from, cands@[k].to)
                    && cands@[k].classes@ == Set::<CssClass>::empty() by {
                    if k < pre.len() {
                        assert(cands@[k] == pre[k]);
                    } else {
                        assert(inc[i as int].1@[j as int].to == *item);
                    }
                }
                assert forall|a: int, b: int| 0 <= a < i && 0 <= b < inc[a].1@.len() implies covered(
                    cands@, ids0@.to_set(), ids0@.to_set(),
                    symbol_location_id(files0, inc[a].0), item_id(files0, (#[trigger] inc[a].1@[b]).to)) by {
                    lemma_covered_extends(pre, cands@, ids0@.to_set(), symbol_location_id(files0, inc[a].0), item_id(files0, inc[a].1@[b].to));
                }
                assert forall|b: int| 0 <= b < j + 1 implies covered(
                    cands@, ids0@.to_set(), ids0@.to_set(),
                    symbol_location_id(files0, inc[i as int].0), item_id(files0, (#[trigger] inc[i as int].1@[b]).to)) by {
                    if b < j {
                        lemma_covered_extends(pre, cands@, ids0@.to_set(), symbol_location_id(files0, inc[i as int].0), item_id(files0, inc[i as int].1@[b].to));
                    } else {
                        assert(inc[i as int].1@[b].to == *item);
                        if cands@.len() > pre.len() {
                            assert(edge_key(cands@[cands@.len() - 1]) == (source->0, target->0));
                        }
                    }
                }
            }
            j = j + 1;
        }
        proof {
            assert(inc[i as int].1@.subrange(0, n as int) =~= inc[i as int].1@);
            let cur = inc.subrange(0, i + 1);
            assert(cur.drop_last() =~= inc.subrange(0, i as int));
            assert(cur.last() == inc[i as int]);
        }
        i = i + 1;
    }
    proof {
        assert(inc.subrange(0, inc.len() as int) =~= inc);
    }
}

/// Edge candidates from the recorded implementations, marked as such.
fn collect_impls(
    files: &mut Vec<FileOutline>,
    rel: &Vec<(SymbolLocation, Vec<SymbolLocation>)>,
    ids0: &Vec<CellId>,
    inserted: &mut Vec<CellId>,
    cands: &mut Vec<Edge>,
)
    requires
        files_wf(old(files)@),
    ensures
        files_wf(final(files)@),
        same_files(old(files)@, final(files)@),
        extends(old(cands)@, final(cands)@),
        forall|k: int| old(cands)@.len() <= k < final(cands)@.len() ==> impl_edge(
            old(files)@, rel@, (#[trigger] final(cands)@[k]).from, final(cands)@[k].to)
            && final(cands)@[k].classes@ == set![CssClass::Impl],
        forall|a: int, b: int| 0 <= a < rel@.len() && 0 <= b < rel@[a].1@.len() ==> covered(
            final(cands)@, ids0@.to_set(), ids0@.to_set(),
            symbol_location_id(old(files)@, #[trigger] rel@[a].1@[b]), symbol_location_id(old(files)@, rel@[a].0)),
        ran(old(files)@, ids0@.to_set(), impl_jobs(rel@), (old(files)@, old(inserted)@, old(cands)@),
            (final(files)@, final(inserted)@, final(cands)@)),
{
    let ghost files0 = files@;
    let ghost c0 = cands@;
    let ghost inc = rel@;
    let ghost i0 = inserted@;
    let ghost ids = ids0@.to_set();
    let ghost mut states: Seq<BuildState> = seq![(files@, inserted@, cands@)];
    let ghost mut done: Seq<Job> = Seq::empty();
    assert(c0.subrange(0, c0.len() as int) =~= c0);
    assert(inc.subrange(0, 0) =~= Seq::<(SymbolLocation, Vec<SymbolLocation>)>::empty());
    let mut i: usize = 0;
    while i < rel.len()
        invariant
            files_wf(files0),
            files_wf(files@),
            same_files(files0, files@),
            files0 == old(files)@,
            c0 == old(cands)@,
            inc == rel@,
            0 <= i <= inc.len(),
            i0 == old(inserted)@,
            ids == ids0@.to_set(),
            runs(files0, ids, done, states),
            states[0] == (files0, i0, c0),
            states.last() == (files@, inserted@, cands@),
            done == impl_jobs(inc.subrange(0, i as int)),
            extends(c0, cands@),
            forall|k: int| c0.len() <= k < cands@.len() ==> impl_edge(files0, inc, (#[trigger] cands@[k]).from, cands@[k].to)
                && cands@[k].classes@ == set![CssClass::Impl],
            forall|a: int, b: int| 0 <= a < i && 0 <= b < inc[a].1@.len() ==> covered(
                cands@, ids0@.to_set(), ids0@.to_set(),
                symbol_location_id(files0, #[trigger] inc[a].1@[b]), symbol_location_id(files0, inc[a].0)),
        decreases inc.len() - i,
    {
        proof {
            lemma_same_files(files0, files@);
        }
        let target = resolve(files, rel[i].0.path.as_str(), rel[i].0.line, rel[i].0.character);
        let n = rel[i].1.len();
        let mut j: usize = 0;
        assert(inc[i as int].1@.subrange(0, 0).map_values(|l: SymbolLocation| Job::Implementor(l, inc[i as int].0))
            =~= Seq::<Job>::empty());
        assert(done + Seq::<Job>::empty() =~= done);
        while j < n
            invariant
                files_wf(files0),
                files_wf(files@),
                same_files(files0, files@),
                files0 == old(files)@,
                c0 == old(cands)@,
                inc == rel@,
                0 <= i < inc.len(),
                i0 == old(inserted)@,
                ids == ids0@.to_set(),
                runs(files0, ids, done, states),
                states[0] == (files0, i0, c0),
                states.last() == (files@, inserted@, cands@),
                done == impl_jobs(inc.subrange(0, i as int))
                    + inc[i as int].1@.subrange(0, j as int).map_values(|l: SymbolLocation| Job::Implementor(l, inc[i as int].0)),
                n == inc[i as int].1@.len(),
                0 <= j <= n,
                target == symbol_location_id(files0, inc[i as int].0),
                extends(c0, cands@),
                forall|k: int| c0.len() <= k < cands@.len() ==> impl_edge(files0, inc, (#[trigger] cands@[k]).from, cands@[k].to)
                && cands@[k].classes@ == set![CssClass::Impl],
                forall|a: int, b: int| 0 <= a < i && 0 <= b < inc[a].1@.len() ==> covered(
                    cands@, ids0@.to_set(), ids0@.to_set(),
                    symbol_location_id(files0, #[trigger] inc[a].1@[b]), symbol_location_id(files0, inc[a].0)),
                forall|b: int| 0 <= b < j ==> covered(
                    cands@, ids0@.to_set(), ids0@.to_set(),
                    symbol_location_id(files0, #[trigger] inc[i as int].1@[b]), symbol_location_id(files0, inc[i as int].0)),
            decreases n - j,
        {
            proof {
                lemma_same_files(files0, files@);
            }
            let ghost pre = cands@;
            let ghost st = (files@, inserted@, cands@);
            let item = &rel[i].1[j];
            let source = resolve(files, item.path.as_str(), item.line, item.character);
            match (source, target) {
                (Some(from), Some(to)) => {
                    if has_id(ids0, to) && has_id(ids0, from) {
                        let classes = CssClasses::new().with(CssClass::Impl);
                        assert(classes@ =~= set![CssClass::Impl]);
                        cands.push(Edge { from, to, classes });
                    }
                },
                _ => {},
            }
            proof {
                let s2 = (files@, inserted@, cands@);
                let job = Job::Implementor(inc[i as int].1@[j as int], inc[i as int].0);
                assert(inc[i as int].1@[j as int] == *item);
                if cands@.len() > pre.len() {
                    assert(cands@.drop_last() =~= pre);
                }
                assert(step(files0, ids, st, s2, job));
                let old_states = states;
                let old_done = done;
                states = states.push(s2);
                done = done.push(job);
                assert forall|k: int| 0 <= k < done.len() implies step(files0, ids, states[k], states[k + 1], #[trigger] done[k]) by {
                    if k < old_done.len() {
                        assert(done[k] == old_done[k]);
                        assert(states[k] == old_states[k]);
                        assert(states[k + 1] == old_states[k + 1]);
                    }
                }
                assert(done =~= impl_jobs(inc.subrange(0, i as int))
                    + inc[i as int].1@.subrange(0, j + 1).map_values(|l: SymbolLocation| Job::Implementor(l, inc[i as int].0)));
                lemma_same_files(files0, files@);
                assert(extends(pre, cands@)) by {
                    assert(cands@.subrange(0, pre.len() as int) =~= pre);
                }
                assert(extends(c0, cands@)) by {
                    assert forall|k: int| 0 <= k < c0.len() implies cands@[k] == c0[k] by {
                        assert(cands@.subrange(0, pre.len() as int)[k] == pre[k]);
                        assert(pre.subrange(0, c0.len() as int)[k] == c0[k]);
                    }
                    assert(cands@.subrange(0, c0.len() as int) =~= c0);
                }
                assert forall|k: int| c0.len() <= k < cands@.len() implies impl_edge(files0, inc, (#[trigger] cands@[k]).from, cands@[k].to)
                    && cands@[k].classes@ == set![CssClass::Impl] by {
                    if k < pre.len() {
                        assert(cands@[k] == pre[k]);
                    } else {
                        assert(inc[i as int].1@[j as int] == *item);
                    }
                }
                assert forall|a: int, b: int| 0 <= a < i && 0 <= b < inc[a].1@.len() implies covered(
                    cands@, ids0@.to_set(), ids0@.to_set(),
                    symbol_location_id(files0, #[trigger] inc[a].1@[b]), symbol_location_id(files0, inc[a].0)) by {
                    lemma_covered_extends(pre, cands@, ids0@.to_set(), symbol_location_id(files0, inc[a].1@[b]), symbol_location_id(files0, inc[a].0));
                }
                assert forall|b: int| 0 <= b < j + 1 implies covered(
                    cands@, ids0@.to_set(), ids0@.to_set(),
                    symbol_location_id(files0, #[trigger] inc[i as int].1@[b]), symbol_location_id(files0, inc[i as int].0)) by {
                    if b < j {
                        lemma_covered_extends(pre, cands@, ids0@.to_set(), symbol_location_id(files0, inc[i as int].1@[b]), symbol_location_id(files0, inc[i as int].0));
                    } else {
                        assert(inc[i as int].1@[b] == *item);
                        if cands@.len() > pre.len() {
                            assert(edge_key(cands@[cands@.len() - 1]) == (source->0, target->0));
                        }
                    }
                }
            }
            j = j + 1;
        }
        proof {
            assert(inc[i as int].1@.subrange(0, n as int) =~= inc[i as int].1@);
            let cur = inc.subrange(0, i + 1);
            assert(cur.drop_last() =~= inc.subrange(0, i as int));
            assert(cur.last() == inc[i as int]);
        }
        i = i + 1;
    }
    proof {
        assert(inc.subrange(0, inc.len() as int) =~= inc);
    }
}

/// An edge of the built graph joins two drawn cells of the files after
/// grafting, and a relation recorded before building names it: a call, and
/// the edge has no class, or an implementation, and the edge is marked so.
pub open spec fn edge_ok(before: GraphGenerator, after: GraphGenerator, e: Edge) -> bool {
    &&& files_ids(after.lang(), after.files()).contains(e.from)
    &&& files_ids(after.lang(), after.files()).contains(e.to)
    &&& ((incoming_edge(before.files(), before.incoming(), e.from, e.to)
        || outgoing_edge(before.files(), before.outgoing(), e.from, e.to)) && e.classes@ == Set::<CssClass>::empty()
        || impl_edge(before.files(), before.interfaces(), e.from, e.to) && e.classes@ == set![CssClass::Impl])
}

/// The graph handed to a renderer.
pub struct Graph {
    pub tables: Vec<TableNode>,
    pub edges: Vec<Edge>,
    pub subgraphs: Vec<Subgraph>,
}

/// The positions lit in the file with id `id`.
pub open spec fn lit_set(h: Seq<CellId>, id: u32) -> Set<(u32, u32)> {
    Set::new(|p: (u32, u32)| h.contains((id, p.0, p.1)))
}

fn lit_positions(h: &Vec<CellId>, id: u32) -> (r: Vec<(u32, u32)>)
    ensures
        r@.to_set() == lit_set(h@, id),
{
    let mut r: Vec<(u32, u32)> = Vec::new();
    let mut i: usize = 0;
    while i < h.len()
        invariant
            i <= h@.len(),
            forall|p: (u32, u32)| r@.contains(p) <==> exists|j: int| 0 <= j < i && h@[j] == (id, p.0, p.1),
        decreases h@.len() - i,
    {
        let ghost pre = r@;
        if h[i].0 == id {
            r.push((h[i].1, h[i].2));
        }
        proof {
            assert forall|p: (u32, u32)| r@.contains(p) <==> exists|j: int| 0 <= j < i + 1 && h@[j] == (id, p.0, p.1) by {
                if r@.contains(p) {
                    let k = choose|k: int| 0 <= k < r@.len() && r@[k] == p;
                    if k < pre.len() {
                        assert(pre[k] == p);
                        assert(pre.contains(p));
                        let j = choose|j: int| 0 <= j < i && h@[j] == (id, p.0, p.1);
                        assert(0 <= j < i + 1 && h@[j] == (id, p.0, p.1));
                    } else {
                        assert(h@[i as int] == (id, p.0, p.1));
                    }
                }
                if exists|j: int| 0 <= j < i + 1 && h@[j] == (id, p.0, p.1) {
                    let j = choose|j: int| 0 <= j < i + 1 && h@[j] == (id, p.0, p.1);
                    if j < i {
                        assert(exists|j: int| 0 <= j < i && h@[j] == (id, p.0, p.1));
                        assert(pre.contains(p));
                        let k = choose|k: int| 0 <= k < pre.len() && pre[k] == p;
                        assert(r@[k] == p);
                    } else {
                        assert(r@[r@.len() - 1] == p);
                    }
                }
            }
        }
        i = i + 1;
    }
    assert(r@.to_set() =~= lit_set(h@, id));
    r
}

/// `g` is the graph built from the model `before`, which grafting turned into
/// `after`. The candidate work (`all_jobs`) runs from the files before to the
/// files after, grafting only where a step says so; the edges are its
/// candidates between cells drawn after, the first of each pair of endpoints
/// kept. The tables are those of the files after, and the clusters those of
/// their directories. The clauses after the first spell out what follows for
/// each edge and each recorded relation.
pub open spec fn graph_of(before: GraphGenerator, after: GraphGenerator, g: Graph) -> bool {
    &&& exists|end: BuildState|
        #[trigger] ran(
            before.files(),
            files_ids(before.lang(), before.files()),
            all_jobs(before),
            (before.files(), Seq::<CellId>::empty(), Seq::<Edge>::empty()),
            end,
        ) && end.0 == after.files() && g.edges@ == dedup_first(resolved(end.2, files_ids(after.lang(), after.files())))
    &&& same_files(before.files(), after.files())
    &&& after.root() == before.root()
    &&& after.lang() == before.lang()
    &&& after.incoming() == before.incoming()
    &&& after.outgoing() == before.outgoing()
    &&& after.interfaces() == before.interfaces()
    &&& after.highlights() == before.highlights()
    &&& g.tables@.len() == after.files().len()
    &&& clusters_of(after.root(), after.files(), g.subgraphs@)
    &&& forall|k: int| 0 <= k < g.tables@.len() ==> table_of(
            after.lang(),
            lit_set(after.highlights(), after.files()[k].id),
            after.files()[k],
            #[trigger] g.tables@[k],
        )
    &&& forall|k: int| 0 <= k < g.edges@.len() ==> edge_ok(before, after, #[trigger] g.edges@[k])
    &&& forall|a: int, b: int| 0 <= a < b < g.edges@.len() ==> edge_key(#[trigger] g.edges@[a]) != edge_key(#[trigger] g.edges@[b])
    &&& forall|i: int, j: int| 0 <= i < before.incoming().len() && 0 <= j < before.incoming()[i].1@.len() ==> covered(
            g.edges@,
            files_ids(before.lang(), before.files()),
            files_ids(after.lang(), after.files()),
            item_id(before.files(), (#[trigger] before.incoming()[i].1@[j]).from),
            symbol_location_id(before.files(), before.incoming()[i].0),
        )
    &&& forall|i: int, j: int| 0 <= i < before.outgoing().len() && 0 <= j < before.outgoing()[i].1@.len() ==> covered(
            g.edges@,
            files_ids(before.lang(), before.files()),
            files_ids(after.lang(), after.files()),
            symbol_location_id(before.files(), before.outgoing()[i].0),
            item_id(before.files(), (#[trigger] before.outgoing()[i].1@[j]).to),
        )
    &&& forall|i: int, j: int| 0 <= i < before.interfaces().len() && 0 <= j < before.interfaces()[i].1@.len() ==> covered(
            g.edges@,
            files_ids(before.lang(), before.files()),
            files_ids(after.lang(), after.files()),
            symbol_location_id(before.files(), #[trigger] before.interfaces()[i].1@[j]),
            symbol_location_id(before.files(), before.interfaces()[i].0),
        )
}

/// No edge of a built graph touches a cell that is not drawn (a symbol that
/// the language's policy filters out, or a file outside the analysis), and no
/// two edges join the same endpoints, however often a relation between them
/// was recorded.
pub proof fn lemma_edges_drawn_and_distinct(before: GraphGenerator, after: GraphGenerator, g: Graph, x: CellId, from: CellId, to: CellId)
    requires
        graph_of(before, after, g),
    ensures
        !files_ids(after.lang(), after.files()).contains(x) ==> forall|k: int|
            0 <= k < g.edges@.len() ==> (#[trigger] g.edges@[k]).from != x && g.edges@[k].to != x,
        forall|a: int, b: int|
            0 <= a < g.edges@.len() && 0 <= b < g.edges@.len() && edge_key(#[trigger] g.edges@[a]) == (from, to)
                && edge_key(#[trigger] g.edges@[b]) == (from, to) ==> a == b,
{
    assert forall|k: int| 0 <= k < g.edges@.len() implies edge_ok(before, after, #[trigger] g.edges@[k]) by {}
    assert forall|a: int, b: int|
        0 <= a < g.edges@.len() && 0 <= b < g.edges@.len() && edge_key(#[trigger] g.edges@[a]) == (from, to)
            && edge_key(#[trigger] g.edges@[b]) == (from, to) implies a == b by {
        if a < b {
            assert(edge_key(g.edges@[a]) != edge_key(g.edges@[b]));
        } else if b < a {
            assert(edge_key(g.edges@[b]) != edge_key(g.edges@[a]));
        }
    }
}

/// File ids by path: a path gets the next id the first time it is inserted,
/// and keeps it.
pub struct PathMap {
    map: Vec<(String, u32)>,
    next_id: u32,
}

impl PathMap {
    pub closed spec fn entries(&self) -> Seq<(Seq<char>, u32)> {
        self.map@.map_values(|e: (String, u32)| (e.0@, e.1))
    }

    /// Paths distinct; ids 1, 2, 3, ... in order of first insertion.
    pub closed spec fn wf(&self) -> bool {
        &&& forall|a: int, b: int| 0 <= a < b < self.map@.len() ==> (#[trigger] self.map@[a]).0@ != (#[trigger] self.map@[b]).0@
        &&& forall|k: int| 0 <= k < self.map@.len() ==> (#[trigger] self.map@[k]).1 == k + 1
        &&& self.next_id == self.map@.len() + 1
    }

    pub fn new() -> (r: PathMap)
        ensures
            r.wf(),
            r.entries().len() == 0,
    {
        PathMap { map: Vec::new(), next_id: 1 }
    }

    /// The id of a path, given at its first insertion; none once ids run out.
    pub fn insert(&mut self, path: String) -> (r: Option<u32>)
        requires
            old(self).wf(),
        ensures
            final(self).wf(),
            (exists|k: int| 0 <= k < old(self).entries().len() && #[trigger] old(self).entries()[k].0 == path@)
                ==> final(self).entries() == old(self).entries()
                    && r == Some(old(self).entries()[choose|k: int| 0 <= k < old(self).entries().len() && #[trigger] old(self).entries()[k].0 == path@].1),
            !(exists|k: int| 0 <= k < old(self).entries().len() && #[trigger] old(self).entries()[k].0 == path@)
                && old(self).entries().len() + 1 < u32::MAX
                ==> final(self).entries() == old(self).entries().push((path@, (old(self).entries().len() + 1) as u32))
                    && r == Some((old(self).entries().len() + 1) as u32),
            !(exists|k: int| 0 <= k < old(self).entries().len() && #[trigger] old(self).entries()[k].0 == path@)
                && old(self).entries().len() + 1 >= u32::MAX ==> final(self).entries() == old(self).entries() && r is None,
    {
        let mut i: usize = 0;
        while i < self.map.len()
            invariant
                i <= self.map@.len(),
                self.wf(),
                self.map@ == old(self).map@,
                self.next_id == old(self).next_id,
                forall|k: int| 0 <= k < i ==> (#[trigger] self.map@[k]).0@ != path@,
            decreases self.map@.len() - i,
        {
            if str_eq(self.map[i].0.as_str(), path.as_str()) {
                proof {
                    let e = self.entries();
                    assert(e[i as int].0 == path@);
                    let c = choose|k: int| 0 <= k < e.len() && #[trigger] e[k].0 == path@;
                    if c != i {
                        if c < i {
                            assert(self.map@[c].0@ == path@);
                        } else {
                            assert(self.map@[i as int].0@ != self.map@[c].0@);
                        }
                    }
                }
                return Some(self.map[i].1);
            }
            i = i + 1;
        }
        proof {
            assert forall|k: int| !(0 <= k < self.entries().len() && #[trigger] self.entries()[k].0 == path@) by {
                if 0 <= k < self.entries().len() {
                    assert(self.entries()[k].0 == self.map@[k].0@);
                }
            }
        }
        if self.next_id >= u32::MAX {
            return None;
        }
        let id = self.next_id;
        let ghost pv = path@;
        self.map.push((path, id));
        self.next_id = self.next_id + 1;
        proof {
            assert(self.entries() =~= old(self).entries().push((pv, id)));
            assert forall|a: int, b: int| 0 <= a < b < self.map@.len() implies (#[trigger] self.map@[a]).0@ != (#[trigger] self.map@[b]).0@ by {
                if b == self.map@.len() - 1 {
                    assert(self.map@[a] == old(self).map@[a]);
                } else {
                    assert(self.map@[a] == old(self).map@[a]);
                    assert(self.map@[b] == old(self).map@[b]);
                }
            }
        }
        Some(id)
    }

    /// The id of a path, if it was inserted.
    pub fn get(&self, path: &str) -> (r: Option<u32>)
        requires
            self.wf(),
        ensures
            r matches Some(id) ==> exists|k: int| 0 <= k < self.entries().len() && #[trigger] self.entries()[k] == (path@, id),
            r is None ==> forall|k: int| 0 <= k < self.entries().len() ==> (#[trigger] self.entries()[k]).0 != path@,
    {
        let mut i: usize = 0;
        while i < self.map.len()
            invariant
                i <= self.map@.len(),
                forall|k: int| 0 <= k < i ==> (#[trigger] self.map@[k]).0@ != path@,
            decreases self.map@.len() - i,
        {
            if str_eq(self.map[i].0.as_str(), path) {
                assert(self.entries()[i as int] == (path@, self.map@[i as int].1));
                return Some(self.map[i].1);
            }
            i = i + 1;
        }
        proof {
            assert forall|k: int| 0 <= k < self.entries().len() implies (#[trigger] self.entries()[k]).0 != path@ by {
                assert(self.entries()[k].0 == self.map@[k].0@);
            }
        }
        None
    }
}

/// The symbol model of one analysis: the files with their outlines, the
/// relations recorded between symbols, and the highlighted symbols.
pub struct GraphGenerator {
    root: String,
    files: Vec<FileOutline>,
    next_file_id: u32,
    lang: Lang,
    incoming_calls: Vec<(SymbolLocation, Vec<CallHierarchyIncomingCall>)>,
    outgoing_calls: Vec<(SymbolLocation, Vec<CallHierarchyOutgoingCall>)>,
    interfaces: Vec<(SymbolLocation, Vec<SymbolLocation>)>,
    highlights: Vec<CellId>,
}

impl GraphGenerator {
    pub closed spec fn root(&self) -> Seq<char> {
        self.root@
    }

    pub closed spec fn files(&self) -> Seq<FileOutline> {
        self.files@
    }

    pub closed spec fn lang(&self) -> Lang {
        self.lang
    }

    pub closed spec fn incoming(&self) -> Seq<(SymbolLocation, Vec<CallHierarchyIncomingCall>)> {
        self.incoming_calls@
    }

    pub closed spec fn outgoing(&self) -> Seq<(SymbolLocation, Vec<CallHierarchyOutgoingCall>)> {
        self.outgoing_calls@
    }

    pub closed spec fn interfaces(&self) -> Seq<(SymbolLocation, Vec<SymbolLocation>)> {
        self.interfaces@
    }

    /// The highlighted cells, as (file id, line, character).
    pub closed spec fn highlights(&self) -> Seq<CellId> {
        self.highlights@
    }

    pub closed spec fn wf(&self) -> bool {
        &&& files_wf(self.files@)
        &&& self.next_file_id == self.files@.len() + 1
        &&& keys_unique(self.incoming_calls@)
        &&& keys_unique(self.outgoing_calls@)
        &&& keys_unique(self.interfaces@)
    }

    /// An empty model for the project at `root`, with the policy of language `lang`.
    pub fn new(root: String, lang: &str) -> (r: GraphGenerator)
        ensures
            r.wf(),
            r.root() == root@,
            r.files().len() == 0,
            r.incoming().len() == 0,
            r.outgoing().len() == 0,
            r.interfaces().len() == 0,
            r.highlights().len() == 0,
            r.lang() == language_handler_spec(lang@),
    {
        GraphGenerator {
            root,
            files: Vec::new(),
            next_file_id: 1,
            lang: language_handler(lang),
            incoming_calls: Vec::new(),
            outgoing_calls: Vec::new(),
            interfaces: Vec::new(),
            highlights: Vec::new(),
        }
    }

    pub fn should_filter_out_file(&self, file_path: &str) -> (r: bool)
        ensures
            r == self.lang().skips_file(file_path@),
    {
        self.lang.should_filter_out_file(file_path)
    }

    /// Adds a file's outline: under the next id the first time its path is
    /// seen; on a path seen before, the outline replaces the old one (no merge)
    /// and the file keeps its id. Refused (and nothing changes) where the
    /// language skips the file, or where a new file needs an id and none is left.
    /// The outline is kept as given: grafting into it (see `build`) takes place
    /// only where every level is in order of selection start.
    pub fn add_file(&mut self, file_path: String, symbols: Vec<DocumentSymbol>) -> (r: bool)
        requires
            old(self).wf(),
        ensures
            final(self).wf(),
            r == (!old(self).lang().skips_file(file_path@)
                && (file_index(old(self).files(), file_path@) is Some || old(self).files().len() + 1 < u32::MAX)),
            r && file_index(old(self).files(), file_path@) is None ==> final(self).files().len() == old(self).files().len() + 1
                && final(self).files().subrange(0, old(self).files().len() as int) == old(self).files()
                && final(self).files().last().path == file_path
                && final(self).files().last().symbols == symbols
                && final(self).files().last().id == old(self).files().len() + 1,
            r && file_index(old(self).files(), file_path@) is Some ==> {
                let k = file_index(old(self).files(), file_path@)->0;
                &&& final(self).files().len() == old(self).files().len()
                &&& forall|m: int| 0 <= m < old(self).files().len() && m != k ==> final(self).files()[m] == old(self).files()[m]
                &&& final(self).files()[k].id == old(self).files()[k].id
                &&& final(self).files()[k].path == old(self).files()[k].path
                &&& final(self).files()[k].symbols == symbols
            },
            !r ==> final(self).files() == old(self).files(),
            final(self).root() == old(self).root(),
            final(self).lang() == old(self).lang(),
            final(self).incoming() == old(self).incoming(),
            final(self).outgoing() == old(self).outgoing(),
            final(self).interfaces() == old(self).interfaces(),
            final(self).highlights() == old(self).highlights(),
    {
        if self.lang.should_filter_out_file(file_path.as_str()) {
            return false;
        }
        let ghost before = self.files@;
        match find_file(&self.files, file_path.as_str()) {
            Some(k) => {
                let old_file = self.files.remove(k);
                let file = FileOutline { id: old_file.id, path: old_file.path, symbols };
                self.files.insert(k, file);
                proof {
                    assert(self.files@ =~= before.update(k as int, file));
                    assert(same_files(before, self.files@));
                    lemma_same_files(before, self.files@);
                }
                return true;
            },
            None => {},
        }
        if self.next_file_id >= u32::MAX {
            return false;
        }
        let file = FileOutline { id: self.next_file_id, path: file_path, symbols };
        self.files.push(file);
        self.next_file_id = self.next_file_id + 1;
        proof {
            assert(self.files@.subrange(0, before.len() as int) =~= before);
            assert forall|a: int, b: int| 0 <= a < b < self.files@.len() implies (#[trigger] self.files@[a]).path@
                != (#[trigger] self.files@[b]).path@ by {
                if b == before.len() {
                    assert(self.files@[a] == before[a]);
                    assert(before[a].path@ != file_path@);
                }
            }
        }
        true
    }

    /// Records the callers of the symbol at `position` of `file_path`,
    /// replacing what was recorded there before.
    pub fn add_incoming_calls(&mut self, file_path: String, position: Position, calls: Vec<CallHierarchyIncomingCall>)
        requires
            old(self).wf(),
        ensures
            final(self).wf(),
            upserted(old(self).incoming(), final(self).incoming(), SymbolLocation { path: file_path, line: position.line, character: position.character }, calls),
            final(self).files() == old(self).files(),
            final(self).root() == old(self).root(),
            final(self).lang() == old(self).lang(),
            final(self).outgoing() == old(self).outgoing(),
            final(self).interfaces() == old(self).interfaces(),
            final(self).highlights() == old(self).highlights(),
    {
        let location = SymbolLocation::new(file_path, &position);
        upsert(&mut self.incoming_calls, location, calls);
    }

    /// Records the callees of the symbol at `position` of `file_path`,
    /// replacing what was recorded there before.
    pub fn add_outgoing_calls(&mut self, file_path: String, position: Position, calls: Vec<CallHierarchyOutgoingCall>)
        requires
            old(self).wf(),
        ensures
            final(self).wf(),
            upserted(old(self).outgoing(), final(self).outgoing(), SymbolLocation { path: file_path, line: position.line, character: position.character }, calls),
            final(self).files() == old(self).files(),
            final(self).root() == old(self).root(),
            final(self).lang() == old(self).lang(),
            final(self).incoming() == old(self).incoming(),
            final(self).interfaces() == old(self).interfaces(),
            final(self).highlights() == old(self).highlights(),
    {
        let location = SymbolLocation::new(file_path, &position);
        upsert(&mut self.outgoing_calls, location, calls);
    }

    /// Records the implementations of the interface at `position` of
    /// `file_path`, each as the start of its location, replacing what was
    /// recorded there before.
    pub fn add_interface_implementations(&mut self, file_path: String, position: Position, locations: Vec<Location>)
        requires
            old(self).wf(),
        ensures
            final(self).wf(),
            exists|impls: Vec<SymbolLocation>|
                #[trigger] upserted(old(self).interfaces(), final(self).interfaces(), SymbolLocation { path: file_path, line: position.line, character: position.character }, impls)
                && impls@.len() == locations@.len()
                && forall|k: int| 0 <= k < locations@.len() ==> loc_key(#[trigger] impls@[k])
                    == (locations@[k].uri.path@, locations@[k].range.start.line, locations@[k].range.start.character),
            final(self).files() == old(self).files(),
            final(self).root() == old(self).root(),
            final(self).lang() == old(self).lang(),
            final(self).incoming() == old(self).incoming(),
            final(self).outgoing() == old(self).outgoing(),
            final(self).highlights() == old(self).highlights(),
    {
        let location = SymbolLocation::new(file_path, &position);
        let ghost ls = locations@;
        let mut implementations: Vec<SymbolLocation> = Vec::new();
        let mut rest = locations;
        while rest.len() > 0
            invariant
                rest@ == ls.subrange(implementations@.len() as int, ls.len() as int),
                implementations@.len() <= ls.len(),
                forall|k: int| 0 <= k < implementations@.len() ==> #[trigger] loc_key(implementations@[k])
                    == (ls[k].uri.path@, ls[k].range.start.line, ls[k].range.start.character),
            decreases rest.len(),
        {
            let l = rest.remove(0);
            implementations.push(SymbolLocation::new(l.uri.path, &l.range.start));
        }
        let ghost impls = implementations;
        let ghost key = location;
        upsert(&mut self.interfaces, location, implementations);
        assert(key == SymbolLocation { path: file_path, line: position.line, character: position.character });
        assert(upserted(old(self).interfaces(), self.interfaces@, key, impls)
            && impls@.len() == ls.len()
            && forall|k: int| 0 <= k < ls.len() ==> #[trigger] loc_key(impls@[k])
                == (ls[k].uri.path@, ls[k].range.start.line, ls[k].range.start.character));
        assert(ls == locations@);
        assert(self.interfaces@ == final(self).interfaces());
    }

    /// Builds the graph: one table per file, and the edges that the recorded
    /// relations name between drawn cells, each pair of endpoints once (the
    /// first found wins: callers, then callees, then implementations). A caller
    /// or callee that a file's outline lacks is first grafted into it where a
    /// callable symbol of that file contains it.
    pub fn build(&mut self) -> (g: Graph)
        requires
            old(self).wf(),
        ensures
            final(self).wf(),
            graph_of(*old(self), *final(self), g),
    {
        let ghost files0 = self.files@;
        let ids0 = collect_file_ids(&self.lang, &self.files);
        let mut inserted: Vec<CellId> = Vec::new();
        let mut cands: Vec<Edge> = Vec::new();
        let ghost st0: BuildState = (self.files@, inserted@, cands@);
        collect_incoming(&mut self.files, &self.incoming_calls, &ids0, &mut inserted, &mut cands);
        let ghost files1 = self.files@;
        let ghost c1 = cands@;
        let ghost st1: BuildState = (self.files@, inserted@, cands@);
        collect_outgoing(&mut self.files, &self.outgoing_calls, &ids0, &mut inserted, &mut cands);
        let ghost files2 = self.files@;
        let ghost c2 = cands@;
        let ghost st2: BuildState = (self.files@, inserted@, cands@);
        collect_impls(&mut self.files, &self.interfaces, &ids0, &mut inserted, &mut cands);
        let ghost c3 = cands@;
        let ghost st3: BuildState = (self.files@, inserted@, cands@);
        proof {
            let ids = ids0@.to_set();
            lemma_same_files(files0, files1);
            lemma_ran_same_files(files0, files1, ids, outgoing_jobs(self.outgoing_calls@), st1, st2);
            lemma_same_files(files1, files2);
            assert(same_files(files0, files2));
            lemma_ran_same_files(files0, files2, ids, impl_jobs(self.interfaces@), st2, st3);
            lemma_ran_concat(files0, ids, incoming_jobs(self.incoming_calls@), outgoing_jobs(self.outgoing_calls@), st0, st1, st2);
            lemma_ran_concat(files0, ids, incoming_jobs(self.incoming_calls@) + outgoing_jobs(self.outgoing_calls@),
                impl_jobs(self.interfaces@), st0, st2, st3);
            assert(st0 == (files0, Seq::<CellId>::empty(), Seq::<Edge>::empty()));
            assert(ids =~= files_ids(self.lang, files0));
        }
        proof {
            lemma_same_files(files0, files1);
            lemma_same_files(files1, files2);
            lemma_same_files(files2, self.files@);
            assert(same_files(files0, self.files@));
            lemma_same_files(files0, self.files@);
        }
        let ids1 = collect_file_ids(&self.lang, &self.files);
        let kept = filter_resolved(cands, &ids1);
        let ghost kept_view = kept@;
        let edges = dedup_edges(kept);
        proof {
            let fin = *self;
            assert forall|k: int| 0 <= k < edges@.len() implies edge_ok(*old(self), fin, #[trigger] edges@[k]) by {
                let e = edges@[k];
                assert(kept_view.contains(e));
                let m = choose|m: int| 0 <= m < kept_view.len() && kept_view[m] == e;
                assert(c3.contains(e));
                let c = choose|c: int| 0 <= c < c3.len() && c3[c] == e;
                assert(ids1@.contains(e.from) && ids1@.contains(e.to));
                if c < c1.len() {
                    assert(c3.subrange(0, c2.len() as int)[c] == c2[c]);
                    assert(c2.subrange(0, c1.len() as int)[c] == c1[c]);
                    assert(incoming_edge(files0, self.incoming_calls@, c1[c].from, c1[c].to));
                } else if c < c2.len() {
                    assert(c3.subrange(0, c2.len() as int)[c] == c2[c]);
                    assert(outgoing_edge(files1, self.outgoing_calls@, c2[c].from, c2[c].to));
                } else {
                    assert(impl_edge(files2, self.interfaces@, c3[c].from, c3[c].to));
                }
            }
            let b0 = ids0@.to_set();
            let b1 = ids1@.to_set();
            assert(b0 =~= files_ids(self.lang, files0));
            assert(b1 =~= files_ids(self.lang, self.files@));
            assert forall|from: Option<CellId>, to: Option<CellId>| covered(c3, b0, b0, from, to) implies #[trigger] covered(edges@, b0, b1, from, to) by {
                if from is Some && to is Some && b0.contains(from->0) && b0.contains(to->0) && b1.contains(from->0) && b1.contains(to->0) {
                    let k = choose|k: int| 0 <= k < c3.len() && edge_key(#[trigger] c3[k]) == (from->0, to->0);
                    assert(kept_view.contains(c3[k]));
                    let m = choose|m: int| 0 <= m < kept_view.len() && kept_view[m] == c3[k];
                    let j = choose|j: int| 0 <= j < edges@.len() && edge_key(#[trigger] edges@[j]) == edge_key(kept_view[m]);
                    assert(edge_key(edges@[j]) == (from->0, to->0));
                }
            }
            assert forall|i: int, j: int| 0 <= i < self.incoming_calls@.len() && 0 <= j < self.incoming_calls@[i].1@.len() implies covered(
                c3, b0, b0,
                item_id(files0, (#[trigger] self.incoming_calls@[i].1@[j]).from),
                symbol_location_id(files0, self.incoming_calls@[i].0)) by {
                lemma_covered_extends(c1, c2, b0, item_id(files0, self.incoming_calls@[i].1@[j].from), symbol_location_id(files0, self.incoming_calls@[i].0));
                lemma_covered_extends(c2, c3, b0, item_id(files0, self.incoming_calls@[i].1@[j].from), symbol_location_id(files0, self.incoming_calls@[i].0));
            }
            assert forall|i: int, j: int| 0 <= i < self.outgoing_calls@.len() && 0 <= j < self.outgoing_calls@[i].1@.len() implies covered(
                c3, b0, b0,
                symbol_location_id(files0, self.outgoing_calls@[i].0),
                item_id(files0, (#[trigger] self.outgoing_calls@[i].1@[j]).to)) by {
                assert(covered(c2, b0, b0, symbol_location_id(files1, self.outgoing_calls@[i].0), item_id(files1, self.outgoing_calls@[i].1@[j].to)));
                lemma_covered_extends(c2, c3, b0, symbol_location_id(files0, self.outgoing_calls@[i].0), item_id(files0, self.outgoing_calls@[i].1@[j].to));
            }
            assert forall|i: int, j: int| 0 <= i < self.interfaces@.len() && 0 <= j < self.interfaces@[i].1@.len() implies covered(
                c3, b0, b0,
                symbol_location_id(files0, #[trigger] self.interfaces@[i].1@[j]),
                symbol_location_id(files0, self.interfaces@[i].0)) by {
                assert(covered(c3, b0, b0, symbol_location_id(files2, self.interfaces@[i].1@[j]), symbol_location_id(files2, self.interfaces@[i].0)));
            }
        }
        let mut tables: Vec<TableNode> = Vec::new();
        let mut k: usize = 0;
        while k < self.files.len()
            invariant
                k <= self.files@.len(),
                tables@.len() == k,
                forall|m: int| 0 <= m < k ==> table_of(self.lang, lit_set(self.highlights@, self.files@[m].id), self.files@[m], #[trigger] tables@[m]),
            decreases self.files@.len() - k,
        {
            let hl = lit_positions(&self.highlights, self.files[k].id);
            let t = file_repr(&self.lang, &hl, &self.files[k]);
            let ghost pre = tables@;
            tables.push(t);
            proof {
                assert forall|m: int| 0 <= m < k + 1 implies table_of(self.lang, lit_set(self.highlights@, self.files@[m].id), self.files@[m], #[trigger] tables@[m]) by {
                    if m < k {
                        assert(tables@[m] == pre[m]);
                    }
                }
            }
            k = k + 1;
        }
        let subgraphs = subgraphs(&self.root, &self.files);
        proof {
            let start = (old(self).files@, Seq::<CellId>::empty(), Seq::<Edge>::empty());
            assert(ids1@.to_set() =~= files_ids(self.lang, self.files@));
            assert(all_jobs(*old(self)) == incoming_jobs(self.incoming_calls@) + outgoing_jobs(self.outgoing_calls@)
                + impl_jobs(self.interfaces@));
            assert(ran(old(self).files@, files_ids(old(self).lang, old(self).files@), all_jobs(*old(self)), start, st3));
            assert(st3.0 == self.files@);
            assert(edges@ == dedup_first(resolved(st3.2, files_ids(self.lang, self.files@))));
        }
        Graph { tables, edges, subgraphs }
    }

    /// The Graphviz source of the graph that `build` makes.
    pub fn generate_dot_source(&mut self) -> (r: String)
        requires
            old(self).wf(),
        ensures
            final(self).wf(),
            exists|g: Graph| #[trigger] graph_of(*old(self), *final(self), g)
                && r@ == dot_text(g.tables@, g.edges@, g.subgraphs@),
    {
        let g = self.build();
        generate_dot_source(&g.tables, &g.edges, &g.subgraphs)
    }

    /// Marks the symbol at `position` of `file_path` as highlighted; nothing
    /// happens for a file that is not part of the analysis.
    pub fn highlight(&mut self, file_path: String, position: Position)
        requires
            old(self).wf(),
        ensures
            final(self).wf(),
            match file_index(old(self).files(), file_path@) {
                Some(k) => final(self).highlights() == old(self).highlights().push(
                    (old(self).files()[k].id, position.line, position.character),
                ),
                None => final(self).highlights() == old(self).highlights(),
            },
            final(self).files() == old(self).files(),
            final(self).root() == old(self).root(),
            final(self).lang() == old(self).lang(),
            final(self).incoming() == old(self).incoming(),
            final(self).outgoing() == old(self).outgoing(),
            final(self).interfaces() == old(self).interfaces(),
    {
        match find_file(&self.files, file_path.as_str()) {
            None => {},
            Some(k) => {
                let id = self.files[k].id;
                self.highlights.push((id, position.line, position.character));
            },
        }
    }
}

} // verus!
