//! Cell addresses of drawn symbols, and the edge list's filtering and deduplication.

use vstd::prelude::*;
use crate::graph::{CellId, Edge};
use crate::lang::Language;
use crate::lsp_types::{DocumentSymbol, SymbolKind};
use crate::outline::FileOutline;

verus! {

/// The addresses of the drawn symbols among `ds` (all of them where `all`) and
/// of the drawn symbols nested in them, in the file with id `tid`.
pub open spec fn syms_ids<L: Language>(lang: L, tid: u32, ds: Seq<DocumentSymbol>, all: bool) -> Set<CellId>
    decreases ds,
{
    if ds.len() == 0 {
        Set::empty()
    } else {
        let d = ds.last();
        let rest = syms_ids(lang, tid, ds.drop_last(), all);
        if all || lang.keeps(d.kind, d.name@) {
            rest.insert((tid, d.selection_range.start.line, d.selection_range.start.character)).union(
                syms_ids(lang, tid, d.children@, d.kind == SymbolKind::Interface),
            )
        } else {
            rest
        }
    }
}

/// The addresses of all drawn cells of the files.
pub open spec fn files_ids<L: Language>(lang: L, fs: Seq<FileOutline>) -> Set<CellId>
    decreases fs.len(),
{
    if fs.len() == 0 {
        Set::empty()
    } else {
        files_ids(lang, fs.drop_last()).union(syms_ids(lang, fs.last().id, fs.last().symbols@, false))
    }
}

/// Whether an address is among `ids`.
pub fn has_id(ids: &Vec<CellId>, x: CellId) -> (r: bool)
    ensures
        r == ids@.contains(x),
{
    let mut i: usize = 0;
    while i < ids.len()
        invariant
            i <= ids@.len(),
            forall|k: int| 0 <= k < i ==> ids@[k] != x,
        decreases ids@.len() - i,
    {
        if ids[i].0 == x.0 && ids[i].1 == x.1 && ids[i].2 == x.2 {
            assert(ids@[i as int] == x);
            return true;
        }
        i = i + 1;
    }
    false
}

fn collect_symbol_ids<L: Language>(lang: &L, tid: u32, ds: &Vec<DocumentSymbol>, all: bool, ids: &mut Vec<CellId>)
    ensures
        forall|x: CellId| final(ids)@.contains(x) <==> (old(ids)@.contains(x) || syms_ids(*lang, tid, ds@, all).contains(x)),
    decreases ds@,
{
    let n = ds.len();
    let mut i: usize = 0;
    assert(ds@.subrange(0, 0) =~= Seq::<DocumentSymbol>::empty());
    while i < n
        invariant
            n == ds@.len(),
            i <= n,
            forall|x: CellId| ids@.contains(x) <==> (old(ids)@.contains(x) || syms_ids(*lang, tid, ds@.subrange(0, i as int), all).contains(x)),
        decreases n - i,
    {
        let d = &ds[i];
        let ghost pre = ids@;
        let ghost cur = ds@.subrange(0, i + 1);
        assert(cur.drop_last() =~= ds@.subrange(0, i as int));
        assert(cur.last() == ds@[i as int]);
        if all || lang.filter_symbol(d) {
            let x = (tid, d.selection_range.start.line, d.selection_range.start.character);
            ids.push(x);
            let ghost mid = ids@;
            proof {
                assert forall|y: CellId| mid.contains(y) <==> (pre.contains(y) || y == x) by {
                    if mid.contains(y) && y != x {
                        let k = choose|k: int| 0 <= k < mid.len() && mid[k] == y;
                        assert(pre[k] == y);
                    }
                    if pre.contains(y) {
                        let k = choose|k: int| 0 <= k < pre.len() && pre[k] == y;
                        assert(mid[k] == y);
                    }
                    assert(mid[mid.len() - 1] == x);
                }
            }
            let inner = d.kind == SymbolKind::Interface;
            collect_symbol_ids(lang, tid, &d.children, inner, ids);
            proof {
                assert(syms_ids(*lang, tid, cur, all) == syms_ids(*lang, tid, ds@.subrange(0, i as int), all).insert(x).union(
                    syms_ids(*lang, tid, d.children@, inner)));
            }
        } else {
            proof {
                assert(syms_ids(*lang, tid, cur, all) == syms_ids(*lang, tid, ds@.subrange(0, i as int), all));
            }
        }
        i = i + 1;
    }
    assert(ds@.subrange(0, n as int) =~= ds@);
}

/// The addresses of all drawn cells of the files.
pub fn collect_file_ids<L: Language>(lang: &L, files: &Vec<FileOutline>) -> (ids: Vec<CellId>)
    ensures
        forall|x: CellId| ids@.contains(x) <==> files_ids(*lang, files@).contains(x),
{
    let mut ids: Vec<CellId> = Vec::new();
    let n = files.len();
    let mut i: usize = 0;
    assert(files@.subrange(0, 0) =~= Seq::<FileOutline>::empty());
    while i < n
        invariant
            n == files@.len(),
            i <= n,
            forall|x: CellId| ids@.contains(x) <==> files_ids(*lang, files@.subrange(0, i as int)).contains(x),
        decreases n - i,
    {
        assert(files@.subrange(0, i + 1).drop_last() =~= files@.subrange(0, i as int));
        collect_symbol_ids(lang, files[i].id, &files[i].symbols, false, &mut ids);
        i = i + 1;
    }
    assert(files@.subrange(0, n as int) =~= files@);
    ids
}

pub open spec fn edge_key(e: Edge) -> (CellId, CellId) {
    (e.from, e.to)
}

/// The edges of `s` whose both endpoints are among `ids`, in order.
pub open spec fn resolved(s: Seq<Edge>, ids: Set<CellId>) -> Seq<Edge>
    decreases s.len(),
{
    if s.len() == 0 {
        s
    } else {
        let r = resolved(s.drop_last(), ids);
        if ids.contains(s.last().from) && ids.contains(s.last().to) {
            r.push(s.last())
        } else {
            r
        }
    }
}

/// The edges of `s` with every edge dropped whose endpoints an earlier edge
/// already joins: the first one found wins.
pub open spec fn dedup_first(s: Seq<Edge>) -> Seq<Edge>
    decreases s.len(),
{
    if s.len() == 0 {
        s
    } else {
        let r = dedup_first(s.drop_last());
        if exists|k: int| 0 <= k < r.len() && edge_key(#[trigger] r[k]) == edge_key(s.last()) {
            r
        } else {
            r.push(s.last())
        }
    }
}

/// Keeps the edges whose both endpoints are among `ids`.
pub fn filter_resolved(edges: Vec<Edge>, ids: &Vec<CellId>) -> (r: Vec<Edge>)
    ensures
        r@ == resolved(edges@, ids@.to_set()),
        forall|k: int| 0 <= k < r@.len() ==> edges@.contains(#[trigger] r@[k]),
        forall|k: int| 0 <= k < r@.len() ==> ids@.contains((#[trigger] r@[k]).from) && ids@.contains(r@[k].to),
        forall|k: int| 0 <= k < edges@.len() && ids@.contains((#[trigger] edges@[k]).from) && ids@.contains(edges@[k].to)
            ==> r@.contains(edges@[k]),
{
    let mut r: Vec<Edge> = Vec::new();
    let n = edges.len();
    let mut i: usize = 0;
    assert(edges@.subrange(0, 0) =~= Seq::<Edge>::empty());
    while i < n
        invariant
            n == edges@.len(),
            i <= n,
            r@ == resolved(edges@.subrange(0, i as int), ids@.to_set()),
            forall|k: int| 0 <= k < r@.len() ==> edges@.contains(#[trigger] r@[k]),
            forall|k: int| 0 <= k < r@.len() ==> ids@.contains((#[trigger] r@[k]).from) && ids@.contains(r@[k].to),
            forall|k: int| 0 <= k < i && ids@.contains((#[trigger] edges@[k]).from) && ids@.contains(edges@[k].to)
                ==> r@.contains(edges@[k]),
        decreases n - i,
    {
        let e = edges[i];
        assert(edges@.subrange(0, i + 1).drop_last() =~= edges@.subrange(0, i as int));
        assert(edges@.subrange(0, i + 1).last() == e);
        if has_id(ids, e.from) && has_id(ids, e.to) {
            let ghost before = r@;
            r.push(e);
            proof {
                assert(r@[r@.len() - 1] == e);
                assert forall|k: int| 0 <= k < i + 1 && ids@.contains((#[trigger] edges@[k]).from) && ids@.contains(edges@[k].to)
                    implies r@.contains(edges@[k]) by {
                    if k < i {
                        let j = choose|j: int| 0 <= j < before.len() && before[j] == edges@[k];
                        assert(r@[j] == edges@[k]);
                    }
                }
                assert forall|k: int| 0 <= k < r@.len() implies edges@.contains(#[trigger] r@[k]) by {
                    if k < before.len() {
                        assert(r@[k] == before[k]);
                    } else {
                        assert(edges@[i as int] == e);
                    }
                }
            }
        }
        i = i + 1;
    }
    assert(edges@.subrange(0, n as int) =~= edges@);
    r
}

/// Drops every edge whose endpoints an earlier edge already joins.
pub fn dedup_edges(edges: Vec<Edge>) -> (r: Vec<Edge>)
    ensures
        r@ == dedup_first(edges@),
        forall|k: int| 0 <= k < r@.len() ==> edges@.contains(#[trigger] r@[k]),
        forall|a: int, b: int| 0 <= a < b < r@.len() ==> edge_key(#[trigger] r@[a]) != edge_key(#[trigger] r@[b]),
        forall|k: int| 0 <= k < edges@.len() ==> exists|j: int| 0 <= j < r@.len() && edge_key(#[trigger] r@[j]) == edge_key(#[trigger] edges@[k]),
{
    let mut r: Vec<Edge> = Vec::new();
    let n = edges.len();
    let mut i: usize = 0;
    assert(edges@.subrange(0, 0) =~= Seq::<Edge>::empty());
    while i < n
        invariant
            n == edges@.len(),
            i <= n,
            r@ == dedup_first(edges@.subrange(0, i as int)),
            forall|k: int| 0 <= k < r@.len() ==> edges@.contains(#[trigger] r@[k]),
            forall|a: int, b: int| 0 <= a < b < r@.len() ==> edge_key(#[trigger] r@[a]) != edge_key(#[trigger] r@[b]),
            forall|k: int| 0 <= k < i ==> exists|j: int| 0 <= j < r@.len() && edge_key(#[trigger] r@[j]) == edge_key(#[trigger] edges@[k]),
        decreases n - i,
    {
        let e = edges[i];
        assert(edges@.subrange(0, i + 1).drop_last() =~= edges@.subrange(0, i as int));
        assert(edges@.subrange(0, i + 1).last() == e);
        let mut found = false;
        let mut j: usize = 0;
        while j < r.len()
            invariant
                j <= r@.len(),
                !found ==> forall|k: int| 0 <= k < j ==> edge_key(#[trigger] r@[k]) != edge_key(e),
                found ==> exists|k: int| 0 <= k < r@.len() && edge_key(#[trigger] r@[k]) == edge_key(e),
            decreases r@.len() - j,
        {
            if !found && r[j].from.0 == e.from.0 && r[j].from.1 == e.from.1 && r[j].from.2 == e.from.2
                && r[j].to.0 == e.to.0 && r[j].to.1 == e.to.1 && r[j].to.2 == e.to.2 {
                assert(edge_key(r@[j as int]) == edge_key(e));
                found = true;
            }
            j = j + 1;
        }
        if !found {
            let ghost before = r@;
            r.push(e);
            proof {
                assert(r@[r@.len() - 1] == e);
                assert forall|k: int| 0 <= k < i + 1 implies exists|j: int| 0 <= j < r@.len() && edge_key(#[trigger] r@[j]) == edge_key(#[trigger] edges@[k]) by {
                    if k < i {
                        let j = choose|j: int| 0 <= j < before.len() && edge_key(#[trigger] before[j]) == edge_key(edges@[k]);
                        assert(r@[j] == before[j]);
                    } else {
                        assert(edges@[k] == e);
                    }
                }
                assert forall|k: int| 0 <= k < r@.len() implies edges@.contains(#[trigger] r@[k]) by {
                    if k < before.len() {
                        assert(r@[k] == before[k]);
                    } else {
                        assert(edges@[i as int] == e);
                    }
                }
                assert forall|a: int, b: int| 0 <= a < b < r@.len() implies edge_key(#[trigger] r@[a]) != edge_key(#[trigger] r@[b]) by {
                    if b == r@.len() - 1 {
                        assert(r@[a] == before[a]);
                    } else {
                        assert(r@[a] == before[a]);
                        assert(r@[b] == before[b]);
                    }
                }
            }
        } else {
            proof {
                assert forall|k: int| 0 <= k < i + 1 implies exists|j: int| 0 <= j < r@.len() && edge_key(#[trigger] r@[j]) == edge_key(#[trigger] edges@[k]) by {
                    if k == i {
                        assert(edges@[k] == e);
                    }
                }
            }
        }
        i = i + 1;
    }
    assert(edges@.subrange(0, n as int) =~= edges@);
    r
}

} // verus!
