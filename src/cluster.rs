//! Directory clusters: files grouped by directory, each directory's cluster
//! nested in the cluster of the nearest directory above it.

use vstd::prelude::*;
use crate::graph::Subgraph;
use crate::outline::FileOutline;
use crate::text::{parent, path_parent};

verus! {

/// '/' ranks below every other character, so that paths compare component by component.
pub open spec fn char_rank(c: char) -> int {
    if c == '/' {
        0
    } else {
        c as int + 1
    }
}

/// The order of directories: component by component.
pub open spec fn path_lt(a: Seq<char>, b: Seq<char>) -> bool
    decreases a.len(),
{
    if a.len() == 0 {
        b.len() > 0
    } else if b.len() == 0 {
        false
    } else if char_rank(a[0]) != char_rank(b[0]) {
        char_rank(a[0]) < char_rank(b[0])
    } else {
        path_lt(a.drop_first(), b.drop_first())
    }
}

fn rank(c: char) -> (r: u32)
    ensures
        r as int == char_rank(c),
{
    if c == '/' {
        0
    } else {
        assert(c as u32 <= 0x10FFFF);
        c as u32 + 1
    }
}

fn path_less(a: &str, b: &str) -> (r: bool)
    ensures
        r == path_lt(a@, b@),
{
    let n = a.unicode_len();
    let m = b.unicode_len();
    let mut i: usize = 0;
    assert(a@.subrange(0, n as int) =~= a@);
    assert(b@.subrange(0, m as int) =~= b@);
    while i < n && i < m
        invariant
            n == a@.len(),
            m == b@.len(),
            i <= n,
            i <= m,
            path_lt(a@, b@) == path_lt(a@.subrange(i as int, n as int), b@.subrange(i as int, m as int)),
        decreases n - i,
    {
        let x = rank(a.get_char(i));
        let y = rank(b.get_char(i));
        let ghost sa = a@.subrange(i as int, n as int);
        let ghost sb = b@.subrange(i as int, m as int);
        assert(sa[0] == a@[i as int]);
        assert(sb[0] == b@[i as int]);
        if x != y {
            return x < y;
        }
        assert(sa.drop_first() =~= a@.subrange(i + 1, n as int));
        assert(sb.drop_first() =~= b@.subrange(i + 1, m as int));
        i = i + 1;
    }
    i < m && i >= n
}

/// `dir` is `base` or lies below it, component-wise; every path lies below the empty one.
pub open spec fn under(dir: Seq<char>, base: Seq<char>) -> bool {
    base.len() == 0 || dir == base || (dir.len() > base.len() && dir.subrange(0, base.len() as int) == base
        && dir[base.len() as int] == '/')
}

/// What is left of `dir` below `base`.
pub open spec fn strip(dir: Seq<char>, base: Seq<char>) -> Seq<char> {
    if base.len() == 0 {
        dir
    } else if dir == base {
        Seq::empty()
    } else {
        dir.subrange(base.len() as int + 1, dir.len() as int)
    }
}

/// Whether `dir` is `base` or lies below it.
pub fn is_under(dir: &str, base: &str) -> (r: bool)
    ensures
        r == under(dir@, base@),
{
    let n = dir.unicode_len();
    let m = base.unicode_len();
    if m == 0 {
        return true;
    }
    if n < m {
        return false;
    }
    let head = dir.substring_char(0, m);
    if !crate::text::str_eq(head, base) {
        proof {
            if dir@ == base@ {
                assert(dir@.subrange(0, m as int) =~= dir@);
            }
        }
        return false;
    }
    if n == m {
        assert(dir@ =~= base@);
        return true;
    }
    dir.get_char(m) == '/'
}

fn strip_base(dir: &str, base: &str) -> (r: String)
    requires
        under(dir@, base@),
    ensures
        r@ == strip(dir@, base@),
{
    let n = dir.unicode_len();
    let m = base.unicode_len();
    if m == 0 {
        return dir.to_string();
    }
    if n == m {
        assert(dir@ =~= base@);
        return String::new();
    }
    dir.substring_char(m + 1, n).to_string()
}

/// The decimal text of a number.
pub open spec fn dec_text(n: nat) -> Seq<char>
    decreases n,
{
    if n < 10 {
        seq![digit_char(n)]
    } else {
        dec_text(n / 10).push(digit_char(n % 10))
    }
}

pub open spec fn digit_char(d: nat) -> char {
    if d == 0 { '0' } else if d == 1 { '1' } else if d == 2 { '2' } else if d == 3 { '3' } else if d == 4 { '4' }
    else if d == 5 { '5' } else if d == 6 { '6' } else if d == 7 { '7' } else if d == 8 { '8' } else { '9' }
}

fn digit_str(d: u32) -> (r: &'static str)
    requires
        d < 10,
    ensures
        r@ == seq![digit_char(d as nat)],
{
    proof {
        reveal_strlit("0"); reveal_strlit("1"); reveal_strlit("2"); reveal_strlit("3"); reveal_strlit("4");
        reveal_strlit("5"); reveal_strlit("6"); reveal_strlit("7"); reveal_strlit("8"); reveal_strlit("9");
    }
    let r = if d == 0 { "0" } else if d == 1 { "1" } else if d == 2 { "2" } else if d == 3 { "3" } else if d == 4 { "4" }
    else if d == 5 { "5" } else if d == 6 { "6" } else if d == 7 { "7" } else if d == 8 { "8" } else { "9" };
    assert(r@ =~= seq![digit_char(d as nat)]);
    r
}

/// The decimal text of a table id.
pub fn id_text(n: u32) -> (r: String)
    ensures
        r@ == dec_text(n as nat),
    decreases n,
{
    if n < 10 {
        digit_str(n).to_string()
    } else {
        let mut r = id_text(n / 10);
        r.append(digit_str(n % 10));
        r
    }
}

/// A directory and the ids (as text) of its files.
pub type Group = (Seq<char>, Seq<Seq<char>>);

pub open spec fn texts(v: Seq<String>) -> Seq<Seq<char>> {
    v.map_values(|s: String| s@)
}

pub open spec fn groups_view(v: Seq<(String, Vec<String>)>) -> Seq<Group> {
    v.map_values(|g: (String, Vec<String>)| (g.0@, texts(g.1@)))
}

/// The groups with file `id` of directory `d` added: to the group of `d` where
/// there is one, else as a new group at its place in directory order.
pub open spec fn place(gs: Seq<Group>, d: Seq<char>, id: Seq<char>) -> Seq<Group>
    decreases gs.len(),
{
    if gs.len() == 0 {
        seq![(d, seq![id])]
    } else if gs[0].0 == d {
        gs.update(0, (d, gs[0].1.push(id)))
    } else if path_lt(d, gs[0].0) {
        seq![(d, seq![id])] + gs
    } else {
        seq![gs[0]] + place(gs.drop_first(), d, id)
    }
}

/// The files grouped by directory, directories in order, files in the order given.
pub open spec fn groups_of(fs: Seq<FileOutline>) -> Seq<Group>
    decreases fs.len(),
{
    if fs.len() == 0 {
        Seq::empty()
    } else {
        place(groups_of(fs.drop_last()), parent(fs.last().path@), dec_text(fs.last().id as nat))
    }
}

fn place_file(groups: &mut Vec<(String, Vec<String>)>, d: String, id: String)
    ensures
        groups_view(final(groups)@) == place(groups_view(old(groups)@), d@, id@),
{
    let ghost g0 = groups_view(groups@);
    let mut i: usize = 0;
    assert(g0.subrange(0, 0) + g0.subrange(0, g0.len() as int) =~= g0);
    while i < groups.len()
        invariant
            groups@ == old(groups)@,
            g0 == groups_view(groups@),
            i <= groups@.len(),
            place(g0, d@, id@) == g0.subrange(0, i as int) + place(g0.subrange(i as int, g0.len() as int), d@, id@),
        decreases groups@.len() - i,
    {
        let ghost tail = g0.subrange(i as int, g0.len() as int);
        assert(tail[0] == g0[i as int]);
        if crate::text::str_eq(groups[i].0.as_str(), d.as_str()) {
            let mut g = groups.remove(i);
            let ghost before = g.1@;
            g.1.push(id);
            groups.insert(i, g);
            proof {
                assert(texts(g.1@) =~= texts(before).push(id@));
                assert(groups_view(groups@) =~= g0.update(i as int, (d@, g0[i as int].1.push(id@))));
                assert(place(tail, d@, id@) =~= tail.update(0, (d@, tail[0].1.push(id@))));
                assert(g0.subrange(0, i as int) + tail.update(0, (d@, tail[0].1.push(id@))) =~= g0.update(i as int, (d@, g0[i as int].1.push(id@))));
            }
            return;
        }
        if path_less(d.as_str(), groups[i].0.as_str()) {
            let ghost dv = d@;
            let ghost iv = id@;
            let mut v: Vec<String> = Vec::new();
            v.push(id);
            groups.insert(i, (d, v));
            proof {
                assert(texts(v@) =~= seq![iv]);
                assert(groups_view(groups@) =~= g0.insert(i as int, (dv, seq![iv])));
                assert(g0.subrange(0, i as int) + (seq![(dv, seq![iv])] + tail) =~= g0.insert(i as int, (dv, seq![iv])));
            }
            return;
        }
        proof {
            assert(tail.drop_first() =~= g0.subrange(i + 1, g0.len() as int));
            assert(g0.subrange(0, i as int) + (seq![tail[0]] + place(tail.drop_first(), d@, id@))
                =~= g0.subrange(0, i + 1) + place(g0.subrange(i + 1, g0.len() as int), d@, id@));
        }
        i = i + 1;
    }
    let ghost dv = d@;
    let ghost iv = id@;
    let mut v: Vec<String> = Vec::new();
    v.push(id);
    groups.push((d, v));
    proof {
        assert(texts(v@) =~= seq![iv]);
        assert(g0.subrange(i as int, g0.len() as int) =~= Seq::<Group>::empty());
        assert(g0.subrange(0, i as int) =~= g0);
        assert(groups_view(groups@) =~= g0 + seq![(dv, seq![iv])]);
    }
}

fn group_files(files: &Vec<FileOutline>) -> (r: Vec<(String, Vec<String>)>)
    ensures
        groups_view(r@) == groups_of(files@),
{
    let mut groups: Vec<(String, Vec<String>)> = Vec::new();
    let mut i: usize = 0;
    assert(files@.subrange(0, 0) =~= Seq::<FileOutline>::empty());
    assert(groups_view(groups@) =~= Seq::<Group>::empty());
    while i < files.len()
        invariant
            i <= files@.len(),
            groups_view(groups@) == groups_of(files@.subrange(0, i as int)),
        decreases files@.len() - i,
    {
        let d = path_parent(files[i].path.as_str());
        let id = id_text(files[i].id);
        place_file(&mut groups, d, id);
        assert(files@.subrange(0, i + 1).drop_last() =~= files@.subrange(0, i as int));
        i = i + 1;
    }
    assert(files@.subrange(0, i as int) =~= files@);
    groups
}

/// The first cluster whose title `dir` lies under.
pub open spec fn first_under(gs: Seq<Subgraph>, dir: Seq<char>) -> Option<int>
    decreases gs.len(),
{
    if gs.len() == 0 {
        None
    } else if under(dir, gs[0].title@) {
        Some(0)
    } else {
        match first_under(gs.drop_first(), dir) {
            Some(k) => Some(k + 1),
            None => None,
        }
    }
}

proof fn lemma_first_under(gs: Seq<Subgraph>, dir: Seq<char>, k: int)
    requires
        0 <= k <= gs.len(),
        forall|m: int| 0 <= m < k ==> !under(dir, #[trigger] gs[m].title@),
    ensures
        k < gs.len() && under(dir, gs[k].title@) ==> first_under(gs, dir) == Some(k),
        k == gs.len() ==> first_under(gs, dir) is None,
    decreases k,
{
    if k > 0 {
        let t = gs.drop_first();
        assert forall|m: int| 0 <= m < k - 1 implies !under(dir, #[trigger] t[m].title@) by {
            assert(t[m] == gs[m + 1]);
        }
        lemma_first_under(t, dir, k - 1);
        if k < gs.len() {
            assert(t[k - 1] == gs[k]);
        }
    }
}

/// `new` is `old` with the cluster of directory `dir` (its files `nodes`) added:
/// nested, with the part of `dir` below it, into the first cluster that `dir`
/// lies under, or appended where there is none.
pub open spec fn added(old: Seq<Subgraph>, new: Seq<Subgraph>, dir: Seq<char>, nodes: Seq<Seq<char>>) -> bool
    decreases old,
{
    match first_under(old, dir) {
        None => {
            &&& new.len() == old.len() + 1
            &&& new.subrange(0, old.len() as int) == old
            &&& new.last().title@ == dir
            &&& texts(new.last().nodes@) == nodes
            &&& new.last().subgraphs@.len() == 0
        },
        Some(k) => {
            &&& 0 <= k < old.len()
            &&& new.len() == old.len()
            &&& forall|m: int| 0 <= m < old.len() && m != k ==> new[m] == old[m]
            &&& new[k].title == old[k].title
            &&& new[k].nodes == old[k].nodes
            &&& added(old[k].subgraphs@, new[k].subgraphs@, strip(dir, old[k].title@), nodes)
        },
    }
}

proof fn lemma_first_under_found(gs: Seq<Subgraph>, dir: Seq<char>)
    ensures
        first_under(gs, dir) matches Some(i) ==> 0 <= i < gs.len() && under(dir, gs[i].title@),
    decreases gs.len(),
{
    if gs.len() > 0 && !under(dir, gs[0].title@) {
        lemma_first_under_found(gs.drop_first(), dir);
        if first_under(gs.drop_first(), dir) is Some {
            let k = first_under(gs.drop_first(), dir)->0;
            assert(gs.drop_first()[k] == gs[k + 1]);
        }
    }
}

fn find_under(subgraphs: &Vec<Subgraph>, dir: &str) -> (r: Option<usize>)
    ensures
        r matches Some(i) ==> first_under(subgraphs@, dir@) == Some(i as int),
        r is None ==> first_under(subgraphs@, dir@) is None,
{
    let mut i: usize = 0;
    while i < subgraphs.len()
        invariant
            i <= subgraphs@.len(),
            forall|m: int| 0 <= m < i ==> !under(dir@, #[trigger] subgraphs@[m].title@),
        decreases subgraphs@.len() - i,
    {
        if is_under(dir, subgraphs[i].title.as_str()) {
            proof {
                lemma_first_under(subgraphs@, dir@, i as int);
            }
            return Some(i);
        }
        i = i + 1;
    }
    proof {
        lemma_first_under(subgraphs@, dir@, i as int);
    }
    None
}

/// Adds the cluster of directory `dir`, holding the tables `nodes`.
pub fn add_subgraph(dir: String, nodes: Vec<String>, subgraphs: &mut Vec<Subgraph>)
    ensures
        added(old(subgraphs)@, final(subgraphs)@, dir@, texts(nodes@)),
    decreases old(subgraphs)@,
{
    let ghost s0 = subgraphs@;
    proof {
        lemma_first_under_found(s0, dir@);
    }
    match find_under(subgraphs, dir.as_str()) {
        Some(i) => {
            let mut g = subgraphs.remove(i);
            proof {
                assert(g == s0[i as int]);
            }
            let rest = strip_base(dir.as_str(), g.title.as_str());
            add_subgraph(rest, nodes, &mut g.subgraphs);
            subgraphs.insert(i, g);
            assert(subgraphs@ =~= s0.update(i as int, g));
        },
        None => {
            subgraphs.push(Subgraph { title: dir, nodes, subgraphs: Vec::new() });
            assert(subgraphs@.subrange(0, s0.len() as int) =~= s0);
        },
    }
}

/// Where a directory's cluster goes: its part below `root`, or itself where it
/// does not lie under `root`.
pub open spec fn rel_dir(dir: Seq<char>, root: Seq<char>) -> Seq<char> {
    if under(dir, root) {
        strip(dir, root)
    } else {
        dir
    }
}

/// `states` are the cluster lists while the groups `gs` are added in order:
/// none at first, each next one with the next group added.
pub open spec fn chain(root: Seq<char>, gs: Seq<Group>, states: Seq<Seq<Subgraph>>) -> bool {
    &&& states.len() == gs.len() + 1
    &&& states[0].len() == 0
    &&& forall|k: int| 0 <= k < gs.len() ==> added(#[trigger] states[k], states[k + 1], rel_dir(gs[k].0, root), gs[k].1)
}

/// `r` is the cluster tree of the groups `gs`, added in order from none.
pub open spec fn built(root: Seq<char>, gs: Seq<Group>, r: Seq<Subgraph>) -> bool {
    exists|states: Seq<Seq<Subgraph>>| #[trigger] chain(root, gs, states) && states.last() == r
}

/// The cluster tree of a project's files.
pub open spec fn clusters_of(root: Seq<char>, files: Seq<FileOutline>, r: Seq<Subgraph>) -> bool {
    built(root, groups_of(files), r)
}

/// The cluster tree of the files, below `root`.
pub fn subgraphs(root: &String, files: &Vec<FileOutline>) -> (r: Vec<Subgraph>)
    ensures
        clusters_of(root@, files@, r@),
{
    let groups = group_files(files);
    let ghost gs = groups_view(groups@);
    let mut rest = groups;
    let total = rest.len();
    let mut r: Vec<Subgraph> = Vec::new();
    let mut k: usize = 0;
    let ghost mut states: Seq<Seq<Subgraph>> = seq![r@];
    assert(groups_view(rest@) =~= gs.subrange(0, gs.len() as int));
    while rest.len() > 0
        invariant
            total == gs.len(),
            k <= gs.len(),
            rest@.len() + k == gs.len(),
            groups_view(rest@) == gs.subrange(k as int, gs.len() as int),
            states.len() == k + 1,
            states[0].len() == 0,
            states.last() == r@,
            forall|m: int| 0 <= m < k ==> added(#[trigger] states[m], states[m + 1], rel_dir(gs[m].0, root@), gs[m].1),
        decreases rest.len(),
    {
        let ghost prev = r@;
        let ghost gk = gs[k as int];
        let ghost old_rest = rest@;
        assert(gs.subrange(k as int, gs.len() as int)[0] == gk);
        assert(groups_view(old_rest)[0] == (old_rest[0].0@, texts(old_rest[0].1@)));
        let (dir, nodes) = rest.remove(0);
        assert(rest@ =~= old_rest.subrange(1, old_rest.len() as int));
        assert forall|m: int| 0 <= m < rest@.len() implies groups_view(rest@)[m] == gs.subrange(k + 1, gs.len() as int)[m] by {
            assert(groups_view(old_rest)[m + 1] == gs.subrange(k as int, gs.len() as int)[m + 1]);
        }
        assert(groups_view(rest@) =~= gs.subrange(k + 1, gs.len() as int));
        let d = if is_under(dir.as_str(), root.as_str()) {
            strip_base(dir.as_str(), root.as_str())
        } else {
            dir
        };
        add_subgraph(d, nodes, &mut r);
        proof {
            let old_states = states;
            states = states.push(r@);
            assert forall|m: int| 0 <= m < k + 1 implies added(#[trigger] states[m], states[m + 1], rel_dir(gs[m].0, root@), gs[m].1) by {
                if m < k {
                    assert(states[m] == old_states[m]);
                    assert(states[m + 1] == old_states[m + 1]);
                } else {
                    assert(states[m] == prev);
                }
            }
        }
        k = k + 1;
    }
    assert(chain(root@, gs, states));
    r
}

/// Two cluster trees alike in titles, table ids and nesting.
pub open spec fn same_tree(a: Seq<Subgraph>, b: Seq<Subgraph>) -> bool
    decreases a,
{
    &&& a.len() == b.len()
    &&& forall|k: int| 0 <= k < a.len() ==> {
        &&& (#[trigger] a[k]).title@ == b[k].title@
        &&& texts(a[k].nodes@) == texts(b[k].nodes@)
        &&& same_tree(a[k].subgraphs@, b[k].subgraphs@)
    }
}

proof fn lemma_first_under_same(a: Seq<Subgraph>, b: Seq<Subgraph>, dir: Seq<char>)
    requires
        a.len() == b.len(),
        forall|k: int| 0 <= k < a.len() ==> (#[trigger] a[k]).title@ == b[k].title@,
    ensures
        first_under(a, dir) == first_under(b, dir),
    decreases a.len(),
{
    if a.len() > 0 {
        let (ta, tb) = (a.drop_first(), b.drop_first());
        assert forall|k: int| 0 <= k < ta.len() implies (#[trigger] ta[k]).title@ == tb[k].title@ by {
            assert(ta[k] == a[k + 1]);
            assert(tb[k] == b[k + 1]);
        }
        lemma_first_under_same(ta, tb, dir);
    }
}

proof fn lemma_added_same(o1: Seq<Subgraph>, o2: Seq<Subgraph>, n1: Seq<Subgraph>, n2: Seq<Subgraph>, dir: Seq<char>, nodes: Seq<Seq<char>>)
    requires
        same_tree(o1, o2),
        added(o1, n1, dir, nodes),
        added(o2, n2, dir, nodes),
    ensures
        same_tree(n1, n2),
    decreases o1,
{
    lemma_first_under_same(o1, o2, dir);
    match first_under(o1, dir) {
        None => {
            assert forall|k: int| 0 <= k < n1.len() implies {
                &&& (#[trigger] n1[k]).title@ == n2[k].title@
                &&& texts(n1[k].nodes@) == texts(n2[k].nodes@)
                &&& same_tree(n1[k].subgraphs@, n2[k].subgraphs@)
            } by {
                if k < o1.len() {
                    assert(n1[k] == n1.subrange(0, o1.len() as int)[k]);
                    assert(n2[k] == n2.subrange(0, o2.len() as int)[k]);
                } else {
                    assert(n1[k] == n1.last());
                    assert(n2[k] == n2.last());
                }
            }
        },
        Some(i) => {
            lemma_added_same(o1[i].subgraphs@, o2[i].subgraphs@, n1[i].subgraphs@, n2[i].subgraphs@, strip(dir, o1[i].title@), nodes);
            assert forall|k: int| 0 <= k < n1.len() implies {
                &&& (#[trigger] n1[k]).title@ == n2[k].title@
                &&& texts(n1[k].nodes@) == texts(n2[k].nodes@)
                &&& same_tree(n1[k].subgraphs@, n2[k].subgraphs@)
            } by {
                if k != i {
                    assert(n1[k] == o1[k]);
                    assert(n2[k] == o2[k]);
                }
            }
        },
    }
}

proof fn lemma_chains_same(root: Seq<char>, gs: Seq<Group>, s1: Seq<Seq<Subgraph>>, s2: Seq<Seq<Subgraph>>, k: int)
    requires
        chain(root, gs, s1),
        chain(root, gs, s2),
        0 <= k <= gs.len(),
    ensures
        same_tree(s1[k], s2[k]),
    decreases k,
{
    if k == 0 {
        assert(same_tree(s1[0], s2[0]));
    } else {
        lemma_chains_same(root, gs, s1, s2, k - 1);
        assert(added(s1[k - 1], s1[k], rel_dir(gs[k - 1].0, root), gs[k - 1].1));
        assert(added(s2[k - 1], s2[k], rel_dir(gs[k - 1].0, root), gs[k - 1].1));
        lemma_added_same(s1[k - 1], s2[k - 1], s1[k], s2[k], rel_dir(gs[k - 1].0, root), gs[k - 1].1);
    }
}

/// Building the cluster tree twice from the same files under the same root
/// yields alike trees: directory nesting is a function of the paths alone.
pub proof fn lemma_clustering_idempotent(root: Seq<char>, files: Seq<FileOutline>, a: Seq<Subgraph>, b: Seq<Subgraph>)
    requires
        clusters_of(root, files, a),
        clusters_of(root, files, b),
    ensures
        same_tree(a, b),
{
    let gs = groups_of(files);
    let s1 = choose|states: Seq<Seq<Subgraph>>| #[trigger] chain(root, gs, states) && states.last() == a;
    let s2 = choose|states: Seq<Seq<Subgraph>>| #[trigger] chain(root, gs, states) && states.last() == b;
    lemma_chains_same(root, gs, s1, s2, gs.len() as int);
}

} // verus!
