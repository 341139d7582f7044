//! The graph as source text for the Graphviz layout engine.

use vstd::prelude::*;
use crate::cluster::{dec_text, id_text, texts};
use crate::graph::{class_name, class_seq, Cell, CellId, CssClass, CssClasses, Edge, Style, Subgraph, TableNode};

verus! {

pub open spec fn esc_char(c: char) -> Seq<char> {
    if c == '&' {
        "&amp;"@
    } else if c == '"' {
        "&quot;"@
    } else if c == '<' {
        "&lt;"@
    } else if c == '>' {
        "&gt;"@
    } else {
        seq![c]
    }
}

/// `s` with the characters that HTML-like labels reserve escaped.
pub open spec fn escaped(s: Seq<char>) -> Seq<char>
    decreases s.len(),
{
    if s.len() == 0 {
        Seq::empty()
    } else {
        escaped(s.drop_last()) + esc_char(s.last())
    }
}

/// Escapes `&`, `"`, `<` and `>` for an HTML-like label.
pub fn escape_html(s: &str) -> (r: String)
    ensures
        r@ == escaped(s@),
{
    let n = s.unicode_len();
    let mut r = String::new();
    let mut i: usize = 0;
    while i < n
        invariant
            n == s@.len(),
            i <= n,
            r@ == escaped(s@.subrange(0, i as int)),
        decreases n - i,
    {
        let c = s.get_char(i);
        let ghost cur = s@.subrange(0, i + 1);
        assert(cur.drop_last() =~= s@.subrange(0, i as int));
        assert(cur.last() == c);
        if c == '&' {
            r.append("&amp;");
        } else if c == '"' {
            r.append("&quot;");
        } else if c == '<' {
            r.append("&lt;");
        } else if c == '>' {
            r.append("&gt;");
        } else {
            let t = s.substring_char(i, i + 1);
            assert(t@ =~= seq![c]);
            r.append(t);
        }
        i = i + 1;
    }
    assert(s@.subrange(0, n as int) =~= s@);
    r
}

/// The parts joined, `sep` between each two.
pub open spec fn joined(parts: Seq<Seq<char>>, sep: Seq<char>) -> Seq<char>
    decreases parts.len(),
{
    if parts.len() == 0 {
        Seq::empty()
    } else if parts.len() == 1 {
        parts[0]
    } else {
        joined(parts.drop_last(), sep) + sep + parts.last()
    }
}

pub fn join_strings(parts: &Vec<String>, sep: &str) -> (r: String)
    ensures
        r@ == joined(texts(parts@), sep@),
{
    let mut r = String::new();
    let mut i: usize = 0;
    let ghost ts = texts(parts@);
    while i < parts.len()
        invariant
            i <= parts@.len(),
            ts == texts(parts@),
            r@ == joined(ts.subrange(0, i as int), sep@),
        decreases parts@.len() - i,
    {
        let ghost cur = ts.subrange(0, i + 1);
        assert(cur.drop_last() =~= ts.subrange(0, i as int));
        assert(cur.last() == parts@[i as int]@);
        if i > 0 {
            r.append(sep);
        }
        r.append(parts[i].as_str());
        i = i + 1;
    }
    assert(ts.subrange(0, i as int) =~= ts);
    r
}

/// The class names, in declaration order, joined by dots.
pub open spec fn class_list(cs: Seq<CssClass>) -> Seq<char> {
    joined(cs.map_values(|c: CssClass| class_name(c)), "."@)
}

/// The link attribute that carries a cell's or an edge's classes; empty without classes.
pub open spec fn href_text(cs: Seq<CssClass>) -> Seq<char> {
    if cs.len() == 0 {
        Seq::empty()
    } else {
        "href=\"remove_me_url."@ + class_list(cs) + "\""@
    }
}

/// The attribute text of a set of classes.
pub fn css_classes_href(classes: &CssClasses) -> (r: String)
    ensures
        r@ == href_text(class_seq(*classes)),
{
    let v = classes.to_vec();
    if v.len() == 0 {
        let r = String::new();
        assert(href_text(v@) == r@);
        return r;
    }
    let mut names: Vec<String> = Vec::new();
    let mut i: usize = 0;
    while i < v.len()
        invariant
            i <= v@.len(),
            names@.len() == i,
            texts(names@) == v@.subrange(0, i as int).map_values(|c: CssClass| class_name(c)),
        decreases v@.len() - i,
    {
        let ghost before = names@;
        let name = v[i].to_str().to_string();
        names.push(name);
        proof {
            let want = v@.subrange(0, i + 1).map_values(|c: CssClass| class_name(c));
            assert forall|k: int| 0 <= k < i + 1 implies texts(names@)[k] == want[k] by {
                if k < i {
                    assert(names@[k] == before[k]);
                    assert(texts(before)[k] == v@.subrange(0, i as int).map_values(|c: CssClass| class_name(c))[k]);
                }
            }
            assert(texts(names@) =~= want);
        }
        i = i + 1;
    }
    assert(v@.subrange(0, i as int) =~= v@);
    let mut r = "href=\"remove_me_url.".to_string();
    let list = join_strings(&names, ".");
    r.append(list.as_str());
    r.append("\"");
    assert(href_text(v@) == r@);
    r
}

/// `line_char` of a cell's position.
pub open spec fn port_text(p: (u32, u32)) -> Seq<char> {
    dec_text(p.0 as nat) + "_"@ + dec_text(p.1 as nat)
}

fn port(p: (u32, u32)) -> (r: String)
    ensures
        r@ == port_text(p),
{
    let mut r = id_text(p.0);
    r.append("_");
    let b = id_text(p.1);
    r.append(b.as_str());
    r
}

/// An edge's line: `from -> to`, with its id and, where it has classes, their link.
pub open spec fn edge_text(e: Edge, href: Seq<char>) -> Seq<char> {
    let from = dec_text(e.from.0 as nat) + ":\""@ + port_text((e.from.1, e.from.2)) + "\""@;
    let to = dec_text(e.to.0 as nat) + ":\""@ + port_text((e.to.1, e.to.2)) + "\""@;
    let a = dec_text(e.from.0 as nat) + ":"@ + port_text((e.from.1, e.from.2));
    let b = dec_text(e.to.0 as nat) + ":"@ + port_text((e.to.1, e.to.2));
    let head = from + " -> "@ + to + " [id=\""@ + a + " -> "@ + b + "\""@;
    if href.len() == 0 {
        head + "];"@
    } else {
        head + ", "@ + href + "];"@
    }
}

fn cell_ref(c: CellId) -> (r: String)
    ensures
        r@ == dec_text(c.0 as nat) + ":\""@ + port_text((c.1, c.2)) + "\""@,
{
    let mut r = id_text(c.0);
    r.append(":\"");
    let p = port((c.1, c.2));
    r.append(p.as_str());
    r.append("\"");
    r
}

fn cell_name(c: CellId) -> (r: String)
    ensures
        r@ == dec_text(c.0 as nat) + ":"@ + port_text((c.1, c.2)),
{
    let mut r = id_text(c.0);
    r.append(":");
    let p = port((c.1, c.2));
    r.append(p.as_str());
    r
}

/// The line of one edge.
pub fn process_edge(e: &Edge) -> (r: String)
    ensures
        r@ == edge_text(*e, href_text(class_seq(e.classes))),
{
    let from = cell_ref(e.from);
    let to = cell_ref(e.to);
    let href = css_classes_href(&e.classes);
    let mut r = from;
    r.append(" -> ");
    r.append(to.as_str());
    r.append(" [id=\"");
    let a = cell_name(e.from);
    r.append(a.as_str());
    r.append(" -> ");
    let b = cell_name(e.to);
    r.append(b.as_str());
    r.append("\"");
    if href.as_str().unicode_len() > 0 {
        r.append(", ");
        r.append(href.as_str());
    }
    r.append("];");
    assert(edge_text(*e, href@) =~= r@);
    r
}

/// A cell's border and rounding attributes.
pub open spec fn style_attrs(st: Style) -> Seq<char> {
    let border = match st.border {
        Some(b) => "BORDER=\""@ + dec_text(b as nat) + "\""@,
        None => Seq::empty(),
    };
    let rounded = if st.rounded { "STYLE=\"ROUNDED\""@ } else { Seq::empty() };
    border + " "@ + rounded
}

/// A cell's icon, bold, before its name.
pub open spec fn icon_text(st: Style) -> Seq<char> {
    match st.icon {
        Some(c) => "<B>"@ + seq![c] + "</B>  "@,
        None => Seq::empty(),
    }
}

fn style_text(st: &Style) -> (r: String)
    ensures
        r@ == style_attrs(*st),
{
    let mut r = String::new();
    match st.border {
        Some(b) => {
            r.append("BORDER=\"");
            let d = id_text(b as u32);
            r.append(d.as_str());
            r.append("\"");
        },
        None => {},
    }
    r.append(" ");
    if st.rounded {
        r.append("STYLE=\"ROUNDED\"");
    }
    r
}

/// Relies on `ToString` for `char`: the string of that one character.
#[verifier::external_body]
fn char_string(c: char) -> (r: String)
    ensures
        r@ == seq![c],
{
    c.to_string()
}

fn icon(st: &Style) -> (r: String)
    ensures
        r@ == icon_text(*st),
{
    match st.icon {
        Some(c) => {
            let mut r = "<B>".to_string();
            let t = char_string(c);
            r.append(t.as_str());
            r.append("</B>  ");
            r
        },
        None => String::new(),
    }
}

/// The rows of a cell: one row for a symbol without children; a nested table,
/// titled with the symbol's name, for one with children.
pub open spec fn cell_text(tid: u32, c: Cell) -> Seq<char>
    decreases c, 1int,
{
    let port = port_text(c.range_start);
    let href = href_text(class_seq(c.style.classes));
    let name = escaped(c.title@);
    if c.children@.len() == 0 {
        "     <TR><TD PORT=\""@ + port + "\" ID=\""@ + dec_text(tid as nat) + ":"@ + port + "\" "@
            + style_attrs(c.style) + " "@ + href + ">"@ + icon_text(c.style) + name + "</TD></TR>"@
    } else {
        "\n            <TR><TD BORDER=\"0\" CELLPADDING=\"0\">\n            <TABLE ID=\""@ + dec_text(tid as nat) + ":"@
            + port + "\" CELLSPACING=\"4\" CELLPADDING=\"4\" CELLBORDER=\"1\" "@ + style_attrs(c.style)
            + " BGCOLOR=\"green\" "@ + href + ">\n     <TR><TD PORT=\""@ + port + "\" BORDER=\"0\" >"@ + name
            + "</TD></TR>\n"@ + cells_text(tid, c.children@) + "\n            </TABLE>\n            </TD></TR>\n            "@
    }
}

/// The rows of the cells, one after the other, a line break between each two.
pub open spec fn cells_text(tid: u32, cs: Seq<Cell>) -> Seq<char>
    decreases cs, 0int,
{
    if cs.len() == 0 {
        Seq::empty()
    } else if cs.len() == 1 {
        cell_text(tid, cs[0])
    } else {
        cells_text(tid, cs.drop_last()) + "\n"@ + cell_text(tid, cs.last())
    }
}

/// The rows of a cell of table `table_id`.
pub fn process_cell(table_id: u32, cell: &Cell) -> (r: String)
    ensures
        r@ == cell_text(table_id, *cell),
    decreases cell,
{
    let port = port(cell.range_start);
    let href = css_classes_href(&cell.style.classes);
    let name = escape_html(cell.title.as_str());
    let id = id_text(table_id);
    let styles = style_text(&cell.style);
    if cell.children.len() == 0 {
        let mut r = "     <TR><TD PORT=\"".to_string();
        r.append(port.as_str());
        r.append("\" ID=\"");
        r.append(id.as_str());
        r.append(":");
        r.append(port.as_str());
        r.append("\" ");
        r.append(styles.as_str());
        r.append(" ");
        r.append(href.as_str());
        r.append(">");
        let i = icon(&cell.style);
        r.append(i.as_str());
        r.append(name.as_str());
        r.append("</TD></TR>");
        r
    } else {
        let mut rows = String::new();
        let n = cell.children.len();
        let mut k: usize = 0;
        assert(cell.children@.subrange(0, 0) =~= Seq::<Cell>::empty());
        while k < n
            invariant
                n == cell.children@.len(),
                k <= n,
                rows@ == cells_text(table_id, cell.children@.subrange(0, k as int)),
            decreases n - k,
        {
            let ghost cur = cell.children@.subrange(0, k + 1);
            assert(cur.drop_last() =~= cell.children@.subrange(0, k as int));
            assert(cur.last() == cell.children@[k as int]);
            let t = process_cell(table_id, &cell.children[k]);
            if k > 0 {
                rows.append("\n");
            } else {
                assert(cur.len() == 1 && cur[0] == cell.children@[0]);
            }
            let ghost pre = rows@;
            rows.append(t.as_str());
            proof {
                if k == 0 {
                    assert(pre =~= Seq::<char>::empty());
                    assert(rows@ =~= t@);
                }
            }
            k = k + 1;
        }
        assert(cell.children@.subrange(0, n as int) =~= cell.children@);
        let mut r = "\n            <TR><TD BORDER=\"0\" CELLPADDING=\"0\">\n            <TABLE ID=\"".to_string();
        r.append(id.as_str());
        r.append(":");
        r.append(port.as_str());
        r.append("\" CELLSPACING=\"4\" CELLPADDING=\"4\" CELLBORDER=\"1\" ");
        r.append(styles.as_str());
        r.append(" BGCOLOR=\"green\" ");
        r.append(href.as_str());
        r.append(">\n     <TR><TD PORT=\"");
        r.append(port.as_str());
        r.append("\" BORDER=\"0\" >");
        r.append(name.as_str());
        r.append("</TD></TR>\n");
        r.append(rows.as_str());
        r.append("\n            </TABLE>\n            </TD></TR>\n            ");
        r
    }
}

/// A file's node: an HTML-like table titled with the file name, with the rows of its cells.
pub open spec fn table_text(t: TableNode) -> Seq<char> {
    let id = dec_text(t.id as nat);
    "\n    \""@ + id + "\" [id=\""@ + id
        + "\", label=<\n        <TABLE BORDER=\"0\" CELLBORDER=\"1\" CELLSPACING=\"8\" CELLPADDING=\"4\">\n        <TR><TD WIDTH=\"230\" BORDER=\"0\" CELLPADDING=\"6\" HREF=\"remove_me_url.title\">"@
        + t.title@ + "</TD></TR>\n        "@ + cells_text(t.id, t.sections@)
        + "\n        <TR><TD BORDER=\"0\"></TD></TR>\n        </TABLE>\n    >];\n"@
}

pub open spec fn tables_text(ts: Seq<TableNode>) -> Seq<char>
    decreases ts.len(),
{
    if ts.len() == 0 {
        Seq::empty()
    } else if ts.len() == 1 {
        table_text(ts[0])
    } else {
        tables_text(ts.drop_last()) + "\n"@ + table_text(ts.last())
    }
}

fn process_table(t: &TableNode) -> (r: String)
    ensures
        r@ == table_text(*t),
{
    let mut rows = String::new();
    let n = t.sections.len();
    let mut k: usize = 0;
    assert(t.sections@.subrange(0, 0) =~= Seq::<Cell>::empty());
    while k < n
        invariant
            n == t.sections@.len(),
            k <= n,
            rows@ == cells_text(t.id, t.sections@.subrange(0, k as int)),
        decreases n - k,
    {
        let ghost cur = t.sections@.subrange(0, k + 1);
        assert(cur.drop_last() =~= t.sections@.subrange(0, k as int));
        assert(cur.last() == t.sections@[k as int]);
        let c = process_cell(t.id, &t.sections[k]);
        if k > 0 {
            rows.append("\n");
        }
        let ghost pre = rows@;
        rows.append(c.as_str());
        proof {
            if k == 0 {
                assert(pre =~= Seq::<char>::empty());
                assert(rows@ =~= c@);
            }
        }
        k = k + 1;
    }
    assert(t.sections@.subrange(0, n as int) =~= t.sections@);
    let id = id_text(t.id);
    let mut r = "\n    \"".to_string();
    r.append(id.as_str());
    r.append("\" [id=\"");
    r.append(id.as_str());
    r.append("\", label=<\n        <TABLE BORDER=\"0\" CELLBORDER=\"1\" CELLSPACING=\"8\" CELLPADDING=\"4\">\n        <TR><TD WIDTH=\"230\" BORDER=\"0\" CELLPADDING=\"6\" HREF=\"remove_me_url.title\">");
    r.append(t.title.as_str());
    r.append("</TD></TR>\n        ");
    r.append(rows.as_str());
    r.append("\n        <TR><TD BORDER=\"0\"></TD></TR>\n        </TABLE>\n    >];\n");
    r
}

/// A directory's cluster, with its files' nodes and its subdirectories' clusters.
pub open spec fn cluster_text(g: Subgraph) -> Seq<char>
    decreases g, 1int,
{
    "\n        subgraph \"cluster_"@ + g.title@ + "\" {\n            label = \""@ + g.title@ + "\";\n\n            "@
        + joined(texts(g.nodes@), " "@) + "\n\n            "@ + clusters_text(g.subgraphs@) + "\n        };\n"@
}

pub open spec fn clusters_text(gs: Seq<Subgraph>) -> Seq<char>
    decreases gs, 0int,
{
    if gs.len() == 0 {
        Seq::empty()
    } else if gs.len() == 1 {
        cluster_text(gs[0])
    } else {
        clusters_text(gs.drop_last()) + "\n"@ + cluster_text(gs.last())
    }
}

/// The clusters' text.
pub fn clusters(subgraphs: &Vec<Subgraph>) -> (r: String)
    ensures
        r@ == clusters_text(subgraphs@),
    decreases subgraphs@,
{
    let mut r = String::new();
    let n = subgraphs.len();
    let mut k: usize = 0;
    assert(subgraphs@.subrange(0, 0) =~= Seq::<Subgraph>::empty());
    while k < n
        invariant
            n == subgraphs@.len(),
            k <= n,
            r@ == clusters_text(subgraphs@.subrange(0, k as int)),
        decreases n - k,
    {
        let ghost cur = subgraphs@.subrange(0, k + 1);
        assert(cur.drop_last() =~= subgraphs@.subrange(0, k as int));
        assert(cur.last() == subgraphs@[k as int]);
        let g = &subgraphs[k];
        let nodes = join_strings(&g.nodes, " ");
        let inner = clusters(&g.subgraphs);
        let mut c = "\n        subgraph \"cluster_".to_string();
        c.append(g.title.as_str());
        c.append("\" {\n            label = \"");
        c.append(g.title.as_str());
        c.append("\";\n\n            ");
        c.append(nodes.as_str());
        c.append("\n\n            ");
        c.append(inner.as_str());
        c.append("\n        };\n");
        assert(c@ == cluster_text(*g));
        if k > 0 {
            r.append("\n");
        }
        let ghost pre = r@;
        r.append(c.as_str());
        proof {
            if k == 0 {
                assert(pre =~= Seq::<char>::empty());
                assert(r@ =~= c@);
            }
        }
        k = k + 1;
    }
    assert(subgraphs@.subrange(0, n as int) =~= subgraphs@);
    r
}

pub open spec fn edges_text(es: Seq<Edge>) -> Seq<char>
    decreases es.len(),
{
    if es.len() == 0 {
        Seq::empty()
    } else if es.len() == 1 {
        edge_text(es[0], href_text(class_seq(es[0].classes)))
    } else {
        edges_text(es.drop_last()) + "\n    "@ + edge_text(es.last(), href_text(class_seq(es.last().classes)))
    }
}

fn process_edges(edges: &Vec<Edge>) -> (r: String)
    ensures
        r@ == edges_text(edges@),
{
    let mut r = String::new();
    let n = edges.len();
    let mut k: usize = 0;
    assert(edges@.subrange(0, 0) =~= Seq::<Edge>::empty());
    while k < n
        invariant
            n == edges@.len(),
            k <= n,
            r@ == edges_text(edges@.subrange(0, k as int)),
        decreases n - k,
    {
        let ghost cur = edges@.subrange(0, k + 1);
        assert(cur.drop_last() =~= edges@.subrange(0, k as int));
        assert(cur.last() == edges@[k as int]);
        let e = process_edge(&edges[k]);
        if k > 0 {
            r.append("\n    ");
        }
        let ghost pre = r@;
        r.append(e.as_str());
        proof {
            if k == 0 {
                assert(pre =~= Seq::<char>::empty());
                assert(r@ =~= e@);
            }
        }
        k = k + 1;
    }
    assert(edges@.subrange(0, n as int) =~= edges@);
    r
}

/// The graph's settings.
pub open spec fn dot_head() -> Seq<char> {
    "\ndigraph {\n    graph [\n        rankdir = \"LR\"\n        ranksep = 2.0\n        fontname = \"Arial\"\n    ];\n    node [\n        fontsize = \"16\"\n        fontname = \"Arial\"\n        shape = \"plaintext\"\n        style = \"rounded, filled\"\n    ];\n    edge [\n        label = \" \"\n    ];\n\n    "@
}

/// The whole graph: settings, file tables, directory clusters, edges.
pub open spec fn dot_text(tables: Seq<TableNode>, edges: Seq<Edge>, subgraphs: Seq<Subgraph>) -> Seq<char> {
    dot_head() + tables_text(tables) + "\n\n    "@ + clusters_text(subgraphs) + "\n\n    "@ + edges_text(edges) + "\n}\n"@
}

/// The Graphviz source of a graph.
pub fn generate_dot_source(tables: &Vec<TableNode>, edges: &Vec<Edge>, subgraphs: &Vec<Subgraph>) -> (r: String)
    ensures
        r@ == dot_text(tables@, edges@, subgraphs@),
{
    let mut ts = String::new();
    let n = tables.len();
    let mut k: usize = 0;
    assert(tables@.subrange(0, 0) =~= Seq::<TableNode>::empty());
    while k < n
        invariant
            n == tables@.len(),
            k <= n,
            ts@ == tables_text(tables@.subrange(0, k as int)),
        decreases n - k,
    {
        let ghost cur = tables@.subrange(0, k + 1);
        assert(cur.drop_last() =~= tables@.subrange(0, k as int));
        assert(cur.last() == tables@[k as int]);
        let t = process_table(&tables[k]);
        if k > 0 {
            ts.append("\n");
        }
        let ghost pre = ts@;
        ts.append(t.as_str());
        proof {
            if k == 0 {
                assert(pre =~= Seq::<char>::empty());
                assert(ts@ =~= t@);
            }
        }
        k = k + 1;
    }
    assert(tables@.subrange(0, n as int) =~= tables@);
    let cs = clusters(subgraphs);
    let es = process_edges(edges);
    let mut r = "\ndigraph {\n    graph [\n        rankdir = \"LR\"\n        ranksep = 2.0\n        fontname = \"Arial\"\n    ];\n    node [\n        fontsize = \"16\"\n        fontname = \"Arial\"\n        shape = \"plaintext\"\n        style = \"rounded, filled\"\n    ];\n    edge [\n        label = \" \"\n    ];\n\n    ".to_string();
    r.append(ts.as_str());
    r.append("\n\n    ");
    r.append(cs.as_str());
    r.append("\n\n    ");
    r.append(es.as_str());
    r.append("\n}\n");
    r
}

} // verus!
