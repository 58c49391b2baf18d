//! The graph as Graphviz DOT.
use vstd::prelude::*;

use super::graph::{GraphData, GraphEdge, GraphEdgeView, GraphNode, GraphNodeView};
use crate::order::views;
use crate::text::{
    chars_of, concat, decimal_int, lemma_concat_push, push_chars, push_decimal_i64, push_str,
};

verus! {

/// How one character is written inside a quoted DOT string: a backslash is
/// doubled, a quote becomes `\"`, a line break `\n`, and anything else stays.
pub open spec fn dot_char(c: char) -> Seq<char> {
    if c == '\\' {
        seq!['\\', '\\']
    } else if c == '"' {
        seq!['\\', '"']
    } else if c == '\n' {
        seq!['\\', 'n']
    } else {
        seq![c]
    }
}

/// A text escaped for a quoted DOT string, character by character.
pub open spec fn escape_dot_of(s: Seq<char>) -> Seq<char>
    decreases s.len(),
{
    if s.len() == 0 {
        Seq::empty()
    } else {
        escape_dot_of(s.drop_last()) + dot_char(s.last())
    }
}

pub open spec fn dot_header() -> Seq<char> {
    "digraph LinkMap {\n"@ + "  node [shape=box, style=filled, fontname=\"Helvetica,Arial,sans-serif\"];\n"@
        + "  edge [fontname=\"Helvetica,Arial,sans-serif\", fontsize=10];\n\n"@
}

/// Gold for the center, rose for a changed symbol, light gray otherwise.
pub open spec fn dot_node_color(n: GraphNodeView) -> Seq<char> {
    if n.is_center {
        "\"#FFD700\""@
    } else if n.is_changed {
        "\"#fb7185\""@
    } else {
        "\"#e2e8f0\""@
    }
}

pub open spec fn dot_node_line(n: GraphNodeView) -> Seq<char> {
    "  n"@ + decimal_int(n.id as int) + " [label=\""@ + escape_dot_of(n.label) + "\\n"@
        + escape_dot_of(n.kind) + "\", fillcolor="@ + dot_node_color(n) + "];\n"@
}

pub open spec fn dot_edge_color(e: GraphEdgeView) -> Seq<char> {
    if e.changed {
        "\"#fbbf24\""@
    } else {
        "\"#64748b\""@
    }
}

pub open spec fn dot_edge_line(e: GraphEdgeView) -> Seq<char> {
    "  n"@ + decimal_int(e.from as int) + " -> n"@ + decimal_int(e.to as int) + " [label=\""@
        + escape_dot_of(e.label) + "\", color="@ + dot_edge_color(e) + "];\n"@
}

/// The DOT text of a graph: a header, a line per node, a blank line, a line
/// per edge and the closing brace.
pub open spec fn dot_text(nodes: Seq<GraphNodeView>, edges: Seq<GraphEdgeView>) -> Seq<char> {
    dot_header() + concat(nodes.map_values(|n: GraphNodeView| dot_node_line(n))) + "\n"@ + concat(
        edges.map_values(|e: GraphEdgeView| dot_edge_line(e)),
    ) + "}\n"@
}

pub fn escape_dot(s: &str) -> (r: Vec<char>)
    ensures
        r@ == escape_dot_of(s@),
{
    let cs = chars_of(s);
    let mut out: Vec<char> = Vec::new();
    let mut i: usize = 0;
    while i < cs.len()
        invariant
            i <= cs.len(),
            out@ == escape_dot_of(cs@.take(i as int)),
        decreases cs.len() - i,
    {
        let c = cs[i];
        if c == '\\' {
            out.push('\\');
            out.push('\\');
        } else if c == '"' {
            out.push('\\');
            out.push('"');
        } else if c == '\n' {
            out.push('\\');
            out.push('n');
        } else {
            out.push(c);
        }
        assert(cs@.take(i + 1).drop_last() =~= cs@.take(i as int));
        assert(out@ =~= escape_dot_of(cs@.take(i + 1)));
        i = i + 1;
    }
    assert(cs@.take(cs.len() as int) =~= cs@);
    out
}

fn push_node_line(out: &mut String, node: &GraphNode)
    ensures
        final(out)@ == old(out)@ + dot_node_line(node@),
{
    push_str(out, "  n");
    push_decimal_i64(out, node.id);
    push_str(out, " [label=\"");
    let label = escape_dot(node.label.as_str());
    push_chars(out, label.as_slice());
    push_str(out, "\\n");
    let kind = escape_dot(node.kind.as_str());
    push_chars(out, kind.as_slice());
    push_str(out, "\", fillcolor=");
    if node.is_center {
        push_str(out, "\"#FFD700\"");
    } else if node.is_changed {
        push_str(out, "\"#fb7185\"");
    } else {
        push_str(out, "\"#e2e8f0\"");
    }
    push_str(out, "];\n");
    assert(final(out)@ =~= old(out)@ + dot_node_line(node@));
}

fn push_edge_line(out: &mut String, edge: &GraphEdge)
    ensures
        final(out)@ == old(out)@ + dot_edge_line(edge@),
{
    push_str(out, "  n");
    push_decimal_i64(out, edge.from);
    push_str(out, " -> n");
    push_decimal_i64(out, edge.to);
    push_str(out, " [label=\"");
    let label = escape_dot(edge.label.as_str());
    push_chars(out, label.as_slice());
    push_str(out, "\", color=");
    if edge.changed {
        push_str(out, "\"#fbbf24\"");
    } else {
        push_str(out, "\"#64748b\"");
    }
    push_str(out, "];\n");
    assert(final(out)@ =~= old(out)@ + dot_edge_line(edge@));
}

/// The graph in Graphviz DOT: boxes labelled with the node's label and kind
/// (gold for the center, rose when changed), edges labelled with their
/// relation (amber when changed).
pub fn graph_to_dot(data: &GraphData) -> (r: String)
    ensures
        r@ == dot_text(views(data.nodes@), views(data.edges@)),
{
    let ghost ns = views(data.nodes@);
    let ghost es = views(data.edges@);
    let mut dot = String::new();
    push_str(&mut dot, "digraph LinkMap {\n");
    push_str(&mut dot, "  node [shape=box, style=filled, fontname=\"Helvetica,Arial,sans-serif\"];\n");
    push_str(&mut dot, "  edge [fontname=\"Helvetica,Arial,sans-serif\", fontsize=10];\n\n");
    assert(dot@ =~= dot_header() + concat(ns.take(0).map_values(|n: GraphNodeView| dot_node_line(n))));
    let mut i: usize = 0;
    while i < data.nodes.len()
        invariant
            i <= data.nodes.len(),
            ns == views(data.nodes@),
            dot@ == dot_header() + concat(ns.take(i as int).map_values(|n: GraphNodeView| dot_node_line(n))),
        decreases data.nodes.len() - i,
    {
        push_node_line(&mut dot, &data.nodes[i]);
        proof {
            assert(ns[i as int] == data.nodes@[i as int]@);
            assert(ns.take(i + 1).map_values(|n: GraphNodeView| dot_node_line(n)) =~= ns.take(
                i as int,
            ).map_values(|n: GraphNodeView| dot_node_line(n)).push(dot_node_line(ns[i as int])));
            lemma_concat_push(
                ns.take(i as int).map_values(|n: GraphNodeView| dot_node_line(n)),
                dot_node_line(ns[i as int]),
            );
        }
        i = i + 1;
    }
    assert(ns.take(i as int) =~= ns);
    push_str(&mut dot, "\n");
    let ghost mid = dot@;
    assert(dot@ =~= mid + concat(es.take(0).map_values(|e: GraphEdgeView| dot_edge_line(e))));
    let mut j: usize = 0;
    while j < data.edges.len()
        invariant
            j <= data.edges.len(),
            es == views(data.edges@),
            dot@ == mid + concat(es.take(j as int).map_values(|e: GraphEdgeView| dot_edge_line(e))),
        decreases data.edges.len() - j,
    {
        push_edge_line(&mut dot, &data.edges[j]);
        proof {
            assert(es[j as int] == data.edges@[j as int]@);
            assert(es.take(j + 1).map_values(|e: GraphEdgeView| dot_edge_line(e)) =~= es.take(
                j as int,
            ).map_values(|e: GraphEdgeView| dot_edge_line(e)).push(dot_edge_line(es[j as int])));
            lemma_concat_push(
                es.take(j as int).map_values(|e: GraphEdgeView| dot_edge_line(e)),
                dot_edge_line(es[j as int]),
            );
        }
        j = j + 1;
    }
    assert(es.take(j as int) =~= es);
    push_str(&mut dot, "}\n");
    assert(dot@ =~= dot_text(ns, es));
    dot
}

// ---------------------------------------------------------------------------
// Laws
// ---------------------------------------------------------------------------
/// Text that a quoted DOT string holds as it is: plain characters (no
/// backslash, quote or line break) and the escapes `\\`, `\"` and `\n`.
pub open spec fn dot_quotable(t: Seq<char>) -> bool
    decreases t.len(),
{
    if t.len() == 0 {
        true
    } else if t[0] == '\\' {
        t.len() >= 2 && (t[1] == '\\' || t[1] == '"' || t[1] == 'n') && dot_quotable(t.skip(2))
    } else {
        t[0] != '"' && t[0] != '\n' && dot_quotable(t.skip(1))
    }
}

/// The text a DOT reader takes a quoted string to hold: `\n` is a line
/// break, and a backslash before any other character stands for that
/// character.
pub open spec fn dot_unquoted(t: Seq<char>) -> Seq<char>
    decreases t.len(),
{
    if t.len() == 0 {
        Seq::empty()
    } else if t[0] == '\\' && t.len() >= 2 {
        seq![if t[1] == 'n' { '\n' } else { t[1] }] + dot_unquoted(t.skip(2))
    } else {
        seq![t[0]] + dot_unquoted(t.skip(1))
    }
}

proof fn lemma_quotable_concat(a: Seq<char>, b: Seq<char>)
    requires
        dot_quotable(a),
    ensures
        dot_quotable(a + b) == dot_quotable(b),
        dot_unquoted(a + b) == dot_unquoted(a) + dot_unquoted(b),
    decreases a.len(),
{
    if a.len() == 0 {
        assert(a + b =~= b);
        assert(dot_unquoted(a) + dot_unquoted(b) =~= dot_unquoted(b));
    } else {
        let k: int = if a[0] == '\\' { 2 } else { 1 };
        lemma_quotable_concat(a.skip(k), b);
        assert((a + b).skip(k) =~= a.skip(k) + b);
        assert((a + b)[0] == a[0]);
        if k == 2 {
            assert((a + b)[1] == a[1]);
        }
        let head = dot_unquoted(a).take(1);
        assert(dot_unquoted(a) =~= head + dot_unquoted(a.skip(k)));
        assert(dot_unquoted(a + b) =~= head + dot_unquoted(a.skip(k) + b));
        assert(dot_unquoted(a + b) =~= dot_unquoted(a) + dot_unquoted(b));
    }
}

proof fn lemma_dot_char(c: char)
    ensures
        dot_quotable(dot_char(c)),
        dot_unquoted(dot_char(c)) == seq![c],
{
    reveal_with_fuel(dot_quotable, 2);
    reveal_with_fuel(dot_unquoted, 2);
    let t = dot_char(c);
    assert(t.skip(t.len() as int) =~= Seq::<char>::empty());
    if t.len() == 2 {
        assert(t.skip(2) =~= Seq::<char>::empty());
    } else {
        assert(t.skip(1) =~= Seq::<char>::empty());
    }
    assert(dot_unquoted(dot_char(c)) =~= seq![c]);
}

/// DOT-escaped text is a valid quoted DOT string, and a DOT reader gets back
/// exactly the text that was escaped.
pub proof fn lemma_dot_escaped_stays_quoted(s: Seq<char>)
    ensures
        dot_quotable(escape_dot_of(s)),
        dot_unquoted(escape_dot_of(s)) == s,
    decreases s.len(),
{
    if s.len() == 0 {
        assert(dot_unquoted(Seq::<char>::empty()) =~= Seq::<char>::empty());
    } else {
        lemma_dot_escaped_stays_quoted(s.drop_last());
        lemma_dot_char(s.last());
        lemma_quotable_concat(escape_dot_of(s.drop_last()), dot_char(s.last()));
        assert(s.drop_last() + seq![s.last()] =~= s);
    }
}

} // verus!
