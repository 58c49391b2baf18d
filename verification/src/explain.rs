//! The text of `explain`: a symbol's direct connections, the symbols its
//! change is likely to affect and the rule violations in its file; or a
//! path between two symbols, step by step.
use vstd::prelude::*;

use crate::error::{user_error, AppError, AppErrorView};
use crate::intel::classify::{semantic_kind, semantic_kind_of};
use crate::intel::pathfind::{PathResult, PathStepView};
use crate::intel::rules::{RuleViolation, ViolationView};
use crate::models::{Edge, EdgeView, Symbol, SymbolView};
use crate::order::{lemma_views_push, views};
use crate::select::select;
use crate::text::{decimal, owned, push_decimal, push_str, str_eq};
use crate::viewer::graph::{GraphData, GraphNodeView};

verus! {

// ---------------------------------------------------------------------------
// Specification
// ---------------------------------------------------------------------------
/// Each item's lines, one item after another.
pub open spec fn lines_each<A>(items: Seq<A>, f: spec_fn(A) -> Seq<Seq<char>>) -> Seq<Seq<char>>
    decreases items.len(),
{
    if items.len() == 0 {
        Seq::empty()
    } else {
        lines_each(items.drop_last(), f) + f(items.last())
    }
}

pub proof fn lemma_lines_each_take<A>(items: Seq<A>, f: spec_fn(A) -> Seq<Seq<char>>, i: int)
    requires
        0 <= i < items.len(),
    ensures
        lines_each(items.take(i + 1), f) == lines_each(items.take(i), f) + f(items[i]),
{
    assert(items.take(i + 1).drop_last() =~= items.take(i));
}

/// The groups of direct connections, in the order they are shown.
pub enum RelGroup {
    RenderedBy,
    ImportedBy,
    CalledBy,
    Calls,
}

/// Which group a connection of `target` belongs to, if any: its outgoing
/// calls, and its incoming calls, imports and renders.
pub open spec fn group_of(item: (EdgeView, SymbolView), target: i64) -> Option<RelGroup> {
    let e = item.0;
    if e.relation == "calls"@ && e.from_id == target {
        Some(RelGroup::Calls)
    } else if e.relation == "calls"@ && e.to_id == target {
        Some(RelGroup::CalledBy)
    } else if e.relation == "imports"@ && e.to_id == target {
        Some(RelGroup::ImportedBy)
    } else if e.relation == "renders"@ && e.to_id == target {
        Some(RelGroup::RenderedBy)
    } else {
        None
    }
}

pub open spec fn in_group(items: Seq<(EdgeView, SymbolView)>, target: i64, g: RelGroup) -> Seq<(EdgeView, SymbolView)> {
    select(items, |it: (EdgeView, SymbolView)| group_of(it, target) == Some(g))
}

pub open spec fn why_line(indent: Seq<char>, e: EdgeView) -> Seq<char> {
    indent + "why: "@ + e.reason + " | confidence: "@ + decimal(e.confidence as nat) + "% | origin: "@
        + e.origin_file + ":"@ + decimal(e.origin_line as nat)
}

pub open spec fn relation_lines(outgoing: bool) -> spec_fn((EdgeView, SymbolView)) -> Seq<Seq<char>> {
    |it: (EdgeView, SymbolView)|
        seq![
            "    "@ + (if outgoing {
                "->"@
            } else {
                "<-"@
            }) + " "@ + it.1.name + " "@ + it.1.file + ":"@ + decimal(it.1.line as nat) + " ("@
                + semantic_kind_of(it.1) + ")"@,
            why_line("      "@, it.0),
        ]
}

/// A titled group of connections followed by a blank line; nothing when the
/// group is empty.
pub open spec fn group_lines(title: Seq<char>, items: Seq<(EdgeView, SymbolView)>, outgoing: bool) -> Seq<Seq<char>> {
    if items.len() == 0 {
        Seq::empty()
    } else {
        seq!["  "@ + title + ":"@] + lines_each(items, relation_lines(outgoing)) + seq![Seq::empty()]
    }
}

pub open spec fn impact_node(n: GraphNodeView) -> bool {
    !n.is_center && n.impact_depth > 0
}

pub open spec fn impact_line() -> spec_fn(GraphNodeView) -> Seq<Seq<char>> {
    |n: GraphNodeView| seq!["    "@ + n.label + " ["@ + n.kind + "] "@ + n.file + ":"@ + decimal(n.line as nat)]
}

/// Up to 8 symbols the change may affect: the graph's non-center nodes
/// reached through callers.
pub open spec fn impact_lines(nodes: Seq<GraphNodeView>) -> Seq<Seq<char>> {
    let picked = select(nodes, |n: GraphNodeView| impact_node(n));
    let shown = if picked.len() > 8 {
        picked.take(8)
    } else {
        picked
    };
    if shown.len() == 0 {
        Seq::empty()
    } else {
        seq!["  Likely impact:"@] + lines_each(shown, impact_line()) + seq![Seq::empty()]
    }
}

pub open spec fn violation_line() -> spec_fn(ViolationView) -> Seq<Seq<char>> {
    |v: ViolationView|
        seq![
            "    "@ + v.file + ":"@ + decimal(v.line as nat) + " ["@ + v.rule + "] "@ + v.import_target
                + " -> "@ + v.detail,
        ]
}

pub open spec fn violation_lines(vs: Seq<ViolationView>, file: Seq<char>) -> Seq<Seq<char>> {
    let picked = select(vs, |v: ViolationView| v.file == file);
    if picked.len() == 0 {
        Seq::empty()
    } else {
        seq!["  Rule violations (heuristic):"@] + lines_each(picked, violation_line()) + seq![
            Seq::empty(),
        ]
    }
}

/// The lines `explain` prints for one definition.
pub open spec fn explain_text(
    t: SymbolView,
    changed: Seq<Seq<char>>,
    rels: Seq<(EdgeView, SymbolView)>,
    nodes: Seq<GraphNodeView>,
    vs: Seq<ViolationView>,
) -> Seq<Seq<char>> {
    let rendered = in_group(rels, t.id, RelGroup::RenderedBy);
    let imported = in_group(rels, t.id, RelGroup::ImportedBy);
    let called_by = in_group(rels, t.id, RelGroup::CalledBy);
    let calls = in_group(rels, t.id, RelGroup::Calls);
    seq![
        t.name + " ("@ + semantic_kind_of(t) + ", "@ + t.kind + ") - "@ + t.file + ":"@ + decimal(
            t.line as nat,
        ),
    ] + (if changed.contains(t.file) {
        seq!["  Changed in local git working tree (vs HEAD)"@]
    } else {
        Seq::empty()
    }) + seq![Seq::empty()] + group_lines("Rendered by"@, rendered, false) + group_lines(
        "Imported by"@,
        imported,
        false,
    ) + group_lines("Called by"@, called_by, false) + group_lines("Calls"@, calls, true)
        + impact_lines(nodes) + violation_lines(vs, t.file) + if rendered.len() == 0 && imported.len()
        == 0 && called_by.len() == 0 && calls.len() == 0 {
        seq!["  No direct connections found."@, Seq::empty()]
    } else {
        Seq::empty()
    }
}

pub open spec fn step_lines(ts: (int, PathStepView)) -> Seq<Seq<char>> {
    let (i, s) = ts;
    seq![
        "  "@ + decimal((i + 1) as nat) + ". "@ + s.from.name + " ["@ + semantic_kind_of(s.from) + "] "@
            + s.from.file + ":"@ + decimal(s.from.line as nat),
        "     --"@ + s.edge.relation + "--> "@ + s.to.name + " ["@ + semantic_kind_of(s.to) + "] "@
            + s.to.file + ":"@ + decimal(s.to.line as nat),
        why_line("     "@, s.edge),
    ]
}

/// The lines `explain FROM -> TO` prints for a path.
pub open spec fn path_text(from_query: Seq<char>, to_query: Seq<char>, steps: Seq<PathStepView>) -> Seq<Seq<char>> {
    seq!["Path: "@ + from_query + " -> "@ + to_query, Seq::empty()] + if steps.len() == 0 {
        seq!["  Start and end resolved to the same symbol."@]
    } else {
        lines_each(
            Seq::new(steps.len(), |i: int| (i, steps[i])),
            |ts: (int, PathStepView)| step_lines(ts),
        )
    }
}

// ---------------------------------------------------------------------------
// Implementation
// ---------------------------------------------------------------------------
fn push_line(out: &mut Vec<String>, line: String)
    ensures
        views(final(out)@) == views(old(out)@).push(line@),
{
    let ghost before = out@;
    out.push(line);
    proof {
        lemma_views_push(before, line);
    }
}

fn why_text(indent: &str, e: &Edge) -> (r: String)
    ensures
        r@ == why_line(indent@, e@),
{
    let mut s = owned(indent);
    push_str(&mut s, "why: ");
    push_str(&mut s, e.reason.as_str());
    push_str(&mut s, " | confidence: ");
    push_decimal(&mut s, e.confidence as u64);
    push_str(&mut s, "% | origin: ");
    push_str(&mut s, e.origin_file.as_str());
    push_str(&mut s, ":");
    push_decimal(&mut s, e.origin_line as u64);
    s
}

fn group_of_exec(item: &(Edge, Symbol), target: i64) -> (r: Option<RelGroup>)
    ensures
        r == group_of(item@, target),
{
    let e = &item.0;
    if str_eq(e.relation.as_str(), "calls") && e.from_id == target {
        Some(RelGroup::Calls)
    } else if str_eq(e.relation.as_str(), "calls") && e.to_id == target {
        Some(RelGroup::CalledBy)
    } else if str_eq(e.relation.as_str(), "imports") && e.to_id == target {
        Some(RelGroup::ImportedBy)
    } else if str_eq(e.relation.as_str(), "renders") && e.to_id == target {
        Some(RelGroup::RenderedBy)
    } else {
        None
    }
}

fn same_group(a: &Option<RelGroup>, g: &RelGroup) -> (r: bool)
    ensures
        r == (*a == Some(*g)),
{
    match (a, g) {
        (Some(RelGroup::RenderedBy), RelGroup::RenderedBy) => true,
        (Some(RelGroup::ImportedBy), RelGroup::ImportedBy) => true,
        (Some(RelGroup::CalledBy), RelGroup::CalledBy) => true,
        (Some(RelGroup::Calls), RelGroup::Calls) => true,
        _ => false,
    }
}

/// The connections of one group, in order.
fn collect_group(rels: &Vec<(Edge, Symbol)>, target: i64, g: RelGroup) -> (r: Vec<(Edge, Symbol)>)
    ensures
        views(r@) == in_group(views(rels@), target, g),
{
    let ghost rv = views(rels@);
    let mut out: Vec<(Edge, Symbol)> = Vec::new();
    let mut i: usize = 0;
    while i < rels.len()
        invariant
            i <= rels.len(),
            rv == views(rels@),
            views(out@) == select(rv.take(i as int), |it: (EdgeView, SymbolView)| group_of(it, target) == Some(g)),
        decreases rels.len() - i,
    {
        let it = &rels[i];
        assert(rv[i as int] == it@);
        assert(rv.take(i + 1).drop_last() =~= rv.take(i as int));
        let found = group_of_exec(it, target);
        if same_group(&found, &g) {
            let copy = (it.0.duplicate(), it.1.duplicate());
            let ghost before = out@;
            out.push(copy);
            proof {
                lemma_views_push(before, copy);
            }
        }
        i = i + 1;
    }
    assert(rv.take(i as int) =~= rv);
    out
}

fn push_group(out: &mut Vec<String>, title: &str, items: &Vec<(Edge, Symbol)>, outgoing: bool)
    ensures
        views(final(out)@) == views(old(out)@) + group_lines(title@, views(items@), outgoing),
{
    let ghost start = views(out@);
    let ghost iv = views(items@);
    if items.len() == 0 {
        assert(views(out@) =~= start + group_lines(title@, iv, outgoing));
        return;
    }
    let mut head = owned("  ");
    push_str(&mut head, title);
    push_str(&mut head, ":");
    push_line(out, head);
    let ghost base = views(out@);
    let mut i: usize = 0;
    assert(iv.take(0) =~= Seq::<(EdgeView, SymbolView)>::empty());
    assert(views(out@) =~= base + lines_each(iv.take(0), relation_lines(outgoing)));
    while i < items.len()
        invariant
            i <= items.len(),
            iv == views(items@),
            views(out@) == base + lines_each(iv.take(i as int), relation_lines(outgoing)),
        decreases items.len() - i,
    {
        let (e, s) = &items[i];
        assert(iv[i as int] == (e@, s@));
        let mut first = owned("    ");
        if outgoing {
            push_str(&mut first, "->");
        } else {
            push_str(&mut first, "<-");
        }
        push_str(&mut first, " ");
        push_str(&mut first, s.name.as_str());
        push_str(&mut first, " ");
        push_str(&mut first, s.file.as_str());
        push_str(&mut first, ":");
        push_decimal(&mut first, s.line as u64);
        push_str(&mut first, " (");
        push_str(&mut first, semantic_kind(s));
        push_str(&mut first, ")");
        let second = why_text("      ", e);
        let ghost before = views(out@);
        push_line(out, first);
        push_line(out, second);
        proof {
            lemma_lines_each_take(iv, relation_lines(outgoing), i as int);
            let f = relation_lines(outgoing);
            assert(f(iv[i as int]) =~= seq![first@, second@]);
            assert(views(out@) =~= base + lines_each(iv.take(i + 1), relation_lines(outgoing)));
        }
        i = i + 1;
    }
    assert(iv.take(i as int) =~= iv);
    push_line(out, String::new());
    assert(views(out@) =~= start + group_lines(title@, iv, outgoing));
}

/// What `explain` prints for one definition `target`: a header (marked when
/// its file is among `changed_files`), its direct connections from
/// `relations` (the index's edges with the symbol at their other end) by
/// group, up to 8 likely impacted symbols of its `graph`, the rule
/// violations of its file, and a note when it has no direct connection.
pub fn explain_symbol(
    target: &Symbol,
    changed_files: &Vec<String>,
    relations: &Vec<(Edge, Symbol)>,
    graph: &GraphData,
    violations: &Vec<RuleViolation>,
) -> (r: Vec<String>)
    ensures
        views(r@) == explain_text(
            target@,
            views(changed_files@),
            views(relations@),
            views(graph.nodes@),
            views(violations@),
        ),
{
    let ghost t = target@;
    let ghost rels = views(relations@);
    let mut out: Vec<String> = Vec::new();
    let mut head = owned(target.name.as_str());
    push_str(&mut head, " (");
    push_str(&mut head, semantic_kind(target));
    push_str(&mut head, ", ");
    push_str(&mut head, target.kind.as_str());
    push_str(&mut head, ") - ");
    push_str(&mut head, target.file.as_str());
    push_str(&mut head, ":");
    push_decimal(&mut head, target.line as u64);
    push_line(&mut out, head);
    let changed = file_in(changed_files, target.file.as_str());
    if changed {
        push_line(&mut out, owned("  Changed in local git working tree (vs HEAD)"));
    }
    push_line(&mut out, String::new());
    let ghost intro = views(out@);
    let rendered = collect_group(relations, target.id, RelGroup::RenderedBy);
    let imported = collect_group(relations, target.id, RelGroup::ImportedBy);
    let called_by = collect_group(relations, target.id, RelGroup::CalledBy);
    let calls = collect_group(relations, target.id, RelGroup::Calls);
    push_group(&mut out, "Rendered by", &rendered, false);
    push_group(&mut out, "Imported by", &imported, false);
    push_group(&mut out, "Called by", &called_by, false);
    push_group(&mut out, "Calls", &calls, true);
    let ghost groups = views(out@);
    push_impact(&mut out, graph);
    push_violations(&mut out, violations, target.file.as_str());
    let ghost tail_start = views(out@);
    if rendered.len() == 0 && imported.len() == 0 && called_by.len() == 0 && calls.len() == 0 {
        push_line(&mut out, owned("  No direct connections found."));
        push_line(&mut out, String::new());
    }
    assert(views(out@) =~= explain_text(
        t,
        views(changed_files@),
        rels,
        views(graph.nodes@),
        views(violations@),
    ));
    out
}

fn file_in(files: &Vec<String>, file: &str) -> (r: bool)
    ensures
        r == views(files@).contains(file@),
{
    let ghost fv = views(files@);
    let mut i: usize = 0;
    while i < files.len()
        invariant
            i <= files.len(),
            fv == views(files@),
            forall|k: int| 0 <= k < i ==> fv[k] != file@,
        decreases files.len() - i,
    {
        if str_eq(files[i].as_str(), file) {
            assert(fv[i as int] == file@);
            return true;
        }
        i = i + 1;
    }
    false
}

fn push_impact(out: &mut Vec<String>, graph: &GraphData)
    ensures
        views(final(out)@) == views(old(out)@) + impact_lines(views(graph.nodes@)),
{
    let ghost start = views(out@);
    let ghost nv = views(graph.nodes@);
    let ghost picked = select(nv, |n: GraphNodeView| impact_node(n));
    // the picked nodes' positions, in order
    let mut idx: Vec<usize> = Vec::new();
    let mut i: usize = 0;
    while i < graph.nodes.len()
        invariant
            i <= graph.nodes.len(),
            nv == views(graph.nodes@),
            idx@.len() == select(nv.take(i as int), |n: GraphNodeView| impact_node(n)).len(),
            forall|k: int| 0 <= k < idx@.len() ==> (#[trigger] idx@[k]) < graph.nodes.len() && nv[idx@[k] as int]
                == select(nv.take(i as int), |n: GraphNodeView| impact_node(n))[k],
        decreases graph.nodes.len() - i,
    {
        let n = &graph.nodes[i];
        assert(nv[i as int] == n@);
        assert(nv.take(i + 1).drop_last() =~= nv.take(i as int));
        if !n.is_center && n.impact_depth > 0 {
            idx.push(i);
        }
        i = i + 1;
    }
    assert(nv.take(i as int) =~= nv);
    let shown_len = if idx.len() > 8 {
        8
    } else {
        idx.len()
    };
    let ghost shown = if picked.len() > 8 {
        picked.take(8)
    } else {
        picked
    };
    assert(shown.len() == shown_len);
    if shown_len == 0 {
        assert(views(out@) =~= start + impact_lines(nv));
        return;
    }
    push_line(out, owned("  Likely impact:"));
    let ghost base = views(out@);
    let mut k: usize = 0;
    assert(views(out@) =~= base + lines_each(shown.take(0), impact_line()));
    while k < shown_len
        invariant
            k <= shown_len <= idx@.len(),
            shown_len == shown.len(),
            nv == views(graph.nodes@),
            forall|j: int| 0 <= j < idx@.len() ==> (#[trigger] idx@[j]) < graph.nodes.len() && nv[idx@[j] as int]
                == picked[j],
            forall|j: int| 0 <= j < shown.len() ==> shown[j] == picked[j],
            views(out@) == base + lines_each(shown.take(k as int), impact_line()),
        decreases shown_len - k,
    {
        let n = &graph.nodes[idx[k]];
        assert(n@ == shown[k as int]);
        let mut line = owned("    ");
        push_str(&mut line, n.label.as_str());
        push_str(&mut line, " [");
        push_str(&mut line, n.kind.as_str());
        push_str(&mut line, "] ");
        push_str(&mut line, n.file.as_str());
        push_str(&mut line, ":");
        push_decimal(&mut line, n.line as u64);
        push_line(out, line);
        proof {
            lemma_lines_each_take(shown, impact_line(), k as int);
            let f = impact_line();
            assert(f(shown[k as int]) =~= seq![line@]);
        }
        k = k + 1;
    }
    assert(shown.take(k as int) =~= shown);
    push_line(out, String::new());
    assert(views(out@) =~= start + impact_lines(nv));
}

fn push_violations(out: &mut Vec<String>, violations: &Vec<RuleViolation>, file: &str)
    ensures
        views(final(out)@) == views(old(out)@) + violation_lines(views(violations@), file@),
{
    let ghost start = views(out@);
    let ghost vv = views(violations@);
    let ghost picked = select(vv, |v: ViolationView| v.file == file@);
    let mut lines: Vec<String> = Vec::new();
    let mut count: usize = 0;
    let mut i: usize = 0;
    while i < violations.len()
        invariant
            i <= violations.len(),
            vv == views(violations@),
            count <= i,
            count == select(vv.take(i as int), |v: ViolationView| v.file == file@).len(),
            views(lines@) == lines_each(select(vv.take(i as int), |v: ViolationView| v.file == file@), violation_line()),
        decreases violations.len() - i,
    {
        let v = &violations[i];
        assert(vv[i as int] == v@);
        assert(vv.take(i + 1).drop_last() =~= vv.take(i as int));
        if str_eq(v.file.as_str(), file) {
            let mut line = owned("    ");
            push_str(&mut line, v.file.as_str());
            push_str(&mut line, ":");
            push_decimal(&mut line, v.line as u64);
            push_str(&mut line, " [");
            push_str(&mut line, v.rule);
            push_str(&mut line, "] ");
            push_str(&mut line, v.import_target.as_str());
            push_str(&mut line, " -> ");
            push_str(&mut line, v.detail.as_str());
            push_line(&mut lines, line);
            proof {
                let sel = select(vv.take(i as int), |v: ViolationView| v.file == file@);
                assert(select(vv.take(i + 1), |v: ViolationView| v.file == file@).drop_last() =~= sel);
                let f = violation_line();
                assert(f(v@) =~= seq![line@]);
            }
            count = count + 1;
        }
        i = i + 1;
    }
    assert(vv.take(i as int) =~= vv);
    if count == 0 {
        assert(views(out@) =~= start + violation_lines(vv, file@));
        return;
    }
    push_line(out, owned("  Rule violations (heuristic):"));
    let mut k: usize = 0;
    let ghost base = views(out@);
    while k < lines.len()
        invariant
            k <= lines.len(),
            views(out@) == base + views(lines@).take(k as int),
        decreases lines.len() - k,
    {
        let line = lines[k].clone();
        let ghost before = views(out@);
        push_line(out, line);
        assert(views(lines@).take(k + 1) =~= views(lines@).take(k as int).push(line@));
        k = k + 1;
    }
    assert(views(lines@).take(k as int) =~= views(lines@));
    push_line(out, String::new());
    assert(views(out@) =~= start + violation_lines(vv, file@));
}

/// What `explain FROM -> TO` prints: the path found, step by step, or the
/// user error `no path found from 'FROM' to 'TO'.` when there is none.
pub fn explain_path(path: &Option<PathResult>, from: &str, to: &str) -> (r: Result<Vec<String>, AppError>)
    ensures
        match path {
            None => r matches Err(e) && e@ == AppErrorView::User(
                "no path found from '"@ + from@ + "' to '"@ + to@ + "'."@,
            ),
            Some(p) => r matches Ok(lines) && views(lines@) == path_text(
                p.from_query@,
                p.to_query@,
                views(p.steps@),
            ),
        },
{
    match path {
        None => {
            let mut message = owned("no path found from '");
            push_str(&mut message, from);
            push_str(&mut message, "' to '");
            push_str(&mut message, to);
            push_str(&mut message, "'.");
            Err(user_error(message))
        },
        Some(p) => {
            let ghost sv = views(p.steps@);
            let mut out: Vec<String> = Vec::new();
            let mut head = owned("Path: ");
            push_str(&mut head, p.from_query.as_str());
            push_str(&mut head, " -> ");
            push_str(&mut head, p.to_query.as_str());
            push_line(&mut out, head);
            push_line(&mut out, String::new());
            if p.steps.len() == 0 {
                push_line(&mut out, owned("  Start and end resolved to the same symbol."));
                assert(views(out@) =~= path_text(p.from_query@, p.to_query@, sv));
                return Ok(out);
            }
            let ghost numbered = Seq::new(sv.len(), |i: int| (i, sv[i]));
            let ghost base = views(out@);
            let mut i: usize = 0;
            assert(views(out@) =~= base + lines_each(
                numbered.take(0),
                |ts: (int, PathStepView)| step_lines(ts),
            ));
            while i < p.steps.len()
                invariant
                    i <= p.steps.len(),
                    sv == views(p.steps@),
                    numbered == Seq::new(sv.len(), |i: int| (i, sv[i])),
                    views(out@) == base + lines_each(
                        numbered.take(i as int),
                        |ts: (int, PathStepView)| step_lines(ts),
                    ),
                decreases p.steps.len() - i,
            {
                let step = &p.steps[i];
                assert(sv[i as int] == step@);
                let mut first = owned("  ");
                push_decimal(&mut first, (i + 1) as u64);
                push_str(&mut first, ". ");
                push_str(&mut first, step.from.name.as_str());
                push_str(&mut first, " [");
                push_str(&mut first, semantic_kind(&step.from));
                push_str(&mut first, "] ");
                push_str(&mut first, step.from.file.as_str());
                push_str(&mut first, ":");
                push_decimal(&mut first, step.from.line as u64);
                let mut second = owned("     --");
                push_str(&mut second, step.edge.relation.as_str());
                push_str(&mut second, "--> ");
                push_str(&mut second, step.to.name.as_str());
                push_str(&mut second, " [");
                push_str(&mut second, semantic_kind(&step.to));
                push_str(&mut second, "] ");
                push_str(&mut second, step.to.file.as_str());
                push_str(&mut second, ":");
                push_decimal(&mut second, step.to.line as u64);
                let third = why_text("     ", &step.edge);
                push_line(&mut out, first);
                push_line(&mut out, second);
                push_line(&mut out, third);
                proof {
                    lemma_lines_each_take(numbered, |ts: (int, PathStepView)| step_lines(ts), i as int);
                    assert(numbered[i as int] == (i as int, sv[i as int]));
                    assert(step_lines((i as int, sv[i as int])) =~= seq![first@, second@, third@]);
                }
                i = i + 1;
            }
            assert(numbered.take(i as int) =~= numbered);
            assert(views(out@) =~= path_text(p.from_query@, p.to_query@, sv));
            Ok(out)
        },
    }
}

} // verus!
