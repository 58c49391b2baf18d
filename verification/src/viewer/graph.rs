//! The impact graph of a symbol: the symbols that reach it through incoming
//! edges, breadth first, up to a depth and a node budget, and the symbols it
//! reaches directly.
use vstd::prelude::*;

use crate::intel::classify::{
    route_path_for_file, route_path_of, semantic_kind, semantic_kind_of, semantic_label,
    semantic_label_of,
};
use crate::models::{Edge, EdgeView, Symbol, SymbolView};
use crate::order::views;
use crate::text::{decimal, owned, push_decimal, push_str, seq_lt, str_eq, str_lt};
use crate::text::lemma_seq_lt_facts;

verus! {

broadcast use vstd::seq_lib::group_to_multiset_ensures;

/// Callers are followed at most this many edges away from the symbol.
pub const MAX_IMPACT_DEPTH: usize = 4;

/// The graph holds at most this many symbols.
pub const MAX_GRAPH_NODES: usize = 64;

/// A symbol of the graph.
#[derive(Debug)]
pub struct GraphNode {
    pub id: i64,
    pub label: String,
    pub kind: String,
    pub title: String,
    pub file: String,
    pub line: u32,
    pub col: u32,
    pub is_center: bool,
    pub is_changed: bool,
    pub impact_depth: usize,
}

pub struct GraphNodeView {
    pub id: i64,
    pub label: Seq<char>,
    pub kind: Seq<char>,
    pub title: Seq<char>,
    pub file: Seq<char>,
    pub line: u32,
    pub col: u32,
    pub is_center: bool,
    pub is_changed: bool,
    pub impact_depth: nat,
}

impl View for GraphNode {
    type V = GraphNodeView;

    open spec fn view(&self) -> GraphNodeView {
        GraphNodeView {
            id: self.id,
            label: self.label@,
            kind: self.kind@,
            title: self.title@,
            file: self.file@,
            line: self.line,
            col: self.col,
            is_center: self.is_center,
            is_changed: self.is_changed,
            impact_depth: self.impact_depth as nat,
        }
    }
}

/// An edge of the graph.
#[derive(Debug)]
pub struct GraphEdge {
    pub from: i64,
    pub to: i64,
    pub label: String,
    pub title: String,
    pub changed: bool,
}

pub struct GraphEdgeView {
    pub from: i64,
    pub to: i64,
    pub label: Seq<char>,
    pub title: Seq<char>,
    pub changed: bool,
}

impl View for GraphEdge {
    type V = GraphEdgeView;

    open spec fn view(&self) -> GraphEdgeView {
        GraphEdgeView {
            from: self.from,
            to: self.to,
            label: self.label@,
            title: self.title@,
            changed: self.changed,
        }
    }
}

/// The graph of a symbol, ready to be rendered.
#[derive(Debug)]
pub struct GraphData {
    pub center_symbol: Symbol,
    pub nodes: Vec<GraphNode>,
    pub edges: Vec<GraphEdge>,
}

// ---------------------------------------------------------------------------
// Specification: the walk
// ---------------------------------------------------------------------------
/// Two edges with the same ends and relation count once.
pub open spec fn same_key(a: EdgeView, b: EdgeView) -> bool {
    a.from_id == b.from_id && a.to_id == b.to_id && a.relation == b.relation
}

pub open spec fn key_seen(es: Seq<EdgeView>, e: EdgeView) -> bool {
    exists|i: int| 0 <= i < es.len() && #[trigger] same_key(es[i], e)
}

/// The state of the walk: the symbols taken so far, in the order they were
/// reached, each with its depth, and the edges taken so far.
pub struct Walk {
    pub ids: Seq<i64>,
    pub depths: Seq<nat>,
    pub edges: Seq<EdgeView>,
}

pub open spec fn keep_edge(w: Walk, e: EdgeView) -> Walk {
    if key_seen(w.edges, e) {
        w
    } else {
        Walk { ids: w.ids, depths: w.depths, edges: w.edges.push(e) }
    }
}

/// Takes symbol `id` at `depth`, unless it is taken already or the budget is
/// spent.
pub open spec fn add_node(w: Walk, id: i64, depth: nat) -> Walk {
    if w.ids.len() >= MAX_GRAPH_NODES || w.ids.contains(id) {
        w
    } else {
        Walk { ids: w.ids.push(id), depths: w.depths.push(depth), edges: w.edges }
    }
}

/// Expands the symbol `target` taken at `depth`: each edge into it, from
/// index `j` of `es` on, is taken with its source one level deeper.
pub open spec fn expand(w: Walk, es: Seq<EdgeView>, target: i64, depth: nat, j: int) -> Walk
    decreases es.len() - j,
{
    if j < 0 || j >= es.len() {
        w
    } else if es[j].to_id == target {
        expand(add_node(keep_edge(w, es[j]), es[j].from_id, depth + 1), es, target, depth, j + 1)
    } else {
        expand(w, es, target, depth, j + 1)
    }
}

/// Expands the taken symbols from the `k`-th on, in the order they were
/// taken (breadth first); symbols at the depth limit, or reached once the
/// budget is spent, are not expanded.
pub open spec fn walk_callers(w: Walk, es: Seq<EdgeView>, k: int) -> Walk
    decreases MAX_GRAPH_NODES - k,
{
    if k < 0 || k >= w.ids.len() || k >= MAX_GRAPH_NODES {
        w
    } else if w.depths[k] >= MAX_IMPACT_DEPTH || w.ids.len() >= MAX_GRAPH_NODES {
        walk_callers(w, es, k + 1)
    } else {
        walk_callers(expand(w, es, w.ids[k], w.depths[k], 0), es, k + 1)
    }
}

/// Takes the edges out of `center`, from index `j` on, with their targets at
/// depth 0.
pub open spec fn add_callees(w: Walk, es: Seq<EdgeView>, center: i64, j: int) -> Walk
    decreases es.len() - j,
{
    if j < 0 || j >= es.len() {
        w
    } else if es[j].from_id == center {
        add_callees(add_node(keep_edge(w, es[j]), es[j].to_id, 0), es, center, j + 1)
    } else {
        add_callees(w, es, center, j + 1)
    }
}

pub open spec fn start_walk(center: i64) -> Walk {
    Walk { ids: seq![center], depths: seq![0nat], edges: Seq::empty() }
}

/// The whole walk from `center` over the edges `es`.
pub open spec fn impact_walk(center: i64, es: Seq<EdgeView>) -> Walk {
    add_callees(walk_callers(start_walk(center), es, 0), es, center, 0)
}

// ---------------------------------------------------------------------------
// Specification: nodes and edges
// ---------------------------------------------------------------------------
/// The last of the first `n` symbols with this id (later rows win).
pub open spec fn symbol_with_id(ss: Seq<SymbolView>, id: i64, n: int) -> Option<SymbolView>
    decreases n,
{
    if n <= 0 || n > ss.len() {
        None
    } else if ss[n - 1].id == id {
        Some(ss[n - 1])
    } else {
        symbol_with_id(ss, id, n - 1)
    }
}

pub open spec fn lookup(ss: Seq<SymbolView>, id: i64) -> Option<SymbolView> {
    symbol_with_id(ss, id, ss.len() as int)
}

pub open spec fn node_title(s: SymbolView, kind: Seq<char>, changed: bool, depth: nat) -> Seq<char> {
    s.name + "\nkind: "@ + kind + "\nfile: "@ + s.file + "\nline: "@ + decimal(s.line as nat) + (
    if changed {
        "\nchanged in local git working tree (vs HEAD)"@
    } else {
        Seq::empty()
    }) + (if depth > 0 {
        "\nimpact depth: "@ + decimal(depth)
    } else {
        Seq::empty()
    }) + match route_path_of(s.file) {
        Some(r) => "\nroute: "@ + r,
        None => Seq::empty(),
    }
}

pub open spec fn node_of(s: SymbolView, depth: nat, changed: Seq<Seq<char>>, center: i64) -> GraphNodeView {
    let kind = semantic_kind_of(s);
    let ch = changed.contains(s.file);
    GraphNodeView {
        id: s.id,
        label: semantic_label_of(s),
        kind: kind,
        title: node_title(s, kind, ch, depth),
        file: s.file,
        line: s.line,
        col: s.col,
        is_center: s.id == center,
        is_changed: ch,
        impact_depth: depth,
    }
}

/// The nodes of the first `n` symbols of the walk that are in `ss`, in walk
/// order.
pub open spec fn node_candidates(
    w: Walk,
    ss: Seq<SymbolView>,
    changed: Seq<Seq<char>>,
    center: i64,
    n: int,
) -> Seq<GraphNodeView>
    decreases n,
{
    if n <= 0 {
        Seq::empty()
    } else {
        node_candidates(w, ss, changed, center, n - 1) + match lookup(ss, w.ids[n - 1]) {
            Some(s) => seq![node_of(s, w.depths[n - 1], changed, center)],
            None => Seq::empty(),
        }
    }
}

/// Display order of nodes: by depth, then file, line and label.
pub open spec fn node_before(a: GraphNodeView, b: GraphNodeView) -> bool {
    ||| a.impact_depth < b.impact_depth
    ||| a.impact_depth == b.impact_depth && seq_lt(a.file, b.file)
    ||| a.impact_depth == b.impact_depth && a.file == b.file && a.line < b.line
    ||| a.impact_depth == b.impact_depth && a.file == b.file && a.line == b.line && seq_lt(
        a.label,
        b.label,
    )
}

pub open spec fn nodes_sorted(s: Seq<GraphNodeView>) -> bool {
    forall|i: int, j: int| 0 <= i < j < s.len() ==> !node_before(#[trigger] s[j], #[trigger] s[i])
}

pub open spec fn edge_title(e: EdgeView) -> Seq<char> {
    e.relation + "\nwhy: "@ + e.reason + "\norigin: "@ + e.origin_file + ":"@ + decimal(
        e.origin_line as nat,
    ) + "\nconfidence: "@ + decimal(e.confidence as nat) + "%"@
}

/// An edge touches the working tree's changes through its origin file or the
/// file of either end.
pub open spec fn touches_changed(e: EdgeView, ss: Seq<SymbolView>, changed: Seq<Seq<char>>) -> bool {
    ||| changed.contains(e.origin_file)
    ||| (lookup(ss, e.from_id) matches Some(s) && changed.contains(s.file))
    ||| (lookup(ss, e.to_id) matches Some(s) && changed.contains(s.file))
}

pub open spec fn graph_edge_of(e: EdgeView, ss: Seq<SymbolView>, changed: Seq<Seq<char>>) -> GraphEdgeView {
    GraphEdgeView {
        from: e.from_id,
        to: e.to_id,
        label: e.relation,
        title: edge_title(e),
        changed: touches_changed(e, ss, changed),
    }
}


// ---------------------------------------------------------------------------
// Laws of the walk
// ---------------------------------------------------------------------------
/// The walk's shape: one depth per taken symbol, no symbol twice, within the
/// budget, depths within the limit, and no two taken edges alike.
pub open spec fn walk_wf(w: Walk) -> bool {
    &&& w.ids.len() == w.depths.len()
    &&& 1 <= w.ids.len() <= MAX_GRAPH_NODES
    &&& w.ids.no_duplicates()
    &&& forall|k: int| 0 <= k < w.depths.len() ==> #[trigger] w.depths[k] <= MAX_IMPACT_DEPTH
    &&& forall|a: int, b: int|
        0 <= a < b < w.edges.len() ==> !same_key(#[trigger] w.edges[a], #[trigger] w.edges[b])
}

/// The walk only grows: what it had stays in place.
pub open spec fn walk_extends(w: Walk, v: Walk) -> bool {
    &&& w.ids.len() <= v.ids.len()
    &&& w.edges.len() <= v.edges.len()
    &&& w.depths.len() <= v.depths.len()
    &&& v.ids.take(w.ids.len() as int) == w.ids
    &&& v.depths.take(w.depths.len() as int) == w.depths
    &&& v.edges.take(w.edges.len() as int) == w.edges
}

proof fn lemma_keep_edge(w: Walk, e: EdgeView)
    requires
        walk_wf(w),
    ensures
        walk_wf(keep_edge(w, e)),
        walk_extends(w, keep_edge(w, e)),
{
    let v = keep_edge(w, e);
    if !key_seen(w.edges, e) {
        assert forall|a: int, b: int| 0 <= a < b < v.edges.len() implies !same_key(
            #[trigger] v.edges[a],
            #[trigger] v.edges[b],
        ) by {
            if b == w.edges.len() {
                assert(v.edges[a] == w.edges[a]);
                if same_key(v.edges[a], v.edges[b]) {
                    assert(same_key(w.edges[a], e));
                }
            }
        }
    }
    assert(v.ids.take(w.ids.len() as int) =~= w.ids);
    assert(v.depths.take(w.depths.len() as int) =~= w.depths);
    assert(v.edges.take(w.edges.len() as int) =~= w.edges);
}

proof fn lemma_add_node(w: Walk, id: i64, depth: nat)
    requires
        walk_wf(w),
        depth <= MAX_IMPACT_DEPTH,
    ensures
        walk_wf(add_node(w, id, depth)),
        walk_extends(w, add_node(w, id, depth)),
{
    let v = add_node(w, id, depth);
    assert(v.ids.take(w.ids.len() as int) =~= w.ids);
    assert(v.depths.take(w.depths.len() as int) =~= w.depths);
    assert(v.edges.take(w.edges.len() as int) =~= w.edges);
    if !(w.ids.len() >= MAX_GRAPH_NODES || w.ids.contains(id)) {
        assert forall|a: int, b: int| 0 <= a < v.ids.len() && 0 <= b < v.ids.len() && a != b implies v.ids[a]
            != v.ids[b] by {
            if a == w.ids.len() as int {
                assert(w.ids[b] == v.ids[b]);
            } else if b == w.ids.len() as int {
                assert(w.ids[a] == v.ids[a]);
            }
        }
        assert forall|k: int| 0 <= k < v.depths.len() implies #[trigger] v.depths[k] <= MAX_IMPACT_DEPTH by {
            if k < w.depths.len() {
                assert(v.depths[k] == w.depths[k]);
            }
        }
    }
}

proof fn lemma_extends_trans(a: Walk, b: Walk, c: Walk)
    requires
        walk_extends(a, b),
        walk_extends(b, c),
    ensures
        walk_extends(a, c),
{
    assert(c.ids.take(a.ids.len() as int) =~= c.ids.take(b.ids.len() as int).take(a.ids.len() as int));
    assert(c.depths.take(a.depths.len() as int) =~= c.depths.take(b.depths.len() as int).take(
        a.depths.len() as int,
    ));
    assert(c.edges.take(a.edges.len() as int) =~= c.edges.take(b.edges.len() as int).take(
        a.edges.len() as int,
    ));
}

proof fn lemma_extends_refl(a: Walk)
    ensures
        walk_extends(a, a),
{
    assert(a.ids.take(a.ids.len() as int) =~= a.ids);
    assert(a.depths.take(a.depths.len() as int) =~= a.depths);
    assert(a.edges.take(a.edges.len() as int) =~= a.edges);
}

proof fn lemma_expand(w: Walk, es: Seq<EdgeView>, target: i64, depth: nat, j: int)
    requires
        walk_wf(w),
        depth < MAX_IMPACT_DEPTH,
    ensures
        walk_wf(expand(w, es, target, depth, j)),
        walk_extends(w, expand(w, es, target, depth, j)),
    decreases es.len() - j,
{
    if j < 0 || j >= es.len() {
        lemma_extends_refl(w);
    } else if es[j].to_id == target {
        let w1 = keep_edge(w, es[j]);
        lemma_keep_edge(w, es[j]);
        let w2 = add_node(w1, es[j].from_id, depth + 1);
        lemma_add_node(w1, es[j].from_id, depth + 1);
        lemma_extends_trans(w, w1, w2);
        lemma_expand(w2, es, target, depth, j + 1);
        lemma_extends_trans(w, w2, expand(w2, es, target, depth, j + 1));
    } else {
        lemma_expand(w, es, target, depth, j + 1);
    }
}

proof fn lemma_walk_callers(w: Walk, es: Seq<EdgeView>, k: int)
    requires
        walk_wf(w),
    ensures
        walk_wf(walk_callers(w, es, k)),
        walk_extends(w, walk_callers(w, es, k)),
    decreases MAX_GRAPH_NODES - k,
{
    if k < 0 || k >= w.ids.len() || k >= MAX_GRAPH_NODES {
        lemma_extends_refl(w);
    } else if w.depths[k] >= MAX_IMPACT_DEPTH || w.ids.len() >= MAX_GRAPH_NODES {
        lemma_walk_callers(w, es, k + 1);
    } else {
        let w1 = expand(w, es, w.ids[k], w.depths[k], 0);
        lemma_expand(w, es, w.ids[k], w.depths[k], 0);
        lemma_walk_callers(w1, es, k + 1);
        lemma_extends_trans(w, w1, walk_callers(w1, es, k + 1));
    }
}

proof fn lemma_add_callees(w: Walk, es: Seq<EdgeView>, center: i64, j: int)
    requires
        walk_wf(w),
    ensures
        walk_wf(add_callees(w, es, center, j)),
        walk_extends(w, add_callees(w, es, center, j)),
    decreases es.len() - j,
{
    if j < 0 || j >= es.len() {
        lemma_extends_refl(w);
    } else if es[j].from_id == center {
        let w1 = keep_edge(w, es[j]);
        lemma_keep_edge(w, es[j]);
        let w2 = add_node(w1, es[j].to_id, 0);
        lemma_add_node(w1, es[j].to_id, 0);
        lemma_extends_trans(w, w1, w2);
        lemma_add_callees(w2, es, center, j + 1);
        lemma_extends_trans(w, w2, add_callees(w2, es, center, j + 1));
    } else {
        lemma_add_callees(w, es, center, j + 1);
    }
}

/// The impact walk starts at the symbol itself, at depth 0; it takes no
/// symbol twice, at most `MAX_GRAPH_NODES` symbols, none deeper than
/// `MAX_IMPACT_DEPTH`, and no two edges with the same ends and relation.
pub proof fn lemma_impact_walk_shape(center: i64, es: Seq<EdgeView>)
    ensures
        walk_wf(impact_walk(center, es)),
        impact_walk(center, es).ids[0] == center,
        impact_walk(center, es).depths[0] == 0,
{
    let w0 = start_walk(center);
    assert(w0.ids.no_duplicates());
    let w1 = walk_callers(w0, es, 0);
    lemma_walk_callers(w0, es, 0);
    lemma_add_callees(w1, es, center, 0);
    let w2 = add_callees(w1, es, center, 0);
    lemma_extends_trans(w0, w1, w2);
    assert(w2.ids.take(1)[0] == w2.ids[0]);
    assert(w2.depths.take(1)[0] == w2.depths[0]);
}


// ---------------------------------------------------------------------------
// Implementation
// ---------------------------------------------------------------------------
struct WalkState {
    ids: Vec<i64>,
    depths: Vec<usize>,
    edges: Vec<Edge>,
}

impl WalkState {
    spec fn walk(&self) -> Walk {
        Walk {
            ids: self.ids@,
            depths: self.depths@.map_values(|d: usize| d as nat),
            edges: views(self.edges@),
        }
    }
}

fn key_seen_exec(taken: &Vec<Edge>, e: &Edge) -> (r: bool)
    ensures
        r == key_seen(views(taken@), e@),
{
    let ghost es = views(taken@);
    let mut i: usize = 0;
    while i < taken.len()
        invariant
            i <= taken.len(),
            es == views(taken@),
            forall|a: int| 0 <= a < i ==> !same_key(#[trigger] es[a], e@),
        decreases taken.len() - i,
    {
        let t = &taken[i];
        if t.from_id == e.from_id && t.to_id == e.to_id && str_eq(t.relation.as_str(), e.relation.as_str()) {
            assert(same_key(es[i as int], e@));
            return true;
        }
        i = i + 1;
    }
    false
}

fn contains_id(ids: &Vec<i64>, id: i64) -> (r: bool)
    ensures
        r == ids@.contains(id),
{
    let mut i: usize = 0;
    while i < ids.len()
        invariant
            i <= ids.len(),
            forall|a: int| 0 <= a < i ==> ids@[a] != id,
        decreases ids.len() - i,
    {
        if ids[i] == id {
            assert(ids@[i as int] == id);
            return true;
        }
        i = i + 1;
    }
    false
}

fn keep_edge_exec(st: &mut WalkState, e: &Edge)
    ensures
        final(st).walk() == keep_edge(old(st).walk(), e@),
{
    if !key_seen_exec(&st.edges, e) {
        let ghost before = st.walk();
        st.edges.push(e.duplicate());
        assert(views(st.edges@) =~= before.edges.push(e@));
        assert(st.walk() =~= keep_edge(before, e@));
    }
}

fn add_node_exec(st: &mut WalkState, id: i64, depth: usize)
    ensures
        final(st).walk() == add_node(old(st).walk(), id, depth as nat),
{
    if st.ids.len() >= MAX_GRAPH_NODES || contains_id(&st.ids, id) {
        return;
    }
    let ghost before = st.walk();
    st.ids.push(id);
    st.depths.push(depth);
    assert(st.depths@.map_values(|d: usize| d as nat) =~= before.depths.push(depth as nat));
    assert(st.walk() =~= add_node(before, id, depth as nat));
}

/// The walk from `center` over `edges`: callers breadth first, then callees.
fn impact_walk_exec(center: i64, edges: &Vec<Edge>) -> (st: WalkState)
    ensures
        st.walk() == impact_walk(center, views(edges@)),
{
    let ghost es = views(edges@);
    let mut st = WalkState { ids: vec![center], depths: vec![0usize], edges: Vec::new() };
    assert(st.ids@ =~= seq![center]);
    assert(st.depths@.map_values(|d: usize| d as nat) =~= seq![0nat]);
    assert(views(st.edges@) =~= Seq::<EdgeView>::empty());
    assert(st.walk() =~= start_walk(center));
    proof {
        assert(start_walk(center).ids.no_duplicates());
        lemma_extends_refl(start_walk(center));
    }
    let mut k: usize = 0;
    while k < st.ids.len()
        invariant
            es == views(edges@),
            walk_wf(st.walk()),
            st.ids.len() == st.depths.len(),
            walk_callers(st.walk(), es, k as int) == walk_callers(start_walk(center), es, 0),
        decreases MAX_GRAPH_NODES - k,
    {
        let ghost wk = st.walk();
        assert(k < MAX_GRAPH_NODES);
        assert(wk.depths[k as int] == st.depths@[k as int] as nat);
        let target = st.ids[k];
        let depth = st.depths[k];
        if depth < MAX_IMPACT_DEPTH && st.ids.len() < MAX_GRAPH_NODES {
            let mut j: usize = 0;
            while j < edges.len()
                invariant
                    es == views(edges@),
                    j <= edges.len(),
                    depth < MAX_IMPACT_DEPTH,
                    walk_wf(st.walk()),
                    st.ids.len() == st.depths.len(),
                    expand(st.walk(), es, target, depth as nat, j as int) == expand(
                        wk,
                        es,
                        target,
                        depth as nat,
                        0,
                    ),
                decreases edges.len() - j,
            {
                let e = &edges[j];
                assert(es[j as int] == e@);
                if e.to_id == target {
                    let ghost w0 = st.walk();
                    keep_edge_exec(&mut st, e);
                    proof {
                        lemma_keep_edge(w0, e@);
                    }
                    let ghost w1 = st.walk();
                    add_node_exec(&mut st, e.from_id, depth + 1);
                    proof {
                        lemma_add_node(w1, e@.from_id, (depth + 1) as nat);
                    }
                }
                j = j + 1;
            }
        }
        k = k + 1;
    }
    proof {
        assert(walk_callers(st.walk(), es, k as int) == st.walk());
    }
    let ghost wc = st.walk();
    let mut j: usize = 0;
    while j < edges.len()
        invariant
            es == views(edges@),
            j <= edges.len(),
            walk_wf(st.walk()),
            st.ids.len() == st.depths.len(),
            wc == walk_callers(start_walk(center), es, 0),
            add_callees(st.walk(), es, center, j as int) == add_callees(wc, es, center, 0),
        decreases edges.len() - j,
    {
        let e = &edges[j];
        assert(es[j as int] == e@);
        if e.from_id == center {
            let ghost w0 = st.walk();
            keep_edge_exec(&mut st, e);
            proof {
                lemma_keep_edge(w0, e@);
            }
            let ghost w1 = st.walk();
            add_node_exec(&mut st, e.to_id, 0);
            proof {
                lemma_add_node(w1, e@.to_id, 0);
            }
        }
        j = j + 1;
    }
    st
}


proof fn lemma_node_before(a: GraphNodeView, b: GraphNodeView, c: GraphNodeView)
    ensures
        !node_before(a, a),
        node_before(a, b) && node_before(b, c) ==> node_before(a, c),
{
    lemma_seq_lt_facts(a.file, b.file, c.file);
    lemma_seq_lt_facts(a.label, b.label, c.label);
    lemma_seq_lt_facts(b.file, c.file, a.file);
    lemma_seq_lt_facts(b.label, c.label, a.label);
}

/// The last symbol with this id.
fn find_symbol(ss: &Vec<Symbol>, id: i64) -> (r: Option<usize>)
    ensures
        match r {
            Some(i) => i < ss.len() && lookup(views(ss@), id) == Some(ss@[i as int]@),
            None => lookup(views(ss@), id) is None,
        },
{
    let ghost vs = views(ss@);
    let mut n: usize = ss.len();
    while n > 0
        invariant
            n <= ss.len(),
            vs == views(ss@),
            symbol_with_id(vs, id, n as int) == lookup(vs, id),
        decreases n,
    {
        assert(vs[n - 1] == ss@[n - 1]@);
        if ss[n - 1].id == id {
            return Some(n - 1);
        }
        n = n - 1;
    }
    None
}

fn file_changed(changed: &Vec<String>, file: &str) -> (r: bool)
    ensures
        r == views(changed@).contains(file@),
{
    let ghost vs = views(changed@);
    let mut i: usize = 0;
    while i < changed.len()
        invariant
            i <= changed.len(),
            vs == views(changed@),
            forall|a: int| 0 <= a < i ==> vs[a] != file@,
        decreases changed.len() - i,
    {
        if str_eq(changed[i].as_str(), file) {
            assert(vs[i as int] == file@);
            return true;
        }
        i = i + 1;
    }
    false
}

fn build_node_title(symbol: &Symbol, kind: &str, changed: bool, impact_depth: usize) -> (r: String)
    ensures
        r@ == node_title(symbol@, kind@, changed, impact_depth as nat),
{
    let mut title = owned(symbol.name.as_str());
    push_str(&mut title, "\nkind: ");
    push_str(&mut title, kind);
    push_str(&mut title, "\nfile: ");
    push_str(&mut title, symbol.file.as_str());
    push_str(&mut title, "\nline: ");
    push_decimal(&mut title, symbol.line as u64);
    let ghost base = title@;
    if changed {
        push_str(&mut title, "\nchanged in local git working tree (vs HEAD)");
    }
    let ghost with_changed = title@;
    if impact_depth > 0 {
        push_str(&mut title, "\nimpact depth: ");
        push_decimal(&mut title, impact_depth as u64);
    }
    let ghost with_depth = title@;
    match route_path_for_file(symbol.file.as_str()) {
        Some(route) => {
            push_str(&mut title, "\nroute: ");
            push_str(&mut title, route.as_str());
        },
        None => {},
    }
    proof {
        let tail1: Seq<char> = if changed {
            "\nchanged in local git working tree (vs HEAD)"@
        } else {
            Seq::empty()
        };
        let tail2: Seq<char> = if impact_depth > 0 {
            "\nimpact depth: "@ + decimal(impact_depth as nat)
        } else {
            Seq::empty()
        };
        let tail3: Seq<char> = match route_path_of(symbol.file@) {
            Some(r) => "\nroute: "@ + r,
            None => Seq::empty(),
        };
        assert(with_changed =~= base + tail1);
        assert(with_depth =~= base + tail1 + tail2);
        assert(title@ =~= base + tail1 + tail2 + tail3);
    }
    title
}

fn make_node(symbol: &Symbol, impact_depth: usize, changed_files: &Vec<String>, center: i64) -> (r: GraphNode)
    ensures
        r@ == node_of(symbol@, impact_depth as nat, views(changed_files@), center),
{
    let kind = semantic_kind(symbol);
    let changed = file_changed(changed_files, symbol.file.as_str());
    GraphNode {
        id: symbol.id,
        label: semantic_label(symbol),
        kind: owned(kind),
        title: build_node_title(symbol, kind, changed, impact_depth),
        file: owned(symbol.file.as_str()),
        line: symbol.line,
        col: symbol.col,
        is_center: symbol.id == center,
        is_changed: changed,
        impact_depth,
    }
}

fn node_before_exec(a: &GraphNode, b: &GraphNode) -> (r: bool)
    ensures
        r == node_before(a@, b@),
{
    proof {
        lemma_seq_lt_facts(a.file@, b.file@, b.file@);
    }
    if a.impact_depth != b.impact_depth {
        return a.impact_depth < b.impact_depth;
    }
    if !str_eq(a.file.as_str(), b.file.as_str()) {
        return str_lt(a.file.as_str(), b.file.as_str());
    }
    if a.line != b.line {
        return a.line < b.line;
    }
    str_lt(a.label.as_str(), b.label.as_str())
}

/// Inserts `x` after the nodes that do not come after it.
fn insert_node(nodes: &mut Vec<GraphNode>, x: GraphNode)
    requires
        nodes_sorted(views(old(nodes)@)),
    ensures
        nodes_sorted(views(final(nodes)@)),
        views(final(nodes)@).to_multiset() == views(old(nodes)@).to_multiset().insert(x@),
{
    let ghost s = views(nodes@);
    let mut p: usize = 0;
    loop
        invariant
            p <= nodes.len(),
            s == views(nodes@),
            nodes_sorted(s),
            forall|i: int| 0 <= i < p ==> !node_before(x@, #[trigger] s[i]),
        ensures
            p <= nodes.len(),
            s == views(nodes@),
            forall|i: int| 0 <= i < p ==> !node_before(x@, #[trigger] s[i]),
            p < nodes.len() ==> node_before(x@, s[p as int]),
        decreases nodes.len() - p,
    {
        if p >= nodes.len() {
            break;
        }
        assert(s[p as int] == nodes@[p as int]@);
        if node_before_exec(&x, &nodes[p]) {
            break;
        }
        p = p + 1;
    }
    let ghost xv = x@;
    nodes.insert(p, x);
    proof {
        let t = views(nodes@);
        assert(t =~= s.insert(p as int, xv));
        assert forall|i: int, j: int| 0 <= i < j < t.len() implies !node_before(
            #[trigger] t[j],
            #[trigger] t[i],
        ) by {
            if j < p {
                assert(t[i] == s[i] && t[j] == s[j]);
            } else if j == p {
                assert(t[j] == xv && t[i] == s[i]);
            } else if i == p {
                assert(t[i] == xv && t[j] == s[j - 1]);
                lemma_node_before(s[j - 1], xv, s[p as int]);
                lemma_node_before(s[p as int], xv, s[p as int]);
                if j - 1 > p {
                    assert(!node_before(s[j - 1], s[p as int]));
                }
            } else if i < p {
                assert(t[i] == s[i] && t[j] == s[j - 1]);
            } else {
                assert(t[i] == s[i - 1] && t[j] == s[j - 1]);
            }
        }
    }
}

fn build_edge_title(edge: &Edge) -> (r: String)
    ensures
        r@ == edge_title(edge@),
{
    let mut title = owned(edge.relation.as_str());
    push_str(&mut title, "\nwhy: ");
    push_str(&mut title, edge.reason.as_str());
    push_str(&mut title, "\norigin: ");
    push_str(&mut title, edge.origin_file.as_str());
    push_str(&mut title, ":");
    push_decimal(&mut title, edge.origin_line as u64);
    push_str(&mut title, "\nconfidence: ");
    push_decimal(&mut title, edge.confidence as u64);
    push_str(&mut title, "%");
    title
}

fn graph_edge(edge: &Edge, symbols: &Vec<Symbol>, changed_files: &Vec<String>) -> (r: GraphEdge)
    ensures
        r@ == graph_edge_of(edge@, views(symbols@), views(changed_files@)),
{
    let mut changed = file_changed(changed_files, edge.origin_file.as_str());
    if !changed {
        match find_symbol(symbols, edge.from_id) {
            Some(i) => {
                changed = file_changed(changed_files, symbols[i].file.as_str());
            },
            None => {},
        }
    }
    if !changed {
        match find_symbol(symbols, edge.to_id) {
            Some(i) => {
                changed = file_changed(changed_files, symbols[i].file.as_str());
            },
            None => {},
        }
    }
    GraphEdge {
        from: edge.from_id,
        to: edge.to_id,
        label: owned(edge.relation.as_str()),
        title: build_edge_title(edge),
        changed,
    }
}

/// The impact graph of `symbol`: the symbols that reach it through incoming
/// edges, breadth first, at most `MAX_IMPACT_DEPTH` edges away and at most
/// `MAX_GRAPH_NODES` in all, then the symbols it reaches directly, at depth
/// 0; each edge met on the way once per ends and relation. Nodes are the
/// walk's symbols found in `symbols` (the last row of an id wins), ordered by
/// depth, file, line and label; a node or edge is marked changed when a file
/// it involves is among `changed_files`.
pub fn build_graph(
    symbol: &Symbol,
    symbols: &Vec<Symbol>,
    edges: &Vec<Edge>,
    changed_files: &Vec<String>,
) -> (g: GraphData)
    ensures
        g.center_symbol@ == symbol@,
        views(g.edges@) == impact_walk(symbol.id, views(edges@)).edges.map_values(
            |e: EdgeView| graph_edge_of(e, views(symbols@), views(changed_files@)),
        ),
        views(g.nodes@).to_multiset() == node_candidates(
            impact_walk(symbol.id, views(edges@)),
            views(symbols@),
            views(changed_files@),
            symbol.id,
            impact_walk(symbol.id, views(edges@)).ids.len() as int,
        ).to_multiset(),
        nodes_sorted(views(g.nodes@)),
{
    let ghost ss = views(symbols@);
    let ghost ch = views(changed_files@);
    let st = impact_walk_exec(symbol.id, edges);
    let ghost w = st.walk();
    proof {
        lemma_impact_walk_shape(symbol.id, views(edges@));
    }
    let mut nodes: Vec<GraphNode> = Vec::new();
    let mut k: usize = 0;
    while k < st.ids.len()
        invariant
            k <= st.ids.len(),
            st.ids.len() == st.depths.len(),
            w == st.walk(),
            ss == views(symbols@),
            ch == views(changed_files@),
            nodes_sorted(views(nodes@)),
            views(nodes@).to_multiset() == node_candidates(w, ss, ch, symbol.id, k as int).to_multiset(),
        decreases st.ids.len() - k,
    {
        let ghost before = views(nodes@);
        match find_symbol(symbols, st.ids[k]) {
            Some(i) => {
                let node = make_node(&symbols[i], st.depths[k], changed_files, symbol.id);
                assert(w.depths[k as int] == st.depths@[k as int] as nat);
                insert_node(&mut nodes, node);
                assert(node_candidates(w, ss, ch, symbol.id, k + 1) =~= node_candidates(
                    w,
                    ss,
                    ch,
                    symbol.id,
                    k as int,
                ).push(node_of(ss[i as int], w.depths[k as int], ch, symbol.id)));
            },
            None => {
                assert(node_candidates(w, ss, ch, symbol.id, k + 1) =~= node_candidates(
                    w,
                    ss,
                    ch,
                    symbol.id,
                    k as int,
                ));
            },
        }
        k = k + 1;
    }
    let mut graph_edges: Vec<GraphEdge> = Vec::new();
    let mut j: usize = 0;
    while j < st.edges.len()
        invariant
            j <= st.edges.len(),
            w == st.walk(),
            ss == views(symbols@),
            ch == views(changed_files@),
            views(graph_edges@) == w.edges.take(j as int).map_values(
                |e: EdgeView| graph_edge_of(e, ss, ch),
            ),
        decreases st.edges.len() - j,
    {
        let ge = graph_edge(&st.edges[j], symbols, changed_files);
        let ghost before = views(graph_edges@);
        graph_edges.push(ge);
        assert(views(graph_edges@) =~= before.push(ge@));
        assert(w.edges[j as int] == st.edges@[j as int]@);
        assert(w.edges.take(j + 1).map_values(|e: EdgeView| graph_edge_of(e, ss, ch)) =~= w.edges.take(
            j as int,
        ).map_values(|e: EdgeView| graph_edge_of(e, ss, ch)).push(ge@));
        j = j + 1;
    }
    assert(w.edges.take(j as int) =~= w.edges);
    GraphData { center_symbol: symbol.duplicate(), nodes, edges: graph_edges }
}

proof fn lemma_candidates_prefix(w: Walk, ss: Seq<SymbolView>, ch: Seq<Seq<char>>, c: i64, m: int, n: int)
    requires
        0 <= m <= n,
    ensures
        node_candidates(w, ss, ch, c, n).take(node_candidates(w, ss, ch, c, m).len() as int)
            == node_candidates(w, ss, ch, c, m),
        node_candidates(w, ss, ch, c, m).len() <= node_candidates(w, ss, ch, c, n).len(),
    decreases n - m,
{
    if m < n {
        lemma_candidates_prefix(w, ss, ch, c, m, n - 1);
        let a = node_candidates(w, ss, ch, c, m);
        let b = node_candidates(w, ss, ch, c, n - 1);
        let d = node_candidates(w, ss, ch, c, n);
        assert(d.take(b.len() as int) =~= b);
        assert(d.take(a.len() as int) =~= b.take(a.len() as int));
    } else {
        assert(node_candidates(w, ss, ch, c, n).take(node_candidates(w, ss, ch, c, n).len() as int)
            =~= node_candidates(w, ss, ch, c, n));
    }
}

/// The symbol itself is in its graph, at depth 0 and marked as the center,
/// whenever the index holds it.
pub proof fn lemma_center_in_graph(center: i64, es: Seq<EdgeView>, ss: Seq<SymbolView>, ch: Seq<Seq<char>>)
    requires
        lookup(ss, center) is Some,
    ensures
        node_candidates(
            impact_walk(center, es),
            ss,
            ch,
            center,
            impact_walk(center, es).ids.len() as int,
        ).contains(node_of(lookup(ss, center)->0, 0, ch, center)),
{
    let w = impact_walk(center, es);
    lemma_impact_walk_shape(center, es);
    let n = w.ids.len() as int;
    lemma_candidates_prefix(w, ss, ch, center, 1, n);
    let one = node_candidates(w, ss, ch, center, 1);
    assert(node_candidates(w, ss, ch, center, 0) =~= Seq::<GraphNodeView>::empty());
    assert(one =~= seq![node_of(lookup(ss, center)->0, 0, ch, center)]);
    let all = node_candidates(w, ss, ch, center, n);
    assert(all.take(1)[0] == all[0]);
    assert(all[0] == node_of(lookup(ss, center)->0, 0, ch, center));
}

} // verus!
