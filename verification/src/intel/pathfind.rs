//! Finding a chain of edges between two symbols or files.
use vstd::prelude::*;

use super::classify::{definition_kind, is_definition_kind, last_segment, last_segment_exec, normalized, normalized_chars};
use crate::models::{Edge, EdgeView, Symbol, SymbolView};
use crate::order::{lemma_views_push, views};
use crate::select::{count, select};
use crate::text::{chars_of, ends_with, ends_with_exec, slice_eq, string_of, trim, trim_chars};

verus! {

/// One edge of a path, with the symbols at its two ends.
#[derive(Debug, Clone)]
pub struct PathStep {
    pub edge: Edge,
    pub from: Symbol,
    pub to: Symbol,
}

/// A path between the symbols matching two queries.
#[derive(Debug, Clone)]
pub struct PathResult {
    pub from_query: String,
    pub to_query: String,
    pub steps: Vec<PathStep>,
}

pub struct PathStepView {
    pub edge: EdgeView,
    pub from: SymbolView,
    pub to: SymbolView,
}

impl View for PathStep {
    type V = PathStepView;

    open spec fn view(&self) -> PathStepView {
        PathStepView { edge: self.edge@, from: self.from@, to: self.to@ }
    }
}

// ---------------------------------------------------------------------------
// Specification
// ---------------------------------------------------------------------------
/// The symbol's file matches the query: the whole normalized path, a suffix
/// of it, or its file name.
pub open spec fn file_matches(s: SymbolView, query: Seq<char>) -> bool {
    let nq = normalized(query);
    let file = normalized(s.file);
    let short = last_segment(file);
    file == nq || ends_with(file, nq) || short == nq || short == query
}

pub open spec fn admissible(s: SymbolView, include_all: bool) -> bool {
    include_all || definition_kind(s.kind)
}

/// The symbols a query names: those whose name is the query, or, if there
/// are none, those whose file matches it. With `include_all` false, only
/// definitions count.
pub open spec fn endpoint_candidates(
    symbols: Seq<SymbolView>,
    query: Seq<char>,
    include_all: bool,
) -> Seq<SymbolView> {
    let exact = select(symbols, |s: SymbolView| s.name == query && admissible(s, include_all));
    if exact.len() > 0 {
        exact
    } else {
        select(
            symbols,
            |s: SymbolView|
                !(s.name == query && admissible(s, include_all)) && file_matches(s, query)
                    && admissible(s, include_all),
        )
    }
}

pub open spec fn ids(ss: Seq<SymbolView>) -> Seq<i64> {
    ss.map_values(|s: SymbolView| s.id)
}

/// Some edge goes from `a` to `b`.
pub open spec fn linked(edges: Seq<EdgeView>, a: i64, b: i64) -> bool {
    exists|i: int| 0 <= i < edges.len() && #[trigger] edges[i].from_id == a && edges[i].to_id == b
}

/// A non-empty sequence of ids, each linked to the next.
pub open spec fn is_walk(edges: Seq<EdgeView>, w: Seq<i64>) -> bool {
    w.len() >= 1 && forall|k: int| 0 <= k < w.len() - 1 ==> linked(edges, #[trigger] w[k], w[k + 1])
}

/// Some walk leads from an id in `starts` to an id in `ends`.
pub open spec fn connects(edges: Seq<EdgeView>, starts: Seq<i64>, ends: Seq<i64>) -> bool {
    exists|w: Seq<i64>| #[trigger] is_walk(edges, w) && starts.contains(w[0]) && ends.contains(w.last())
}

/// Some walk leads from an id in `starts` to `x`.
pub open spec fn reached(edges: Seq<EdgeView>, starts: Seq<i64>, x: i64) -> bool {
    exists|w: Seq<i64>| #[trigger] is_walk(edges, w) && starts.contains(w[0]) && w.last() == x
}

/// Every edge endpoint is the id of a symbol.
pub open spec fn edges_closed(symbols: Seq<SymbolView>, edges: Seq<EdgeView>) -> bool {
    forall|i: int|
        0 <= i < edges.len() ==> ids(symbols).contains(#[trigger] edges[i].from_id) && ids(
            symbols,
        ).contains(edges[i].to_id)
}

/// Each step is an edge of the index between the symbols at its ends, and
/// each step starts where the previous one ended.
pub open spec fn valid_steps(
    steps: Seq<PathStepView>,
    symbols: Seq<SymbolView>,
    edges: Seq<EdgeView>,
) -> bool {
    &&& forall|k: int|
        0 <= k < steps.len() ==> {
            &&& edges.contains(#[trigger] steps[k].edge)
            &&& symbols.contains(steps[k].from)
            &&& symbols.contains(steps[k].to)
            &&& steps[k].from.id == steps[k].edge.from_id
            &&& steps[k].to.id == steps[k].edge.to_id
        }
    &&& forall|k: int| 0 <= k < steps.len() - 1 ==> #[trigger] steps[k].to.id == steps[k + 1].from.id
}

// ---------------------------------------------------------------------------
// Implementation
// ---------------------------------------------------------------------------
fn file_matches_exec(s: &Symbol, query: &[char], nq: &[char]) -> (r: bool)
    requires
        nq@ == normalized(query@),
    ensures
        r == file_matches(s@, query@),
{
    let file = normalized_chars(s.file.as_str());
    let short = last_segment_exec(file.as_slice());
    slice_eq(file.as_slice(), nq) || ends_with_exec(file.as_slice(), nq) || slice_eq(
        short.as_slice(),
        nq,
    ) || slice_eq(short.as_slice(), query)
}

/// The symbols a path query endpoint names (see [`endpoint_candidates`]).
fn resolve_endpoint_candidates(symbols: &Vec<Symbol>, query: &str, include_non_definitions: bool) -> (r:
    Vec<Symbol>)
    ensures
        views(r@) == endpoint_candidates(views(symbols@), query@, include_non_definitions),
{
    let q = chars_of(query);
    let nq = normalized_chars(query);
    let ghost ss = views(symbols@);
    let ghost pe = |s: SymbolView| s.name == query@ && admissible(s, include_non_definitions);
    let ghost pf = |s: SymbolView|
        !(s.name == query@ && admissible(s, include_non_definitions)) && file_matches(s, query@)
            && admissible(s, include_non_definitions);
    let mut exact: Vec<Symbol> = Vec::new();
    let mut files: Vec<Symbol> = Vec::new();
    let mut i: usize = 0;
    while i < symbols.len()
        invariant
            i <= symbols.len(),
            ss == views(symbols@),
            q@ == query@,
            nq@ == normalized(query@),
            pe == (|s: SymbolView| s.name == query@ && admissible(s, include_non_definitions)),
            pf == (|s: SymbolView|
                !(s.name == query@ && admissible(s, include_non_definitions)) && file_matches(
                    s,
                    query@,
                ) && admissible(s, include_non_definitions)),
            views(exact@) == select(ss.take(i as int), pe),
            views(files@) == select(ss.take(i as int), pf),
        decreases symbols.len() - i,
    {
        let ghost t = ss.take(i + 1);
        assert(t.drop_last() =~= ss.take(i as int));
        assert(t.last() == symbols@[i as int]@);
        let s = &symbols[i];
        let n = chars_of(s.name.as_str());
        let ok = include_non_definitions || is_definition_kind(s.kind.as_str());
        if slice_eq(n.as_slice(), q.as_slice()) && ok {
            exact.push(s.duplicate());
        } else if file_matches_exec(s, q.as_slice(), nq.as_slice()) && ok {
            files.push(s.duplicate());
        }
        assert(views(exact@) =~= select(t, pe));
        assert(views(files@) =~= select(t, pf));
        i = i + 1;
    }
    assert(ss.take(symbols.len() as int) =~= ss);
    if exact.len() > 0 {
        exact
    } else {
        files
    }
}

fn contains_id(v: &Vec<i64>, x: i64) -> (r: bool)
    ensures
        r == v@.contains(x),
{
    let mut i: usize = 0;
    while i < v.len()
        invariant
            i <= v.len(),
            forall|j: int| 0 <= j < i ==> v@[j] != x,
        decreases v.len() - i,
    {
        if v[i] == x {
            assert(v@[i as int] == x);
            return true;
        }
        i = i + 1;
    }
    false
}

fn symbol_by_id(symbols: &Vec<Symbol>, id: i64) -> (r: Option<Symbol>)
    ensures
        r matches Some(s) ==> s@.id == id && views(symbols@).contains(s@),
        r is None ==> !ids(views(symbols@)).contains(id),
        r matches Some(s) ==> symbol_with_id(views(symbols@), id) == Some(s@),
        r is None ==> symbol_with_id(views(symbols@), id) is None,
{
    let ghost ss = views(symbols@);
    assert(ss.skip(0) =~= ss);
    let mut i: usize = 0;
    while i < symbols.len()
        invariant
            i <= symbols.len(),
            ss == views(symbols@),
            forall|j: int| 0 <= j < i ==> symbols@[j].id != id,
            symbol_with_id(ss, id) == symbol_with_id(ss.skip(i as int), id),
        decreases symbols.len() - i,
    {
        assert(ss.skip(i as int)[0] == symbols@[i as int]@);
        if symbols[i].id == id {
            assert(views(symbols@)[i as int] == symbols@[i as int]@);
            return Some(symbols[i].duplicate());
        }
        assert(ss.skip(i as int).drop_first() =~= ss.skip(i + 1));
        i = i + 1;
    }
    assert(ss.skip(i as int).len() == 0);
    assert(!ids(views(symbols@)).contains(id)) by {
        if ids(views(symbols@)).contains(id) {
            let k = choose|k: int| 0 <= k < ids(views(symbols@)).len() && ids(views(symbols@))[k] == id;
            assert(symbols@[k].id == id);
        }
    }
    None
}

/// The number of edges that lead to an id not yet in `seen`.
pub open spec fn unseen_targets(edges: Seq<EdgeView>, seen: Seq<i64>) -> nat {
    count(edges, |e: EdgeView| !seen.contains(e.to_id))
}

proof fn lemma_unseen_monotone(edges: Seq<EdgeView>, seen: Seq<i64>, x: i64)
    ensures
        unseen_targets(edges, seen.push(x)) <= unseen_targets(edges, seen),
        (exists|i: int| 0 <= i < edges.len() && edges[i].to_id == x && !seen.contains(x))
            ==> unseen_targets(edges, seen.push(x)) < unseen_targets(edges, seen),
    decreases edges.len(),
{
    if edges.len() > 0 {
        let e = edges.drop_last();
        lemma_unseen_monotone(e, seen, x);
        assert(seen.push(x)[seen.len() as int] == x);
        assert forall|y: i64| seen.contains(y) implies seen.push(x).contains(y) by {
            let k = choose|k: int| 0 <= k < seen.len() && seen[k] == y;
            assert(seen.push(x)[k] == y);
        }
        if exists|i: int| 0 <= i < edges.len() && edges[i].to_id == x && !seen.contains(x) {
            let i = choose|i: int| 0 <= i < edges.len() && edges[i].to_id == x && !seen.contains(x);
            if i < edges.len() - 1 {
                assert(e[i].to_id == x);
            }
        }
    }
}

/// Every walk from a start to the `j`-th seen id has at least `depth[j]`
/// edges.
#[verifier::opaque]
spec fn depths_minimal(es: Seq<EdgeView>, starts: Seq<i64>, seen: Seq<i64>, depth: Seq<nat>) -> bool {
    forall|j: int, w: Seq<i64>|
        #![trigger seen[j], is_walk(es, w)]
        0 <= j < seen.len() && is_walk(es, w) && starts.contains(w[0]) && w.last() == seen[j] ==> depth[j]
            <= w.len() - 1
}

/// The depths never decrease along the queue.
#[verifier::opaque]
spec fn depths_sorted(depth: Seq<nat>) -> bool {
    forall|a: int, b: int| 0 <= a <= b < depth.len() ==> #[trigger] depth[a] <= #[trigger] depth[b]
}

/// A walk from a start to an id outside the first `head` seen ids passes a
/// seen id, from `head` on, no deeper than the walk is long.
proof fn lemma_unprocessed_bound(
    es: Seq<EdgeView>,
    starts: Seq<i64>,
    seen: Seq<i64>,
    depth: Seq<nat>,
    head: int,
    w: Seq<i64>,
)
    requires
        0 <= head <= seen.len(),
        depth.len() == seen.len(),
        is_walk(es, w),
        starts.contains(w[0]),
        forall|j: int| 0 <= j < starts.len() ==> seen.contains(#[trigger] starts[j]),
        forall|j: int, ei: int|
            #![trigger es[ei], seen[j]]
            0 <= j < head && 0 <= ei < es.len() && es[ei].from_id == seen[j] ==> seen.contains(
                es[ei].to_id,
            ),
        depths_minimal(es, starts, seen, depth),
        forall|j: int| 0 <= j < head ==> seen[j] != w.last(),
    ensures
        exists|m: int| head <= m < seen.len() && depth[m] <= w.len() - 1,
    decreases w.len(),
{
    reveal(depths_minimal);
    reveal(depths_sorted);
    if w.len() == 1 {
        let k = choose|k: int| 0 <= k < starts.len() && starts[k] == w[0];
        assert(seen.contains(starts[k]));
        let m = choose|m: int| 0 <= m < seen.len() && seen[m] == w[0];
        assert(seen[m] == w.last());
        assert(depth[m] <= w.len() - 1);
    } else {
        let v = w.drop_last();
        lemma_walk_drop_last(es, w);
        let z = v.last();
        if exists|j: int| 0 <= j < head && seen[j] == z {
            let j = choose|j: int| 0 <= j < head && seen[j] == z;
            assert(linked(es, w[w.len() - 2], w[w.len() - 1]));
            let ei = choose|ei: int|
                0 <= ei < es.len() && #[trigger] es[ei].from_id == w[w.len() - 2] && es[ei].to_id
                    == w[w.len() - 1];
            assert(es[ei].from_id == seen[j]);
            assert(seen.contains(es[ei].to_id));
            let m = choose|m: int| 0 <= m < seen.len() && seen[m] == w.last();
            assert(depth[m] <= w.len() - 1);
            if m < head {
                assert(seen[m] != w.last());
            }
        } else {
            lemma_unprocessed_bound(es, starts, seen, depth, head, v);
        }
    }
}

/// Dropping the last id of a walk of two or more ids leaves a walk with the
/// same first id.
proof fn lemma_walk_drop_last(es: Seq<EdgeView>, w: Seq<i64>)
    requires
        is_walk(es, w),
        w.len() >= 2,
    ensures
        is_walk(es, w.drop_last()),
        w.drop_last()[0] == w[0],
        w.drop_last().last() == w[w.len() - 2],
        linked(es, w[w.len() - 2], w.last()),
{
    let v = w.drop_last();
    assert forall|k: int| 0 <= k < v.len() - 1 implies linked(es, #[trigger] v[k], v[k + 1]) by {
        assert(v[k] == w[k]);
        assert(v[k + 1] == w[k + 1]);
        assert(linked(es, w[k], w[k + 1]));
    }
    assert(linked(es, w[w.len() - 2], w[w.len() - 1]));
}

/// An id first reached from the `head`-th seen id lies one edge deeper than
/// it: every walk from a start to it has more than `depth[head]` edges.
proof fn lemma_new_depth_minimal(
    es: Seq<EdgeView>,
    starts: Seq<i64>,
    seen: Seq<i64>,
    depth: Seq<nat>,
    head: int,
    w: Seq<i64>,
)
    requires
        0 <= head < seen.len(),
        depth.len() == seen.len(),
        !seen.contains(w.last()),
        is_walk(es, w),
        starts.contains(w[0]),
        forall|j: int| 0 <= j < starts.len() ==> seen.contains(#[trigger] starts[j]),
        forall|j: int, ei: int|
            #![trigger es[ei], seen[j]]
            0 <= j < head && 0 <= ei < es.len() && es[ei].from_id == seen[j] ==> seen.contains(
                es[ei].to_id,
            ),
        depths_minimal(es, starts, seen, depth),
        depths_sorted(depth),
    ensures
        depth[head] + 1 <= w.len() - 1,
{
    reveal(depths_minimal);
    reveal(depths_sorted);
    if w.len() == 1 {
        let k = choose|k: int| 0 <= k < starts.len() && starts[k] == w[0];
        assert(seen.contains(starts[k]));
    } else {
        let v = w.drop_last();
        lemma_walk_drop_last(es, w);
        if exists|j: int| 0 <= j < head && seen[j] == v.last() {
            let j = choose|j: int| 0 <= j < head && seen[j] == v.last();
            let ei = choose|ei: int|
                0 <= ei < es.len() && #[trigger] es[ei].from_id == w[w.len() - 2] && es[ei].to_id
                    == w.last();
            assert(es[ei].from_id == seen[j]);
        } else {
            lemma_unprocessed_bound(es, starts, seen, depth, head, v);
            let m = choose|m: int| head <= m < seen.len() && depth[m] <= v.len() - 1;
            assert(depth[head] <= depth[m]);
        }
    }
}

/// Seeing a new id one edge deeper than the `head`-th keeps the depths sorted
/// and minimal.
proof fn lemma_depth_after_push(
    es: Seq<EdgeView>,
    starts: Seq<i64>,
    seen: Seq<i64>,
    depth: Seq<nat>,
    head: int,
    x: i64,
)
    requires
        0 <= head < seen.len(),
        depth.len() == seen.len(),
        !seen.contains(x),
        forall|j: int| 0 <= j < starts.len() ==> seen.contains(#[trigger] starts[j]),
        forall|j: int, ei: int|
            #![trigger es[ei], seen[j]]
            0 <= j < head && 0 <= ei < es.len() && es[ei].from_id == seen[j] ==> seen.contains(
                es[ei].to_id,
            ),
        depths_minimal(es, starts, seen, depth),
        depths_sorted(depth),
        forall|j: int| head <= j < seen.len() ==> #[trigger] depth[j] <= depth[head] + 1,
    ensures
        ({
            let d2 = depth.push(depth[head] + 1);
            &&& depths_sorted(d2)
            &&& depths_minimal(es, starts, seen.push(x), d2)
            &&& forall|j: int| head <= j < seen.len() + 1 ==> #[trigger] d2[j] <= d2[head] + 1
        }),
{
    reveal(depths_minimal);
    reveal(depths_sorted);
    let d2 = depth.push(depth[head] + 1);
    let s2 = seen.push(x);
    assert forall|a: int, b: int| 0 <= a <= b < d2.len() implies #[trigger] d2[a] <= #[trigger] d2[b] by {
        if b < depth.len() {
            assert(depth[a] <= depth[b]);
        } else if a < head {
            assert(depth[a] <= depth[head]);
        } else if a < depth.len() {
            assert(depth[a] <= depth[head] + 1);
        }
    }
    assert forall|j: int, w: Seq<i64>|
        #![trigger s2[j], is_walk(es, w)]
        0 <= j < s2.len() && is_walk(es, w) && starts.contains(w[0]) && w.last() == s2[j]
            implies d2[j] <= w.len() - 1 by {
        if j < seen.len() {
            assert(s2[j] == seen[j]);
            assert(depth[j] <= w.len() - 1);
        } else {
            lemma_new_depth_minimal(es, starts, seen, depth, head, w);
        }
    }
    assert forall|j: int| head <= j < seen.len() + 1 implies #[trigger] d2[j] <= d2[head] + 1 by {
        if j < seen.len() {
            assert(depth[j] <= depth[head] + 1);
        }
    }
}

/// The ids of `s`, each at its first place.
pub open spec fn first_occurrences(s: Seq<i64>) -> Seq<i64>
    decreases s.len(),
{
    if s.len() == 0 {
        s
    } else {
        let f = first_occurrences(s.drop_last());
        if f.contains(s.last()) {
            f
        } else {
            f.push(s.last())
        }
    }
}

/// Visiting the `head`-th queued id: each edge from it, in edge order from
/// `ei` on, whose target is not queued yet queues the target and remembers
/// the position it was reached from and the edge.
pub open spec fn visit(
    es: Seq<EdgeView>,
    queue: Seq<i64>,
    parent: Seq<Option<(usize, usize)>>,
    head: int,
    ei: int,
) -> (Seq<i64>, Seq<Option<(usize, usize)>>)
    decreases es.len() - ei,
{
    if ei < 0 || ei >= es.len() {
        (queue, parent)
    } else if es[ei].from_id == queue[head] && !queue.contains(es[ei].to_id) {
        visit(es, queue.push(es[ei].to_id), parent.push(Some((head as usize, ei as usize))), head, ei + 1)
    } else {
        visit(es, queue, parent, head, ei + 1)
    }
}

/// Breadth-first search from position `head` of the queue on: the queue and
/// the parents when the first end is taken from the queue, with its
/// position, or when the queue runs out.
pub open spec fn search_from(
    es: Seq<EdgeView>,
    ends: Seq<i64>,
    queue: Seq<i64>,
    parent: Seq<Option<(usize, usize)>>,
    head: int,
) -> (Seq<i64>, Seq<Option<(usize, usize)>>, Option<usize>)
    decreases unseen_targets(es, queue), queue.len() - head,
    via search_from_decreases
{
    if head < 0 || head >= queue.len() {
        (queue, parent, None)
    } else if ends.contains(queue[head]) {
        (queue, parent, Some(head as usize))
    } else {
        let v = visit(es, queue, parent, head, 0);
        search_from(es, ends, v.0, v.1, head + 1)
    }
}

#[via_fn]
proof fn search_from_decreases(
    es: Seq<EdgeView>,
    ends: Seq<i64>,
    queue: Seq<i64>,
    parent: Seq<Option<(usize, usize)>>,
    head: int,
) {
    if 0 <= head < queue.len() && !ends.contains(queue[head]) {
        lemma_visit_grows(es, queue, parent, head, 0);
    }
}

/// Visiting keeps the queue as a prefix and never adds to the edges that
/// lead outside it; it takes one away whenever it queues an id.
proof fn lemma_visit_grows(
    es: Seq<EdgeView>,
    queue: Seq<i64>,
    parent: Seq<Option<(usize, usize)>>,
    head: int,
    ei: int,
)
    requires
        0 <= head < queue.len(),
        0 <= ei,
    ensures
        visit(es, queue, parent, head, ei).0.len() >= queue.len(),
        unseen_targets(es, visit(es, queue, parent, head, ei).0) <= unseen_targets(es, queue),
        visit(es, queue, parent, head, ei).0.len() > queue.len() ==> unseen_targets(
            es,
            visit(es, queue, parent, head, ei).0,
        ) < unseen_targets(es, queue),
    decreases es.len() - ei,
{
    if ei < es.len() {
        if es[ei].from_id == queue[head] && !queue.contains(es[ei].to_id) {
            let x = es[ei].to_id;
            lemma_unseen_monotone(es, queue, x);
            lemma_visit_grows(
                es,
                queue.push(x),
                parent.push(Some((head as usize, ei as usize))),
                head,
                ei + 1,
            );
        } else {
            lemma_visit_grows(es, queue, parent, head, ei + 1);
        }
    }
}

/// The search from the starts, queued in their order, towards the ends.
pub open spec fn path_search(es: Seq<EdgeView>, starts: Seq<i64>, ends: Seq<i64>) -> (
    Seq<i64>,
    Seq<Option<(usize, usize)>>,
    Option<usize>,
) {
    let q = first_occurrences(starts);
    search_from(es, ends, q, Seq::new(q.len(), |i: int| None::<(usize, usize)>), 0)
}

/// The first symbol with the id.
pub open spec fn symbol_with_id(ss: Seq<SymbolView>, id: i64) -> Option<SymbolView>
    decreases ss.len(),
{
    if ss.len() == 0 {
        None
    } else if ss[0].id == id {
        Some(ss[0])
    } else {
        symbol_with_id(ss.drop_first(), id)
    }
}

/// The steps read back from position `cursor` of the queue through the
/// parents, last step first. Reading stops at a start, or at an id that no
/// symbol has.
pub open spec fn steps_back(
    ss: Seq<SymbolView>,
    es: Seq<EdgeView>,
    queue: Seq<i64>,
    parent: Seq<Option<(usize, usize)>>,
    cursor: int,
) -> Seq<PathStepView>
    decreases cursor,
{
    if cursor < 0 || cursor >= parent.len() || cursor >= queue.len() {
        Seq::empty()
    } else {
        match parent[cursor] {
            None => Seq::empty(),
            Some((p, ei)) => if p < cursor && ei < es.len() {
                match (symbol_with_id(ss, queue[p as int]), symbol_with_id(ss, queue[cursor])) {
                    (Some(f), Some(t)) => seq![PathStepView { edge: es[ei as int], from: f, to: t }]
                        + steps_back(ss, es, queue, parent, p as int),
                    _ => Seq::empty(),
                }
            } else {
                Seq::empty()
            },
        }
    }
}

/// The path `find_path` finds: breadth-first from the symbols the first query
/// names, in their order, following edges in their order, to the first
/// definition the second query names that is taken from the queue, read back
/// through the edge that first reached each id.
pub open spec fn found_path(
    ss: Seq<SymbolView>,
    es: Seq<EdgeView>,
    from_query: Seq<char>,
    to_query: Seq<char>,
) -> Option<Seq<PathStepView>> {
    let starts = ids(endpoint_candidates(ss, from_query, true));
    let ends = ids(endpoint_candidates(ss, to_query, false));
    if starts.len() == 0 || ends.len() == 0 {
        None
    } else {
        let r = path_search(es, starts, ends);
        match r.2 {
            None => None,
            Some(d) => Some(steps_back(ss, es, r.0, r.1, d as int).reverse()),
        }
    }
}

/// What a breadth-first search leaves behind: each seen id is a start, at
/// depth zero, or was reached by an edge from an earlier seen id, one edge
/// deeper.
spec fn search_tree(
    es: Seq<EdgeView>,
    start_ids: Seq<i64>,
    seen: Seq<i64>,
    parent: Seq<Option<(usize, usize)>>,
    depth: Seq<nat>,
) -> bool {
    &&& parent.len() == seen.len()
    &&& depth.len() == seen.len()
    &&& forall|j: int|
        0 <= j < seen.len() ==> (#[trigger] parent[j] is None ==> start_ids.contains(seen[j])
            && depth[j] == 0)
    &&& forall|j: int|
        0 <= j < seen.len() ==> (#[trigger] parent[j] matches Some((p, ei)) ==> {
            &&& p < j
            &&& ei < es.len()
            &&& es[ei as int].from_id == seen[p as int]
            &&& es[ei as int].to_id == seen[j]
            &&& depth[j] == depth[p as int] + 1
        })
}

/// Breadth-first search from the starts. Returns the ids seen, in the order
/// they were seen; how each was reached; the position of the first end taken
/// from the queue; and the number of edges from a start to each seen id.
#[verifier::spinoff_prover]
#[verifier::rlimit(30)]
fn breadth_first(edges: &Vec<Edge>, starts: &Vec<Symbol>, end_list: &Vec<i64>) -> (r: (
    Vec<i64>,
    Vec<Option<(usize, usize)>>,
    Option<usize>,
    Ghost<Seq<nat>>,
))
    requires
        starts.len() > 0,
    ensures
        search_tree(views(edges@), ids(views(starts@)), r.0@, r.1@, r.3@),
        path_search(views(edges@), ids(views(starts@)), end_list@) == (r.0@, r.1@, r.2),
        r.2 is None <==> !connects(views(edges@), ids(views(starts@)), end_list@),
        r.2 matches Some(d) ==> {
            &&& d < r.0.len()
            &&& end_list@.contains(r.0@[d as int])
            &&& forall|w: Seq<i64>|
                #[trigger] is_walk(views(edges@), w) && ids(views(starts@)).contains(w[0])
                    && end_list@.contains(w.last()) ==> r.3@[d as int] <= w.len() - 1
        },
{
    let ghost es = views(edges@);
    let ghost start_ids = ids(views(starts@));
    let ghost end_ids = end_list@;
    // seen doubles as the queue; parent[k] tells how seen[k] was reached
    let mut seen: Vec<i64> = Vec::new();
    let mut parent: Vec<Option<(usize, usize)>> = Vec::new();
    // the number of edges from a start to each seen id
    let ghost mut depth: Seq<nat> = Seq::empty();
    let mut k: usize = 0;
    while k < starts.len()
        invariant
            k <= starts.len(),
            start_ids == ids(views(starts@)),
            seen.len() == parent.len(),
            depth.len() == seen.len(),
            seen@.no_duplicates(),
            seen@ == first_occurrences(start_ids.take(k as int)),
            parent@ == Seq::new(seen.len() as nat, |i: int| None::<(usize, usize)>),
            forall|j: int| 0 <= j < seen.len() ==> parent@[j] is None,
            forall|j: int| 0 <= j < depth.len() ==> #[trigger] depth[j] == 0,
            forall|j: int| 0 <= j < seen.len() ==> start_ids.contains(#[trigger] seen@[j]),
            forall|j: int| 0 <= j < k ==> seen@.contains(#[trigger] start_ids[j]),
        decreases starts.len() - k,
    {
        let id = starts[k].id;
        assert(start_ids[k as int] == id);
        let ghost old = seen@;
        assert(start_ids.take(k + 1).drop_last() =~= start_ids.take(k as int));
        if !contains_id(&seen, id) {
            seen.push(id);
            parent.push(None);
            proof {
                depth = depth.push(0);
            }
            assert(seen@[seen.len() - 1] == id);
        }
        assert(parent@ =~= Seq::new(seen.len() as nat, |i: int| None::<(usize, usize)>));
        assert forall|j: int| 0 <= j < k + 1 implies seen@.contains(#[trigger] start_ids[j]) by {
            if j < k {
                let m = choose|m: int| 0 <= m < old.len() && old[m] == start_ids[j];
                assert(seen@[m] == start_ids[j]);
            } else if old.contains(id) {
                let m = choose|m: int| 0 <= m < old.len() && old[m] == id;
                assert(seen@[m] == id);
            } else {
                assert(seen@[seen.len() - 1] == id);
            }
        }
        k = k + 1;
    }

    proof {
        assert(start_ids.take(starts.len() as int) =~= start_ids);
        lemma_start_walks(es, seen@, start_ids);
        // every start lies at depth zero
        reveal(depths_minimal);
        reveal(depths_sorted);
        assert(depths_minimal(es, start_ids, seen@, depth));
        assert(depths_sorted(depth));
    }
    let mut head: usize = 0;
    let mut destination: Option<usize> = None;
    while head < seen.len()
        invariant_except_break
            destination is None,
        invariant
            head <= seen.len(),
            seen.len() == parent.len(),
            seen@.no_duplicates(),
            es == views(edges@),
            start_ids.len() > 0,
            start_ids == ids(views(starts@)),
            search_from(es, end_ids, seen@, parent@, head as int) == path_search(es, start_ids, end_ids),
            end_list@ == end_ids,
            forall|j: int| 0 <= j < start_ids.len() ==> seen@.contains(#[trigger] start_ids[j]),
            forall|j: int|
                0 <= j < seen.len() ==> (#[trigger] parent@[j] is None ==> start_ids.contains(
                    seen@[j],
                )),
            forall|j: int|
                0 <= j < seen.len() ==> (#[trigger] parent@[j] matches Some((p, ei)) ==> {
                    &&& p < j
                    &&& ei < es.len()
                    &&& es[ei as int].from_id == seen@[p as int]
                    &&& es[ei as int].to_id == seen@[j]
                }),
            forall|j: int, ei: int|
                #![trigger es[ei], seen@[j]]
                0 <= j < head && 0 <= ei < es.len() && es[ei].from_id == seen@[j]
                    ==> seen@.contains(es[ei].to_id),
            forall|j: int| 0 <= j < head ==> !end_ids.contains(#[trigger] seen@[j]),
            forall|j: int|
                #![trigger seen@[j]]
                0 <= j < seen.len() ==> reached(es, start_ids, seen@[j]),
            depth.len() == seen.len(),
            depths_sorted(depth),
            forall|j: int| head <= j < seen.len() ==> #[trigger] depth[j] <= depth[head as int] + 1,
            depths_minimal(es, start_ids, seen@, depth),
            forall|j: int| 0 <= j < seen.len() ==> (#[trigger] parent@[j] is None ==> depth[j] == 0),
            forall|j: int|
                0 <= j < seen.len() ==> (#[trigger] parent@[j] matches Some((p, e)) ==> depth[j]
                    == depth[p as int] + 1),
        ensures
            destination matches Some(d) ==> d == head && d < seen.len() && end_ids.contains(
                seen@[d as int],
            ),
            destination is None ==> head == seen.len(),
        decreases unseen_targets(es, seen@), seen.len() - head,
    {
        let current = seen[head];
        if contains_id(&end_list, current) {
            destination = Some(head);
            break;
        }
        let ghost seen_before = seen@;
        let ghost parent_before = parent@;
        let ghost unseen_before = unseen_targets(es, seen@);
        let mut ei: usize = 0;
        while ei < edges.len()
            invariant
                head < seen.len(),
                seen_before.len() <= seen.len(),
                seen@.take(seen_before.len() as int) == seen_before,
                current == seen@[head as int],
                visit(es, seen@, parent@, head as int, ei as int) == visit(
                    es,
                    seen_before,
                    parent_before,
                    head as int,
                    0,
                ),
                seen.len() == parent.len(),
                seen@.no_duplicates(),
                es == views(edges@),
                ei <= edges.len(),
                unseen_targets(es, seen@) <= unseen_before,
                seen.len() > seen_before.len() ==> unseen_targets(es, seen@) < unseen_before,
                forall|j: int| 0 <= j < start_ids.len() ==> seen@.contains(#[trigger] start_ids[j]),
                forall|j: int|
                    0 <= j < seen.len() ==> (#[trigger] parent@[j] is None ==> start_ids.contains(
                        seen@[j],
                    )),
                forall|j: int|
                    0 <= j < seen.len() ==> (#[trigger] parent@[j] matches Some((p, ei)) ==> {
                        &&& p < j
                        &&& ei < es.len()
                        &&& es[ei as int].from_id == seen@[p as int]
                        &&& es[ei as int].to_id == seen@[j]
                    }),
                forall|j: int, e: int|
                    #![trigger es[e], seen@[j]]
                    0 <= j < head && 0 <= e < es.len() && es[e].from_id == seen@[j]
                        ==> seen@.contains(es[e].to_id),
                forall|e: int|
                    0 <= e < ei && #[trigger] es[e].from_id == current ==> seen@.contains(
                        es[e].to_id,
                    ),
                forall|j: int|
                    #![trigger seen@[j]]
                    0 <= j < seen.len() ==> reached(es, start_ids, seen@[j]),
                depth.len() == seen.len(),
                depths_sorted(depth),
                forall|j: int| head <= j < seen.len() ==> #[trigger] depth[j] <= depth[head as int] + 1,
                depths_minimal(es, start_ids, seen@, depth),
                forall|j: int| 0 <= j < seen.len() ==> (#[trigger] parent@[j] is None ==> depth[j] == 0),
                forall|j: int|
                    0 <= j < seen.len() ==> (#[trigger] parent@[j] matches Some((p, e)) ==> depth[j]
                        == depth[p as int] + 1),
            decreases edges.len() - ei,
        {
            let e = &edges[ei];
            assert(es[ei as int] == e@);
            if e.from_id == current && !contains_id(&seen, e.to_id) {
                let ghost old_seen = seen@;
                let to = e.to_id;
                proof {
                    lemma_unseen_monotone(es, old_seen, to);
                    let w = choose|w: Seq<i64>|
                        #[trigger] is_walk(es, w) && start_ids.contains(w[0]) && w.last()
                            == old_seen[head as int];
                    let w2 = w.push(to);
                    assert(linked(es, w2[w2.len() - 2], w2[w2.len() - 1])) by {
                        assert(es[ei as int].from_id == w2[w2.len() - 2]);
                    }
                    assert forall|m: int| 0 <= m < w2.len() - 1 implies linked(
                        es,
                        #[trigger] w2[m],
                        w2[m + 1],
                    ) by {
                        if m < w2.len() - 2 {
                            assert(w2[m] == w[m]);
                            assert(w2[m + 1] == w[m + 1]);
                        }
                    }
                    assert(is_walk(es, w2));
                    assert(w2[0] == w[0]);
                }
                proof {
                    lemma_depth_after_push(es, start_ids, old_seen, depth, head as int, to);
                    depth = depth.push(depth[head as int] + 1);
                }
                seen.push(to);
                parent.push(Some((head, ei)));
                proof {
                    assert forall|j: int| 0 <= j < start_ids.len() implies seen@.contains(
                        #[trigger] start_ids[j],
                    ) by {
                        let m = choose|m: int| 0 <= m < old_seen.len() && old_seen[m] == start_ids[j];
                        assert(seen@[m] == start_ids[j]);
                    }
                    assert forall|j: int, e2: int|
                        #![trigger es[e2], seen@[j]]
                        0 <= j < head && 0 <= e2 < es.len() && es[e2].from_id
                            == seen@[j] implies seen@.contains(es[e2].to_id) by {
                        assert(old_seen[j] == seen@[j]);
                        let m = choose|m: int| 0 <= m < old_seen.len() && old_seen[m] == es[e2].to_id;
                        assert(seen@[m] == es[e2].to_id);
                    }
                    assert forall|e2: int|
                        0 <= e2 < ei + 1 && #[trigger] es[e2].from_id == current implies seen@.contains(
                            es[e2].to_id,
                        ) by {
                        if e2 < ei {
                            let m = choose|m: int|
                                0 <= m < old_seen.len() && old_seen[m] == es[e2].to_id;
                            assert(seen@[m] == es[e2].to_id);
                        } else {
                            assert(seen@[seen.len() - 1] == es[e2].to_id);
                        }
                    }
                    assert forall|j: int|
                        #![trigger seen@[j]]
                        0 <= j < seen.len() implies reached(es, start_ids, seen@[j]) by {
                        if j < old_seen.len() {
                            assert(seen@[j] == old_seen[j]);
                        } else {
                            let w = choose|w: Seq<i64>|
                                #[trigger] is_walk(es, w) && start_ids.contains(w[0]) && w.last()
                                    == old_seen[head as int];
                            let w2 = w.push(to);
                            assert(w2.last() == seen@[j]);
                            assert forall|m: int| 0 <= m < w2.len() - 1 implies linked(
                                es,
                                #[trigger] w2[m],
                                w2[m + 1],
                            ) by {
                                if m < w2.len() - 2 {
                                    assert(w2[m] == w[m]);
                                    assert(w2[m + 1] == w[m + 1]);
                                } else {
                                    assert(es[ei as int].from_id == w2[m]);
                                }
                            }
                            assert(is_walk(es, w2));
                            assert(w2[0] == w[0]);
                        }
                    }
                    assert(seen@.take(seen_before.len() as int) =~= seen_before);
                    assert(seen@.no_duplicates());
                }
            } else {
                proof {
                    if e.from_id == current {
                        assert(seen@.contains(e.to_id));
                    }
                }
            }
            ei = ei + 1;
        }
        proof {
            assert forall|j: int, e2: int|
                #![trigger es[e2], seen@[j]]
                0 <= j < head + 1 && 0 <= e2 < es.len() && es[e2].from_id == seen@[j]
                    implies seen@.contains(es[e2].to_id) by {
                if j < head {
                } else {
                    assert(seen@[j] == current);
                }
            }
            assert forall|j: int| head + 1 <= j < seen.len() implies #[trigger] depth[j] <= depth[head + 1]
                + 1 by {
                reveal(depths_sorted);
                assert(depth[head as int] <= depth[head + 1]);
                assert(depth[j] <= depth[head as int] + 1);
            }
            assert forall|j: int| 0 <= j < head + 1 implies !end_ids.contains(#[trigger] seen@[j]) by {
                if j < head {
                    assert(seen@[j] == seen_before[j]);
                } else {
                    assert(seen@[j] == current);
                }
            }
        }
        head = head + 1;
    }

    match destination {
        None => {
            proof {
                // every id reachable from a start is seen, and no seen id is an end
                if connects(es, start_ids, end_ids) {
                    let w = choose|w: Seq<i64>|
                        #[trigger] is_walk(es, w) && start_ids.contains(w[0]) && end_ids.contains(
                            w.last(),
                        );
                    lemma_walk_stays_seen(es, w, seen@, start_ids);
                    let m = choose|m: int| 0 <= m < seen@.len() && seen@[m] == w.last();
                    assert(!end_ids.contains(seen@[m]));
                }
            }
            assert(search_from(es, end_ids, seen@, parent@, head as int) == (seen@, parent@, None::<usize>));
            (seen, parent, None, Ghost(depth))
        },
        Some(d) => {
            assert(search_from(es, end_ids, seen@, parent@, head as int) == (seen@, parent@, Some(d)));
            proof {
                let w = choose|w: Seq<i64>|
                    #[trigger] is_walk(es, w) && start_ids.contains(w[0]) && w.last() == seen@[d as int];
                assert(connects(es, start_ids, end_ids));
                // a walk to an end passes a seen id from `d` on, all at least as deep
                assert forall|w: Seq<i64>|
                    #[trigger] is_walk(es, w) && start_ids.contains(w[0]) && end_ids.contains(w.last())
                        implies depth[d as int] <= w.len() - 1 by {
                    assert forall|j: int| 0 <= j < d implies seen@[j] != w.last() by {
                        assert(!end_ids.contains(seen@[j]));
                    }
                    lemma_unprocessed_bound(es, start_ids, seen@, depth, d as int, w);
                    let m = choose|m: int| d <= m < seen.len() && depth[m] <= w.len() - 1;
                    reveal(depths_sorted);
                    assert(depth[d as int] <= depth[m]);
                }
            }
            (seen, parent, Some(d), Ghost(depth))
        },
    }
}

/// The steps from a start to the `d`-th seen id, read back through the
/// parents the search recorded.
fn trace_back(
    symbols: &Vec<Symbol>,
    edges: &Vec<Edge>,
    seen: &Vec<i64>,
    parent: &Vec<Option<(usize, usize)>>,
    d: usize,
    Ghost(start_ids): Ghost<Seq<i64>>,
    Ghost(depth): Ghost<Seq<nat>>,
) -> (steps: Vec<PathStep>)
    requires
        search_tree(views(edges@), start_ids, seen@, parent@, depth),
        d < seen.len(),
    ensures
        valid_steps(views(steps@), views(symbols@), views(edges@)),
        steps.len() <= depth[d as int],
        steps.len() > 0 ==> steps@.last().to.id == seen@[d as int],
        edges_closed(views(symbols@), views(edges@)) ==> {
            &&& steps.len() > 0 ==> start_ids.contains(steps@[0].from.id)
            &&& steps.len() == 0 ==> start_ids.contains(seen@[d as int])
        },
        views(steps@) == steps_back(views(symbols@), views(edges@), seen@, parent@, d as int).reverse(),
{
    let ghost es = views(edges@);
    let ghost ss = views(symbols@);
    let ghost all = steps_back(ss, es, seen@, parent@, d as int);
    // walk back from the destination through the recorded parents
    let mut rev: Vec<PathStep> = Vec::new();
    let mut cursor = d;
    assert(views(rev@) + all =~= all);
    loop
        invariant
            all == steps_back(ss, es, seen@, parent@, d as int),
            views(rev@) + steps_back(ss, es, seen@, parent@, cursor as int) == all,
            cursor < seen.len(),
            d < seen.len(),
            es == views(edges@),
            ss == views(symbols@),
            search_tree(es, start_ids, seen@, parent@, depth),
            rev.len() + depth[cursor as int] == depth[d as int],
            forall|m: int|
                0 <= m < rev.len() ==> {
                    &&& es.contains(#[trigger] rev@[m]@.edge)
                    &&& ss.contains(rev@[m]@.from)
                    &&& ss.contains(rev@[m]@.to)
                    &&& rev@[m]@.from.id == rev@[m]@.edge.from_id
                    &&& rev@[m]@.to.id == rev@[m]@.edge.to_id
                },
            forall|m: int| 0 <= m < rev.len() - 1 ==> #[trigger] rev@[m]@.from.id == rev@[m + 1]@.to.id,
            rev.len() > 0 ==> rev@[0]@.to.id == seen@[d as int],
            rev.len() > 0 ==> rev@.last()@.from.id == seen@[cursor as int],
            rev.len() == 0 ==> cursor == d,
        ensures
            edges_closed(ss, es) ==> {
                &&& rev.len() > 0 ==> start_ids.contains(rev@.last()@.from.id)
                &&& rev.len() == 0 ==> start_ids.contains(seen@[d as int])
            },
            views(rev@) == all,
        decreases cursor,
    {
        let (p, ei) = match parent[cursor] {
            Some(pe) => pe,
            None => {
                assert(views(rev@) + steps_back(ss, es, seen@, parent@, cursor as int) =~= views(rev@));
                break;
            },
        };
        let from = match symbol_by_id(symbols, seen[p]) {
            Some(s) => s,
            None => {
                proof {
                    assert(es[ei as int].from_id == seen@[p as int]);
                    assert(views(rev@) + steps_back(ss, es, seen@, parent@, cursor as int) =~= views(rev@));
                }
                break;
            },
        };
        let to = match symbol_by_id(symbols, seen[cursor]) {
            Some(s) => s,
            None => {
                proof {
                    assert(es[ei as int].to_id == seen@[cursor as int]);
                    assert(views(rev@) + steps_back(ss, es, seen@, parent@, cursor as int) =~= views(rev@));
                }
                break;
            },
        };
        let step = PathStep { edge: edges[ei].duplicate(), from, to };
        assert(es[ei as int] == edges@[ei as int]@);
        let ghost before = rev@;
        proof {
            assert(step@ == PathStepView { edge: es[ei as int], from: from@, to: to@ });
            assert(steps_back(ss, es, seen@, parent@, cursor as int) == seq![step@] + steps_back(
                ss,
                es,
                seen@,
                parent@,
                p as int,
            ));
        }
        rev.push(step);
        proof {
            lemma_views_push(before, step);
            assert(views(rev@) + steps_back(ss, es, seen@, parent@, p as int) =~= views(before) + (seq![
                step@,
            ] + steps_back(ss, es, seen@, parent@, p as int)));
            assert(es.contains(step@.edge)) by {
                assert(es[ei as int] == step@.edge);
            }
            assert forall|m: int| 0 <= m < rev.len() implies {
                &&& es.contains(#[trigger] rev@[m]@.edge)
                &&& ss.contains(rev@[m]@.from)
                &&& ss.contains(rev@[m]@.to)
                &&& rev@[m]@.from.id == rev@[m]@.edge.from_id
                &&& rev@[m]@.to.id == rev@[m]@.edge.to_id
            } by {
                if m < before.len() {
                    assert(rev@[m] == before[m]);
                } else {
                    assert(rev@[m] == step);
                }
            }
        }
        cursor = p;
    }

    let mut steps: Vec<PathStep> = Vec::new();
    let mut m: usize = rev.len();
    while m > 0
        invariant
            m <= rev.len(),
            steps.len() == rev.len() - m,
            forall|q: int| 0 <= q < steps.len() ==> #[trigger] steps@[q]@ == rev@[rev.len() - 1 - q]@,
        decreases m,
    {
        let s = &rev[m - 1];
        steps.push(PathStep { edge: s.edge.duplicate(), from: s.from.duplicate(), to: s.to.duplicate() });
        m = m - 1;
    }
    proof {
        let sv = views(steps@);
        assert forall|q: int| 0 <= q < sv.len() implies sv[q] == rev@[rev.len() - 1 - q]@ by {
        }
        assert(sv =~= views(rev@).reverse());
        assert forall|q: int| 0 <= q < sv.len() - 1 implies #[trigger] sv[q].to.id == sv[q + 1].from.id by {
            assert(sv[q] == rev@[rev.len() - 1 - q]@);
            assert(sv[q + 1] == rev@[rev.len() - 2 - q]@);
            assert(rev@[rev.len() - 2 - q]@.from.id == rev@[rev.len() - 1 - q]@.to.id);
        }
        if steps.len() > 0 {
            assert(sv.last() == rev@[0]@);
            assert(sv[0] == rev@.last()@);
        }
    }
    steps
}

/// A path of edges from a symbol matching `from_query` (any kind) to a
/// definition matching `to_query`, found by breadth-first search: no chain of
/// edges between them is shorter. The search queues the symbols of the first
/// query in their order and follows the edges in their order; the path leads
/// to the first end taken from the queue, through the edge that first reached
/// each id on the way (see [`found_path`]).
///
/// A query matches symbols by name, or failing that by file. `None` when no
/// symbol matches either query or no chain of edges connects them.
pub fn find_path(symbols: &Vec<Symbol>, edges: &Vec<Edge>, from_query: &str, to_query: &str) -> (r:
    Option<PathResult>)
    ensures
        r is None <==> !connects(
            views(edges@),
            ids(endpoint_candidates(views(symbols@), from_query@, true)),
            ids(endpoint_candidates(views(symbols@), to_query@, false)),
        ),
        r is None <==> found_path(views(symbols@), views(edges@), from_query@, to_query@) is None,
        r matches Some(p) ==> found_path(views(symbols@), views(edges@), from_query@, to_query@) == Some(
            views(p.steps@),
        ),
        r matches Some(p) ==> {
            &&& p.from_query@ == trim(from_query@)
            &&& p.to_query@ == trim(to_query@)
            &&& valid_steps(views(p.steps@), views(symbols@), views(edges@))
            &&& forall|w: Seq<i64>|
                #[trigger] is_walk(views(edges@), w) && ids(
                    endpoint_candidates(views(symbols@), from_query@, true),
                ).contains(w[0]) && ids(endpoint_candidates(views(symbols@), to_query@, false)).contains(
                    w.last(),
                ) ==> p.steps.len() <= w.len() - 1
            &&& p.steps.len() > 0 ==> ids(
                endpoint_candidates(views(symbols@), to_query@, false),
            ).contains(p.steps@.last().to.id)
            &&& edges_closed(views(symbols@), views(edges@)) ==> {
                &&& p.steps.len() > 0 ==> ids(
                    endpoint_candidates(views(symbols@), from_query@, true),
                ).contains(p.steps@[0].from.id)
                &&& p.steps.len() == 0 ==> exists|k: int|
                    0 <= k < endpoint_candidates(views(symbols@), from_query@, true).len()
                        && ids(endpoint_candidates(views(symbols@), to_query@, false)).contains(
                        #[trigger] endpoint_candidates(views(symbols@), from_query@, true)[k].id,
                    )
            }
        },
{
    let starts = resolve_endpoint_candidates(symbols, from_query, true);
    let ends = resolve_endpoint_candidates(symbols, to_query, false);
    let ghost es = views(edges@);
    let ghost start_ids = ids(views(starts@));
    let ghost end_ids = ids(views(ends@));
    if starts.len() == 0 || ends.len() == 0 {
        proof {
            if connects(es, start_ids, end_ids) {
                let w = choose|w: Seq<i64>|
                    #[trigger] is_walk(es, w) && start_ids.contains(w[0]) && end_ids.contains(w.last());
            }
        }
        return None;
    }
    let mut end_list: Vec<i64> = Vec::new();
    let mut k: usize = 0;
    while k < ends.len()
        invariant
            k <= ends.len(),
            end_ids == ids(views(ends@)),
            end_list@ == end_ids.take(k as int),
        decreases ends.len() - k,
    {
        end_list.push(ends[k].id);
        assert(end_list@ =~= end_ids.take(k + 1));
        k = k + 1;
    }
    assert(end_ids.take(ends.len() as int) =~= end_ids);

    let (seen, parent, destination, Ghost(depth)) = breadth_first(edges, &starts, &end_list);
    let d = match destination {
        Some(d) => d,
        None => return None,
    };
    let steps = trace_back(symbols, edges, &seen, &parent, d, Ghost(start_ids), Ghost(depth));
    proof {
        if edges_closed(views(symbols@), es) && steps.len() == 0 {
            let id = seen@[d as int];
            let k = choose|k: int| 0 <= k < start_ids.len() && start_ids[k] == id;
            assert(views(starts@)[k].id == id);
        }
    }
    let fc = chars_of(from_query);
    let tc = chars_of(to_query);
    let ft = trim_chars(fc.as_slice());
    let tt = trim_chars(tc.as_slice());
    Some(PathResult { from_query: string_of(ft.as_slice()), to_query: string_of(tt.as_slice()), steps })
}

/// Each start is reached by the walk made of itself alone.
proof fn lemma_start_walks(es: Seq<EdgeView>, seen: Seq<i64>, starts: Seq<i64>)
    requires
        forall|j: int| 0 <= j < seen.len() ==> starts.contains(#[trigger] seen[j]),
    ensures
        forall|j: int|
            #![trigger seen[j]]
            0 <= j < seen.len() ==> reached(es, starts, seen[j]),
{
    assert forall|j: int|
        #![trigger seen[j]]
        0 <= j < seen.len() implies reached(es, starts, seen[j]) by {
        let w = seq![seen[j]];
        assert(is_walk(es, w));
        assert(w[0] == seen[j]);
        assert(w.last() == seen[j]);
    }
}

/// Every id on a walk that starts at a start id stays in a set that holds the
/// starts and is closed under edges.
proof fn lemma_walk_stays_seen(es: Seq<EdgeView>, w: Seq<i64>, seen: Seq<i64>, starts: Seq<i64>)
    requires
        is_walk(es, w),
        starts.contains(w[0]),
        forall|j: int| 0 <= j < starts.len() ==> seen.contains(#[trigger] starts[j]),
        forall|j: int, ei: int|
            #![trigger es[ei], seen[j]]
            0 <= j < seen.len() && 0 <= ei < es.len() && es[ei].from_id == seen[j]
                ==> seen.contains(es[ei].to_id),
    ensures
        seen.contains(w.last()),
    decreases w.len(),
{
    if w.len() == 1 {
        let j = choose|j: int| 0 <= j < starts.len() && starts[j] == w[0];
        assert(seen.contains(starts[j]));
    } else {
        let v = w.drop_last();
        assert forall|k: int| 0 <= k < v.len() - 1 implies linked(es, #[trigger] v[k], v[k + 1]) by {
            assert(v[k] == w[k]);
            assert(v[k + 1] == w[k + 1]);
            assert(linked(es, w[k], w[k + 1]));
        }
        lemma_walk_stays_seen(es, v, seen, starts);
        assert(linked(es, w[w.len() - 2], w[w.len() - 1]));
        let ei = choose|ei: int|
            0 <= ei < es.len() && #[trigger] es[ei].from_id == w[w.len() - 2] && es[ei].to_id
                == w[w.len() - 1];
        let j = choose|j: int| 0 <= j < seen.len() && seen[j] == v.last();
        assert(es[ei].from_id == seen[j]);
    }
}

/// A query `from -> to`: the two trimmed sides of the first `->`, when both
/// are non-empty.
pub open spec fn path_query_of(input: Seq<char>) -> Option<(Seq<char>, Seq<char>)> {
    match crate::text::find_from(input, "->"@, 0) {
        None => None,
        Some(i) => {
            let from = trim(input.take(i));
            let to = trim(input.skip(i + 2));
            if from.len() == 0 || to.len() == 0 {
                None
            } else {
                Some((from, to))
            }
        },
    }
}

/// Reads a path query `from -> to`.
pub fn parse_path_query(input: &str) -> (r: Option<(String, String)>)
    ensures
        match r {
            Some((a, b)) => path_query_of(input@) == Some((a@, b@)),
            None => path_query_of(input@) is None,
        },
{
    let cs = chars_of(input);
    let arrow = vec!['-', '>'];
    assert(arrow@ =~= "->"@) by {
        reveal_strlit("->");
    }
    match crate::text::find_exec(cs.as_slice(), arrow.as_slice(), 0) {
        None => None,
        Some(i) => {
            proof {
                crate::text::lemma_find_from_some(cs@, "->"@, 0);
                reveal_strlit("->");
                assert(i + 2 <= cs.len());
            }
            let left = crate::text::slice_of(cs.as_slice(), 0, i);
            let right = crate::text::slice_of(cs.as_slice(), i + 2, cs.len());
            assert(left@ =~= cs@.take(i as int));
            assert(right@ =~= cs@.skip(i + 2));
            let from = trim_chars(left.as_slice());
            let to = trim_chars(right.as_slice());
            if from.len() == 0 || to.len() == 0 {
                None
            } else {
                Some((string_of(from.as_slice()), string_of(to.as_slice())))
            }
        },
    }
}

} // verus!
