//! Resolution of calls, renders, imports and routes to the definitions they
//! refer to.
//!
//! Calls are resolved with a three-tier strategy:
//!
//! 1. Same-file: the call name matches exactly one definition in the same file.
//! 2. Import-based: the name is imported in the calling file, and the import
//!    resolves to one definition.
//! 3. Global fallback: exactly one definition with that name exists anywhere.
//!
//! Ambiguous matches (several candidates) produce no edge.
use vstd::prelude::*;

use crate::models::{Edge, EdgeView, ImportRef, ImportRefView, RouteRef, RouteRefView, Symbol, SymbolView};
use crate::order::{lemma_views_add, views};
use crate::paths::{
    concat_parts, components, components_exec, extension, extension_exec, join_parts, join_parts_exec,
    resolve_parents, resolve_parents_exec,
};
use crate::select::{
    count, gather, lemma_count_le, lemma_gather_contains, lemma_select_len, lemma_select_member,
    lemma_select_select, lemma_select_single, select,
};
use crate::text::{
    chars_of, find_exec, find_from, lemma_find_from_some, owned, push_chars, push_str,
    replace_char, replace_char_exec, slice_eq, slice_of, trim, trim_chars,
};

verus! {

/// How many references of each kind were linked, and how many were skipped
/// as ambiguous.
#[derive(Debug, Clone, Copy, Default, PartialEq, Eq)]
pub struct ResolveStats {
    pub resolved: usize,
    pub ambiguous: usize,
    pub imports: usize,
    pub renders: usize,
    pub routes: usize,
}

/// What the resolver reads from the index. `definitions` are the definition
/// symbols; `calls`, `renders`, `imports` and `routes` are the symbols of
/// those kinds; `import_refs` lists the import statements of all files.
pub struct ResolveInput {
    pub definitions: Vec<Symbol>,
    pub calls: Vec<Symbol>,
    pub renders: Vec<Symbol>,
    pub imports: Vec<Symbol>,
    pub routes: Vec<Symbol>,
    pub route_refs: Vec<RouteRef>,
    pub import_refs: Vec<ImportRef>,
}

/// The edges to add to the index, in order, and the counts.
pub struct Resolution {
    pub edges: Vec<Edge>,
    pub stats: ResolveStats,
}

/// The decision taken for one reference.
pub enum Decision {
    /// No definition is considered.
    Skip,
    /// Several definitions fit and none is preferred.
    Ambiguous,
    /// An edge to the definition `target`, with a reason and a confidence.
    Link(i64, Seq<char>, u32),
}

/// Decision of the exec code, viewed as a `Decision`.
pub enum Outcome {
    Skip,
    Ambiguous,
    Link(i64, String, u32),
}

impl View for Outcome {
    type V = Decision;

    open spec fn view(&self) -> Decision {
        match self {
            Outcome::Skip => Decision::Skip,
            Outcome::Ambiguous => Decision::Ambiguous,
            Outcome::Link(t, r, k) => Decision::Link(*t, r@, *k),
        }
    }
}

// ---------------------------------------------------------------------------
// Specification
// ---------------------------------------------------------------------------
pub open spec fn named(defs: Seq<SymbolView>, name: Seq<char>) -> Seq<SymbolView> {
    select(defs, |d: SymbolView| d.name == name)
}

pub open spec fn in_file(cands: Seq<SymbolView>, file: Seq<char>) -> Seq<SymbolView> {
    select(cands, |d: SymbolView| d.file == file)
}

pub open spec fn not_in_file(cands: Seq<SymbolView>, file: Seq<char>) -> Seq<SymbolView> {
    select(cands, |d: SymbolView| d.file != file)
}

pub open spec fn in_files(cands: Seq<SymbolView>, paths: Seq<Seq<char>>) -> Seq<SymbolView> {
    select(cands, |d: SymbolView| paths.contains(d.file))
}

/// The components of the directory that holds `file` (`Path::parent`).
pub open spec fn parent_parts(file: Seq<char>) -> Seq<Seq<char>> {
    let cs = components(file);
    if cs.len() == 0 {
        cs
    } else {
        cs.drop_last()
    }
}

pub open spec fn is_known_ext(e: Seq<char>) -> bool {
    e == "ts"@ || e == "tsx"@ || e == "js"@ || e == "jsx"@ || e == "py"@ || e == "go"@ || e
        == "rs"@
}

/// The extension of `path` is one of the indexed source extensions.
pub open spec fn has_known_ext(path: Seq<char>) -> bool {
    match extension(path) {
        Some(e) => is_known_ext(e),
        None => false,
    }
}

/// `s` without repeated elements, keeping first occurrences.
pub open spec fn dedupe_seq(s: Seq<Seq<char>>) -> Seq<Seq<char>>
    decreases s.len(),
{
    if s.len() == 0 {
        s
    } else {
        let d = dedupe_seq(s.drop_last());
        if d.contains(s.last()) {
            d
        } else {
            d.push(s.last())
        }
    }
}

/// The file paths a relative module specifier may refer to: the path itself,
/// and when it has no known extension, the path with each source extension
/// and with each `/index` file.
pub open spec fn module_candidates(base: Seq<char>) -> Seq<Seq<char>> {
    if has_known_ext(base) {
        seq![base]
    } else {
        seq![
            base,
            base + ".ts"@,
            base + ".tsx"@,
            base + ".js"@,
            base + ".jsx"@,
            base + ".py"@,
            base + ".go"@,
            base + ".rs"@,
            base + "/index.ts"@,
            base + "/index.tsx"@,
            base + "/index.js"@,
            base + "/index.jsx"@,
        ]
    }
}

/// The normalized path of a relative module specifier (one that starts with
/// `.` once trimmed) seen from directory `dir`; `None` for other specifiers.
pub open spec fn module_base(dir: Seq<Seq<char>>, source: Seq<char>) -> Option<Seq<char>> {
    let raw = trim(source);
    if raw.len() == 0 || raw[0] != '.' {
        None
    } else {
        let raw = replace_char(raw, '\\', seq!['/']);
        Some(join_parts(resolve_parents(dir + components(raw))))
    }
}

/// The paths a module specifier may refer to, from directory `dir`.
pub open spec fn module_paths(dir: Seq<Seq<char>>, source: Seq<char>) -> Option<Seq<Seq<char>>> {
    match module_base(dir, source) {
        Some(base) => Some(dedupe_seq(module_candidates(base))),
        None => None,
    }
}

/// The import statements of `file` that import `name`.
pub open spec fn imports_of(refs: Seq<ImportRefView>, file: Seq<char>, name: Seq<char>) -> Seq<
    ImportRefView,
> {
    select(refs, |r: ImportRefView| r.file == file && r.imported_name == name)
}

/// The first import whose module resolves to exactly one candidate file.
pub open spec fn first_path_match(
    ms: Seq<ImportRefView>,
    cands: Seq<SymbolView>,
    dir: Seq<Seq<char>>,
) -> Option<(i64, Seq<char>, u32)>
    decreases ms.len(),
{
    if ms.len() == 0 {
        None
    } else {
        match module_paths(dir, ms[0].source_module) {
            Some(paths) if in_files(cands, paths).len() == 1 => Some(
                (
                    in_files(cands, paths)[0].id,
                    "import-based match via "@ + ms[0].source_module,
                    88,
                ),
            ),
            _ => first_path_match(ms.drop_first(), cands, dir),
        }
    }
}

/// Resolution of a call through the imports of the calling file.
pub open spec fn import_decision(
    refs: Seq<ImportRefView>,
    cands: Seq<SymbolView>,
    file: Seq<char>,
    name: Seq<char>,
) -> Option<(i64, Seq<char>, u32)> {
    let ms = imports_of(refs, file, name);
    if ms.len() == 0 {
        None
    } else {
        match first_path_match(ms, cands, parent_parts(file)) {
            Some(found) => Some(found),
            None => {
                let other = not_in_file(cands, file);
                if other.len() == 1 {
                    Some(
                        (
                            other[0].id,
                            "imported name match (source: "@ + ms[0].source_module + ")"@,
                            75,
                        ),
                    )
                } else {
                    None
                }
            },
        }
    }
}

pub open spec fn call_decision(
    defs: Seq<SymbolView>,
    refs: Seq<ImportRefView>,
    c: SymbolView,
) -> Decision {
    let cands = named(defs, c.name);
    if cands.len() == 0 {
        Decision::Skip
    } else if in_file(cands, c.file).len() == 1 {
        Decision::Link(in_file(cands, c.file)[0].id, "same-file definition match"@, 95)
    } else {
        match import_decision(refs, cands, c.file, c.name) {
            Some((t, r, k)) => Decision::Link(t, r, k),
            None => if cands.len() == 1 {
                Decision::Link(cands[0].id, "unique global definition match"@, 70)
            } else {
                Decision::Ambiguous
            },
        }
    }
}

pub open spec fn render_decision(defs: Seq<SymbolView>, r: SymbolView) -> Decision {
    let cands = named(defs, r.name);
    if cands.len() == 0 {
        Decision::Skip
    } else if in_file(cands, r.file).len() == 1 {
        Decision::Link(in_file(cands, r.file)[0].id, "same-file JSX component render"@, 97)
    } else if cands.len() == 1 {
        Decision::Link(cands[0].id, "unique JSX component match"@, 90)
    } else {
        Decision::Skip
    }
}

pub open spec fn import_link_decision(defs: Seq<SymbolView>, i: SymbolView) -> Decision {
    let other = not_in_file(named(defs, i.name), i.file);
    if other.len() == 1 {
        Decision::Link(other[0].id, "import name match across files"@, 99)
    } else {
        Decision::Skip
    }
}

/// The file of the last route symbol with id `id`.
pub open spec fn route_file_of(routes: Seq<SymbolView>, id: i64) -> Option<Seq<char>>
    decreases routes.len(),
{
    if routes.len() == 0 {
        None
    } else if routes.last().id == id {
        Some(routes.last().file)
    } else {
        route_file_of(routes.drop_last(), id)
    }
}

/// The definitions a route handler name refers to: the name itself, or for
/// `Controller@method`, the method and failing that the controller.
pub open spec fn handler_candidates(defs: Seq<SymbolView>, handler: Seq<char>) -> Seq<SymbolView> {
    if named(defs, handler).len() > 0 {
        named(defs, handler)
    } else {
        match find_from(handler, seq!['@'], 0) {
            Some(i) => {
                let controller = handler.subrange(0, i);
                let method = handler.subrange(i + 1, handler.len() as int);
                if named(defs, method).len() > 0 {
                    named(defs, method)
                } else {
                    named(defs, controller)
                }
            },
            None => Seq::empty(),
        }
    }
}

pub open spec fn route_decision(
    defs: Seq<SymbolView>,
    routes: Seq<SymbolView>,
    rr: RouteRefView,
) -> Decision {
    match route_file_of(routes, rr.route_id) {
        None => Decision::Skip,
        Some(route_file) => {
            let cands = handler_candidates(defs, rr.handler_name);
            if cands.len() == 0 {
                Decision::Skip
            } else if in_file(cands, route_file).len() == 1 {
                Decision::Link(
                    in_file(cands, route_file)[0].id,
                    "route handler match (same-file)"@,
                    96,
                )
            } else if cands.len() == 1 {
                Decision::Link(cands[0].id, "route handler match (unique global)"@, 78)
            } else {
                Decision::Ambiguous
            }
        },
    }
}

pub open spec fn is_link(d: Decision) -> bool {
    d is Link
}

pub open spec fn is_ambiguous(d: Decision) -> bool {
    d is Ambiguous
}

/// The edge a decision gives for a symbol reference.
pub open spec fn symbol_edge(s: SymbolView, relation: Seq<char>, d: Decision) -> Option<EdgeView> {
    match d {
        Decision::Link(t, r, k) => Some(
            EdgeView {
                from_id: s.id,
                to_id: t,
                relation,
                reason: r,
                origin_file: s.file,
                origin_line: s.line,
                confidence: k,
            },
        ),
        _ => None,
    }
}

pub open spec fn route_edge(rr: RouteRefView, d: Decision) -> Option<EdgeView> {
    match d {
        Decision::Link(t, r, k) => Some(
            EdgeView {
                from_id: rr.route_id,
                to_id: t,
                relation: "routes_to"@,
                reason: r,
                origin_file: rr.origin_file,
                origin_line: rr.origin_line,
                confidence: k,
            },
        ),
        _ => None,
    }
}

pub open spec fn call_edge_fn(defs: Seq<SymbolView>, refs: Seq<ImportRefView>) -> spec_fn(
    SymbolView,
) -> Option<EdgeView> {
    |c: SymbolView| symbol_edge(c, "calls"@, call_decision(defs, refs, c))
}

pub open spec fn call_link_fn(defs: Seq<SymbolView>, refs: Seq<ImportRefView>) -> spec_fn(
    SymbolView,
) -> bool {
    |c: SymbolView| is_link(call_decision(defs, refs, c))
}

pub open spec fn call_ambiguous_fn(defs: Seq<SymbolView>, refs: Seq<ImportRefView>) -> spec_fn(
    SymbolView,
) -> bool {
    |c: SymbolView| is_ambiguous(call_decision(defs, refs, c))
}

pub open spec fn render_edge_fn(defs: Seq<SymbolView>) -> spec_fn(SymbolView) -> Option<EdgeView> {
    |r: SymbolView| symbol_edge(r, "renders"@, render_decision(defs, r))
}

pub open spec fn render_link_fn(defs: Seq<SymbolView>) -> spec_fn(SymbolView) -> bool {
    |r: SymbolView| is_link(render_decision(defs, r))
}

pub open spec fn import_edge_fn(defs: Seq<SymbolView>) -> spec_fn(SymbolView) -> Option<EdgeView> {
    |i: SymbolView| symbol_edge(i, "imports"@, import_link_decision(defs, i))
}

pub open spec fn import_link_fn(defs: Seq<SymbolView>) -> spec_fn(SymbolView) -> bool {
    |i: SymbolView| is_link(import_link_decision(defs, i))
}

pub open spec fn route_edge_fn(defs: Seq<SymbolView>, routes: Seq<SymbolView>) -> spec_fn(
    RouteRefView,
) -> Option<EdgeView> {
    |rr: RouteRefView| route_edge(rr, route_decision(defs, routes, rr))
}

pub open spec fn route_link_fn(defs: Seq<SymbolView>, routes: Seq<SymbolView>) -> spec_fn(
    RouteRefView,
) -> bool {
    |rr: RouteRefView| is_link(route_decision(defs, routes, rr))
}

pub open spec fn route_ambiguous_fn(defs: Seq<SymbolView>, routes: Seq<SymbolView>) -> spec_fn(
    RouteRefView,
) -> bool {
    |rr: RouteRefView| is_ambiguous(route_decision(defs, routes, rr))
}

/// The `calls` edges, one per call that links, in the order of the calls.
pub open spec fn call_edges(
    defs: Seq<SymbolView>,
    refs: Seq<ImportRefView>,
    calls: Seq<SymbolView>,
) -> Seq<EdgeView> {
    gather(calls, call_edge_fn(defs, refs))
}

/// The `renders` edges, one per render that links.
pub open spec fn render_edges(defs: Seq<SymbolView>, renders: Seq<SymbolView>) -> Seq<EdgeView> {
    gather(renders, render_edge_fn(defs))
}

/// The `imports` edges, one per import that links.
pub open spec fn import_edges(defs: Seq<SymbolView>, imports: Seq<SymbolView>) -> Seq<EdgeView> {
    gather(imports, import_edge_fn(defs))
}

/// The `routes_to` edges, one per route reference that links.
pub open spec fn route_edges(
    defs: Seq<SymbolView>,
    routes: Seq<SymbolView>,
    rrs: Seq<RouteRefView>,
) -> Seq<EdgeView> {
    gather(rrs, route_edge_fn(defs, routes))
}

// ---------------------------------------------------------------------------
// Implementation
// ---------------------------------------------------------------------------
fn named_exec(defs: &Vec<Symbol>, name: &String) -> (r: Vec<Symbol>)
    ensures
        views(r@) == named(views(defs@), name@),
{
    let mut r: Vec<Symbol> = Vec::new();
    let mut i: usize = 0;
    while i < defs.len()
        invariant
            i <= defs.len(),
            views(r@) == named(views(defs@).take(i as int), name@),
        decreases defs.len() - i,
    {
        let ghost t = views(defs@).take(i + 1);
        assert(t.drop_last() =~= views(defs@).take(i as int));
        if defs[i].name == *name {
            r.push(defs[i].duplicate());
        }
        assert(views(r@) =~= named(t, name@));
        i = i + 1;
    }
    assert(views(defs@).take(defs.len() as int) =~= views(defs@));
    r
}

fn in_file_exec(cands: &Vec<Symbol>, file: &String) -> (r: Vec<Symbol>)
    ensures
        views(r@) == in_file(views(cands@), file@),
{
    let mut r: Vec<Symbol> = Vec::new();
    let mut i: usize = 0;
    while i < cands.len()
        invariant
            i <= cands.len(),
            views(r@) == in_file(views(cands@).take(i as int), file@),
        decreases cands.len() - i,
    {
        let ghost t = views(cands@).take(i + 1);
        assert(t.drop_last() =~= views(cands@).take(i as int));
        if cands[i].file == *file {
            r.push(cands[i].duplicate());
        }
        assert(views(r@) =~= in_file(t, file@));
        i = i + 1;
    }
    assert(views(cands@).take(cands.len() as int) =~= views(cands@));
    r
}

fn not_in_file_exec(cands: &Vec<Symbol>, file: &String) -> (r: Vec<Symbol>)
    ensures
        views(r@) == not_in_file(views(cands@), file@),
{
    let mut r: Vec<Symbol> = Vec::new();
    let mut i: usize = 0;
    while i < cands.len()
        invariant
            i <= cands.len(),
            views(r@) == not_in_file(views(cands@).take(i as int), file@),
        decreases cands.len() - i,
    {
        let ghost t = views(cands@).take(i + 1);
        assert(t.drop_last() =~= views(cands@).take(i as int));
        if !(cands[i].file == *file) {
            r.push(cands[i].duplicate());
        }
        assert(views(r@) =~= not_in_file(t, file@));
        i = i + 1;
    }
    assert(views(cands@).take(cands.len() as int) =~= views(cands@));
    r
}

fn contains_path(paths: &Vec<Vec<char>>, f: &[char]) -> (r: bool)
    ensures
        r == views(paths@).contains(f@),
{
    let mut i: usize = 0;
    while i < paths.len()
        invariant
            i <= paths.len(),
            forall|j: int| 0 <= j < i ==> paths@[j]@ != f@,
        decreases paths.len() - i,
    {
        if slice_eq(paths[i].as_slice(), f) {
            assert(views(paths@)[i as int] == f@);
            return true;
        }
        i = i + 1;
    }
    assert(!views(paths@).contains(f@)) by {
        if views(paths@).contains(f@) {
            let k = choose|k: int| 0 <= k < views(paths@).len() && views(paths@)[k] == f@;
            assert(paths@[k]@ == f@);
        }
    }
    false
}

fn in_files_exec(cands: &Vec<Symbol>, paths: &Vec<Vec<char>>) -> (r: Vec<Symbol>)
    ensures
        views(r@) == in_files(views(cands@), views(paths@)),
{
    let mut r: Vec<Symbol> = Vec::new();
    let mut i: usize = 0;
    while i < cands.len()
        invariant
            i <= cands.len(),
            views(r@) == in_files(views(cands@).take(i as int), views(paths@)),
        decreases cands.len() - i,
    {
        let ghost t = views(cands@).take(i + 1);
        assert(t.drop_last() =~= views(cands@).take(i as int));
        let f = chars_of(cands[i].file.as_str());
        if contains_path(paths, f.as_slice()) {
            r.push(cands[i].duplicate());
        }
        assert(views(r@) =~= in_files(t, views(paths@)));
        i = i + 1;
    }
    assert(views(cands@).take(cands.len() as int) =~= views(cands@));
    r
}

fn parent_parts_exec(file: &String) -> (r: Vec<Vec<char>>)
    ensures
        views(r@) == parent_parts(file@),
{
    let fc = chars_of(file.as_str());
    let mut cs = components_exec(fc.as_slice());
    if cs.len() > 0 {
        let _ = cs.pop();
    }
    proof {
        if components(file@).len() > 0 {
            assert(views(cs@) =~= components(file@).drop_last());
        }
    }
    cs
}

fn is_known_ext_exec(e: &[char]) -> (r: bool)
    ensures
        r == is_known_ext(e@),
{
    let ts = chars_of("ts");
    let tsx = chars_of("tsx");
    let js = chars_of("js");
    let jsx = chars_of("jsx");
    let py = chars_of("py");
    let go = chars_of("go");
    let rs = chars_of("rs");
    slice_eq(e, ts.as_slice()) || slice_eq(e, tsx.as_slice()) || slice_eq(e, js.as_slice())
        || slice_eq(e, jsx.as_slice()) || slice_eq(e, py.as_slice()) || slice_eq(e, go.as_slice())
        || slice_eq(e, rs.as_slice())
}

fn has_known_ext_exec(path: &[char]) -> (r: bool)
    ensures
        r == has_known_ext(path@),
{
    match extension_exec(path) {
        Some(e) => is_known_ext_exec(e.as_slice()),
        None => false,
    }
}

fn with_suffix(base: &[char], suffix: &str) -> (r: Vec<char>)
    ensures
        r@ == base@ + suffix@,
{
    let mut r = slice_of(base, 0, base.len());
    let s = chars_of(suffix);
    let mut i: usize = 0;
    while i < s.len()
        invariant
            i <= s.len(),
            r@ == base@ + s@.take(i as int),
        decreases s.len() - i,
    {
        r.push(s[i]);
        assert(s@.take(i + 1) =~= s@.take(i as int).push(s@[i as int]));
        i = i + 1;
    }
    assert(s@.take(s.len() as int) =~= s@);
    assert(base@.subrange(0, base@.len() as int) =~= base@);
    r
}

fn dedupe_exec(items: Vec<Vec<char>>) -> (r: Vec<Vec<char>>)
    ensures
        views(r@) == dedupe_seq(views(items@)),
{
    let mut r: Vec<Vec<char>> = Vec::new();
    let mut i: usize = 0;
    while i < items.len()
        invariant
            i <= items.len(),
            views(r@) == dedupe_seq(views(items@).take(i as int)),
        decreases items.len() - i,
    {
        let ghost t = views(items@).take(i + 1);
        assert(t.drop_last() =~= views(items@).take(i as int));
        assert(t.last() == items@[i as int]@);
        if !contains_path(&r, items[i].as_slice()) {
            let p = slice_of(items[i].as_slice(), 0, items[i].len());
            assert(p@ =~= items@[i as int]@);
            r.push(p);
        }
        assert(views(r@) =~= dedupe_seq(t));
        i = i + 1;
    }
    assert(views(items@).take(items.len() as int) =~= views(items@));
    r
}

/// The file paths a relative module specifier (`./x`, `../y`) may refer to,
/// seen from the directory with components `dir`. `None` for specifiers that
/// are not relative.
pub fn resolve_relative_module_paths(dir: &Vec<Vec<char>>, source_module: &String) -> (r: Option<
    Vec<Vec<char>>,
>)
    ensures
        r matches Some(v) ==> module_paths(views(dir@), source_module@) == Some(views(v@)),
        r is None ==> module_paths(views(dir@), source_module@) is None,
{
    let src = chars_of(source_module.as_str());
    let raw = trim_chars(src.as_slice());
    if raw.len() == 0 || raw[0] != '.' {
        return None;
    }
    let slash = vec!['/'];
    assert(slash@ =~= seq!['/']);
    let raw = replace_char_exec(raw.as_slice(), '\\', slash.as_slice());
    let raw_parts = components_exec(raw.as_slice());
    let all = concat_parts(dir, &raw_parts);
    let resolved = resolve_parents_exec(&all);
    let base = join_parts_exec(&resolved);
    let ghost b = base@;
    assert(module_base(views(dir@), source_module@) == Some(b)) by {
        assert(views(all@) =~= views(dir@) + components(replace_char(
            trim(source_module@),
            '\\',
            seq!['/'],
        )));
    }
    let mut candidates: Vec<Vec<char>> = Vec::new();
    candidates.push(slice_of(base.as_slice(), 0, base.len()));
    assert(base@.subrange(0, base@.len() as int) =~= base@);
    if has_known_ext_exec(base.as_slice()) {
        assert(views(candidates@) =~= module_candidates(b));
        return Some(dedupe_exec(candidates));
    }
    candidates.push(with_suffix(base.as_slice(), ".ts"));
    candidates.push(with_suffix(base.as_slice(), ".tsx"));
    candidates.push(with_suffix(base.as_slice(), ".js"));
    candidates.push(with_suffix(base.as_slice(), ".jsx"));
    candidates.push(with_suffix(base.as_slice(), ".py"));
    candidates.push(with_suffix(base.as_slice(), ".go"));
    candidates.push(with_suffix(base.as_slice(), ".rs"));
    candidates.push(with_suffix(base.as_slice(), "/index.ts"));
    candidates.push(with_suffix(base.as_slice(), "/index.tsx"));
    candidates.push(with_suffix(base.as_slice(), "/index.js"));
    candidates.push(with_suffix(base.as_slice(), "/index.jsx"));
    assert(views(candidates@) =~= module_candidates(b));
    Some(dedupe_exec(candidates))
}

fn imports_of_exec(refs: &Vec<ImportRef>, file: &String, name: &String) -> (r: Vec<ImportRef>)
    ensures
        views(r@) == imports_of(views(refs@), file@, name@),
{
    let mut r: Vec<ImportRef> = Vec::new();
    let mut i: usize = 0;
    while i < refs.len()
        invariant
            i <= refs.len(),
            views(r@) == imports_of(views(refs@).take(i as int), file@, name@),
        decreases refs.len() - i,
    {
        let ghost t = views(refs@).take(i + 1);
        assert(t.drop_last() =~= views(refs@).take(i as int));
        if refs[i].file == *file && refs[i].imported_name == *name {
            r.push(
                ImportRef {
                    file: refs[i].file.clone(),
                    imported_name: refs[i].imported_name.clone(),
                    source_module: refs[i].source_module.clone(),
                    line: refs[i].line,
                },
            );
        }
        assert(views(r@) =~= imports_of(t, file@, name@));
        i = i + 1;
    }
    assert(views(refs@).take(refs.len() as int) =~= views(refs@));
    r
}

/// Resolves a call through the imports of the calling file: a relative import
/// that resolves to exactly one candidate file wins; otherwise, when the name
/// is imported and exactly one candidate lives in another file, that one.
fn resolve_via_imports(
    refs: &Vec<ImportRef>,
    caller_file: &String,
    call_name: &String,
    candidates: &Vec<Symbol>,
) -> (r: Option<(i64, String, u32)>)
    ensures
        r matches Some((t, s, k)) ==> import_decision(
            views(refs@),
            views(candidates@),
            caller_file@,
            call_name@,
        ) == Some((t, s@, k)),
        r is None ==> import_decision(
            views(refs@),
            views(candidates@),
            caller_file@,
            call_name@,
        ) is None,
{
    let matching = imports_of_exec(refs, caller_file, call_name);
    if matching.len() == 0 {
        return None;
    }
    let dir = parent_parts_exec(caller_file);
    let ghost ms = views(matching@);
    let ghost cs = views(candidates@);
    let mut i: usize = 0;
    assert(ms.skip(0) =~= ms);
    while i < matching.len()
        invariant
            i <= matching.len(),
            ms == views(matching@),
            ms == imports_of(views(refs@), caller_file@, call_name@),
            ms.len() > 0,
            cs == views(candidates@),
            views(dir@) == parent_parts(caller_file@),
            first_path_match(ms, cs, views(dir@)) == first_path_match(
                ms.skip(i as int),
                cs,
                views(dir@),
            ),
        decreases matching.len() - i,
    {
        assert(ms.skip(i as int)[0] == matching@[i as int]@);
        assert(ms.skip(i as int).drop_first() =~= ms.skip(i + 1));
        match resolve_relative_module_paths(&dir, &matching[i].source_module) {
            Some(paths) => {
                let hits = in_files_exec(candidates, &paths);
                if hits.len() == 1 {
                    let mut reason = owned("import-based match via ");
                    push_str(&mut reason, matching[i].source_module.as_str());
                    assert(views(hits@)[0] == hits@[0]@);
                    assert(first_path_match(ms.skip(i as int), cs, views(dir@)) == Some(
                        (hits@[0]@.id, reason@, 88u32),
                    ));
                    return Some((hits[0].id, reason, 88));
                }
            },
            None => {},
        }
        i = i + 1;
    }
    assert(ms.skip(matching.len() as int).len() == 0);
    let other = not_in_file_exec(candidates, caller_file);
    if other.len() == 1 {
        let mut reason = owned("imported name match (source: ");
        push_str(&mut reason, matching[0].source_module.as_str());
        push_str(&mut reason, ")");
        assert(views(other@)[0] == other@[0]@);
        assert(ms[0] == matching@[0]@);
        return Some((other[0].id, reason, 75));
    }
    None
}

fn call_outcome(defs: &Vec<Symbol>, refs: &Vec<ImportRef>, c: &Symbol) -> (r: Outcome)
    ensures
        r@ == call_decision(views(defs@), views(refs@), c@),
{
    let cands = named_exec(defs, &c.name);
    if cands.len() == 0 {
        return Outcome::Skip;
    }
    let same = in_file_exec(&cands, &c.file);
    if same.len() == 1 {
        assert(views(same@)[0] == same@[0]@);
        return Outcome::Link(same[0].id, owned("same-file definition match"), 95);
    }
    match resolve_via_imports(refs, &c.file, &c.name, &cands) {
        Some((t, reason, k)) => Outcome::Link(t, reason, k),
        None => {
            if cands.len() == 1 {
                assert(views(cands@)[0] == cands@[0]@);
                Outcome::Link(cands[0].id, owned("unique global definition match"), 70)
            } else {
                Outcome::Ambiguous
            }
        },
    }
}

fn render_outcome(defs: &Vec<Symbol>, r: &Symbol) -> (o: Outcome)
    ensures
        o@ == render_decision(views(defs@), r@),
{
    let cands = named_exec(defs, &r.name);
    if cands.len() == 0 {
        return Outcome::Skip;
    }
    let same = in_file_exec(&cands, &r.file);
    if same.len() == 1 {
        assert(views(same@)[0] == same@[0]@);
        return Outcome::Link(same[0].id, owned("same-file JSX component render"), 97);
    }
    if cands.len() == 1 {
        assert(views(cands@)[0] == cands@[0]@);
        return Outcome::Link(cands[0].id, owned("unique JSX component match"), 90);
    }
    Outcome::Skip
}

fn import_outcome(defs: &Vec<Symbol>, i: &Symbol) -> (o: Outcome)
    ensures
        o@ == import_link_decision(views(defs@), i@),
{
    let cands = named_exec(defs, &i.name);
    let other = not_in_file_exec(&cands, &i.file);
    if other.len() == 1 {
        assert(views(other@)[0] == other@[0]@);
        return Outcome::Link(other[0].id, owned("import name match across files"), 99);
    }
    Outcome::Skip
}

fn route_file_exec(routes: &Vec<Symbol>, id: i64) -> (r: Option<String>)
    ensures
        r matches Some(f) ==> route_file_of(views(routes@), id) == Some(f@),
        r is None ==> route_file_of(views(routes@), id) is None,
{
    let mut k: usize = routes.len();
    assert(views(routes@).take(routes.len() as int) =~= views(routes@));
    while k > 0
        invariant
            k <= routes.len(),
            route_file_of(views(routes@), id) == route_file_of(views(routes@).take(k as int), id),
        decreases k,
    {
        let ghost t = views(routes@).take(k as int);
        assert(t.drop_last() =~= views(routes@).take(k - 1));
        assert(t.last() == routes@[k - 1]@);
        if routes[k - 1].id == id {
            return Some(routes[k - 1].file.clone());
        }
        k = k - 1;
    }
    None
}

fn handler_candidates_exec(defs: &Vec<Symbol>, handler: &String) -> (r: Vec<Symbol>)
    ensures
        views(r@) == handler_candidates(views(defs@), handler@),
{
    let direct = named_exec(defs, handler);
    if direct.len() > 0 {
        return direct;
    }
    let h = chars_of(handler.as_str());
    let at = vec!['@'];
    assert(at@ =~= seq!['@']);
    match find_exec(h.as_slice(), at.as_slice(), 0) {
        Some(i) => {
            proof {
                lemma_find_from_some(h@, seq!['@'], 0);
            }
            assert(i < h.len());
            let controller = string_of_chars(slice_of(h.as_slice(), 0, i).as_slice());
            let method = string_of_chars(slice_of(h.as_slice(), i + 1, h.len()).as_slice());
            let by_method = named_exec(defs, &method);
            if by_method.len() > 0 {
                by_method
            } else {
                named_exec(defs, &controller)
            }
        },
        None => {
            let empty: Vec<Symbol> = Vec::new();
            assert(views(empty@) =~= Seq::<SymbolView>::empty());
            empty
        },
    }
}

fn copy_chars(v: &Vec<char>) -> (r: Vec<char>)
    ensures
        r@ == v@,
{
    let r = slice_of(v.as_slice(), 0, v.len());
    assert(v@.subrange(0, v@.len() as int) =~= v@);
    r
}

fn string_of_chars(cs: &[char]) -> (r: String)
    ensures
        r@ == cs@,
{
    let mut r = String::new();
    push_chars(&mut r, cs);
    assert(r@ =~= cs@);
    r
}

fn route_outcome(defs: &Vec<Symbol>, routes: &Vec<Symbol>, rr: &RouteRef) -> (o: Outcome)
    ensures
        o@ == route_decision(views(defs@), views(routes@), rr@),
{
    let route_file = match route_file_exec(routes, rr.route_id) {
        Some(f) => f,
        None => return Outcome::Skip,
    };
    let cands = handler_candidates_exec(defs, &rr.handler_name);
    if cands.len() == 0 {
        return Outcome::Skip;
    }
    let same = in_file_exec(&cands, &route_file);
    if same.len() == 1 {
        assert(views(same@)[0] == same@[0]@);
        return Outcome::Link(same[0].id, owned("route handler match (same-file)"), 96);
    }
    if cands.len() == 1 {
        assert(views(cands@)[0] == cands@[0]@);
        return Outcome::Link(cands[0].id, owned("route handler match (unique global)"), 78);
    }
    Outcome::Ambiguous
}

fn make_edge(
    from_id: i64,
    to_id: i64,
    relation: &str,
    reason: String,
    origin_file: &String,
    origin_line: u32,
    confidence: u32,
) -> (e: Edge)
    ensures
        e@ == (EdgeView {
            from_id,
            to_id,
            relation: relation@,
            reason: reason@,
            origin_file: origin_file@,
            origin_line,
            confidence,
        }),
{
    Edge {
        from_id,
        to_id,
        relation: owned(relation),
        reason,
        origin_file: origin_file.clone(),
        origin_line,
        confidence,
    }
}

fn call_phase(input: &ResolveInput) -> (r: (Vec<Edge>, usize, usize))
    ensures
        views(r.0@) == call_edges(
            views(input.definitions@),
            views(input.import_refs@),
            views(input.calls@),
        ),
        r.1 == count(
            views(input.calls@),
            call_link_fn(views(input.definitions@), views(input.import_refs@)),
        ),
        r.2 == count(
            views(input.calls@),
            call_ambiguous_fn(views(input.definitions@), views(input.import_refs@)),
        ),
{
    let ghost defs = views(input.definitions@);
    let ghost refs = views(input.import_refs@);
    let mut edges: Vec<Edge> = Vec::new();
    let mut resolved: usize = 0;
    let mut ambiguous: usize = 0;
    let calls = &input.calls;
    let mut i: usize = 0;
    while i < calls.len()
        invariant
            i <= calls.len(),
            defs == views(input.definitions@),
            refs == views(input.import_refs@),
            calls == &input.calls,
            views(edges@) == gather(views(calls@).take(i as int), call_edge_fn(defs, refs)),
            resolved == count(views(calls@).take(i as int), call_link_fn(defs, refs)),
            ambiguous == count(views(calls@).take(i as int), call_ambiguous_fn(defs, refs)),
        decreases calls.len() - i,
    {
        let ghost t = views(calls@).take(i + 1);
        assert(t.drop_last() =~= views(calls@).take(i as int));
        assert(t.last() == calls@[i as int]@);
        proof {
            lemma_count_le(views(calls@).take(i as int), call_link_fn(defs, refs));
            lemma_count_le(views(calls@).take(i as int), call_ambiguous_fn(defs, refs));
        }
        let c = &calls[i];
        let o = call_outcome(&input.definitions, &input.import_refs, c);
        match o {
            Outcome::Link(target, reason, k) => {
                edges.push(make_edge(c.id, target, "calls", reason, &c.file, c.line, k));
                resolved = resolved + 1;
            },
            Outcome::Ambiguous => {
                ambiguous = ambiguous + 1;
            },
            Outcome::Skip => {},
        }
        assert(views(edges@) =~= gather(t, call_edge_fn(defs, refs)));
        i = i + 1;
    }
    assert(views(calls@).take(calls.len() as int) =~= views(calls@));
    (edges, resolved, ambiguous)
}

fn render_phase(input: &ResolveInput) -> (r: (Vec<Edge>, usize))
    ensures
        views(r.0@) == render_edges(views(input.definitions@), views(input.renders@)),
        r.1 == count(views(input.renders@), render_link_fn(views(input.definitions@))),
{
    let ghost defs = views(input.definitions@);
    let mut edges: Vec<Edge> = Vec::new();
    let mut linked: usize = 0;
    let renders = &input.renders;
    let mut i: usize = 0;
    while i < renders.len()
        invariant
            i <= renders.len(),
            defs == views(input.definitions@),
            renders == &input.renders,
            views(edges@) == gather(views(renders@).take(i as int), render_edge_fn(defs)),
            linked == count(views(renders@).take(i as int), render_link_fn(defs)),
        decreases renders.len() - i,
    {
        let ghost t = views(renders@).take(i + 1);
        assert(t.drop_last() =~= views(renders@).take(i as int));
        assert(t.last() == renders@[i as int]@);
        proof {
            lemma_count_le(views(renders@).take(i as int), render_link_fn(defs));
        }
        let r = &renders[i];
        match render_outcome(&input.definitions, r) {
            Outcome::Link(target, reason, k) => {
                edges.push(make_edge(r.id, target, "renders", reason, &r.file, r.line, k));
                linked = linked + 1;
            },
            _ => {},
        }
        assert(views(edges@) =~= gather(t, render_edge_fn(defs)));
        i = i + 1;
    }
    assert(views(renders@).take(renders.len() as int) =~= views(renders@));
    (edges, linked)
}

fn import_phase(input: &ResolveInput) -> (r: (Vec<Edge>, usize))
    ensures
        views(r.0@) == import_edges(views(input.definitions@), views(input.imports@)),
        r.1 == count(views(input.imports@), import_link_fn(views(input.definitions@))),
{
    let ghost defs = views(input.definitions@);
    let mut edges: Vec<Edge> = Vec::new();
    let mut linked: usize = 0;
    let imports = &input.imports;
    let mut i: usize = 0;
    while i < imports.len()
        invariant
            i <= imports.len(),
            defs == views(input.definitions@),
            imports == &input.imports,
            views(edges@) == gather(views(imports@).take(i as int), import_edge_fn(defs)),
            linked == count(views(imports@).take(i as int), import_link_fn(defs)),
        decreases imports.len() - i,
    {
        let ghost t = views(imports@).take(i + 1);
        assert(t.drop_last() =~= views(imports@).take(i as int));
        assert(t.last() == imports@[i as int]@);
        proof {
            lemma_count_le(views(imports@).take(i as int), import_link_fn(defs));
        }
        let s = &imports[i];
        match import_outcome(&input.definitions, s) {
            Outcome::Link(target, reason, k) => {
                edges.push(make_edge(s.id, target, "imports", reason, &s.file, s.line, k));
                linked = linked + 1;
            },
            _ => {},
        }
        assert(views(edges@) =~= gather(t, import_edge_fn(defs)));
        i = i + 1;
    }
    assert(views(imports@).take(imports.len() as int) =~= views(imports@));
    (edges, linked)
}

fn route_phase(input: &ResolveInput) -> (r: (Vec<Edge>, usize, usize))
    ensures
        views(r.0@) == route_edges(
            views(input.definitions@),
            views(input.routes@),
            views(input.route_refs@),
        ),
        r.1 == count(
            views(input.route_refs@),
            route_link_fn(views(input.definitions@), views(input.routes@)),
        ),
        r.2 == count(
            views(input.route_refs@),
            route_ambiguous_fn(views(input.definitions@), views(input.routes@)),
        ),
{
    let ghost defs = views(input.definitions@);
    let ghost routes = views(input.routes@);
    let mut edges: Vec<Edge> = Vec::new();
    let mut linked: usize = 0;
    let mut ambiguous: usize = 0;
    let rrs = &input.route_refs;
    let mut i: usize = 0;
    while i < rrs.len()
        invariant
            i <= rrs.len(),
            defs == views(input.definitions@),
            routes == views(input.routes@),
            rrs == &input.route_refs,
            views(edges@) == gather(views(rrs@).take(i as int), route_edge_fn(defs, routes)),
            linked == count(views(rrs@).take(i as int), route_link_fn(defs, routes)),
            ambiguous == count(views(rrs@).take(i as int), route_ambiguous_fn(defs, routes)),
        decreases rrs.len() - i,
    {
        let ghost t = views(rrs@).take(i + 1);
        assert(t.drop_last() =~= views(rrs@).take(i as int));
        assert(t.last() == rrs@[i as int]@);
        proof {
            lemma_count_le(views(rrs@).take(i as int), route_link_fn(defs, routes));
            lemma_count_le(views(rrs@).take(i as int), route_ambiguous_fn(defs, routes));
        }
        let rr = &rrs[i];
        match route_outcome(&input.definitions, &input.routes, rr) {
            Outcome::Link(target, reason, k) => {
                edges.push(
                    make_edge(
                        rr.route_id,
                        target,
                        "routes_to",
                        reason,
                        &rr.origin_file,
                        rr.origin_line,
                        k,
                    ),
                );
                linked = linked + 1;
            },
            Outcome::Ambiguous => {
                ambiguous = ambiguous + 1;
            },
            Outcome::Skip => {},
        }
        assert(views(edges@) =~= gather(t, route_edge_fn(defs, routes)));
        i = i + 1;
    }
    assert(views(rrs@).take(rrs.len() as int) =~= views(rrs@));
    (edges, linked, ambiguous)
}

/// Plans the edges of the index from its symbols and references.
///
/// Calls link to a same-file definition, then through the imports of the
/// calling file, then to a unique definition anywhere; renders link to a
/// same-file or unique component; imports link to the unique definition in
/// another file; routes link to their handler. Ambiguous calls and routes
/// are counted and skipped.
pub fn resolve(input: &ResolveInput) -> (res: Resolution)
    requires
        input.calls.len() + input.route_refs.len() <= usize::MAX,
    ensures
        views(res.edges@) == call_edges(
            views(input.definitions@),
            views(input.import_refs@),
            views(input.calls@),
        ) + render_edges(views(input.definitions@), views(input.renders@)) + import_edges(
            views(input.definitions@),
            views(input.imports@),
        ) + route_edges(views(input.definitions@), views(input.routes@), views(input.route_refs@)),
        res.stats.resolved == count(
            views(input.calls@),
            call_link_fn(views(input.definitions@), views(input.import_refs@)),
        ),
        res.stats.ambiguous == count(
            views(input.calls@),
            call_ambiguous_fn(views(input.definitions@), views(input.import_refs@)),
        ) + count(
            views(input.route_refs@),
            route_ambiguous_fn(views(input.definitions@), views(input.routes@)),
        ),
        res.stats.renders == count(views(input.renders@), render_link_fn(views(input.definitions@))),
        res.stats.imports == count(views(input.imports@), import_link_fn(views(input.definitions@))),
        res.stats.routes == count(
            views(input.route_refs@),
            route_link_fn(views(input.definitions@), views(input.routes@)),
        ),
{
    let (mut edges, resolved, call_ambiguous) = call_phase(input);
    let (mut render_es, renders) = render_phase(input);
    let (mut import_es, imports) = import_phase(input);
    let (mut route_es, routes, route_ambiguous) = route_phase(input);
    proof {
        lemma_count_le(
            views(input.calls@),
            call_ambiguous_fn(views(input.definitions@), views(input.import_refs@)),
        );
        lemma_count_le(
            views(input.route_refs@),
            route_ambiguous_fn(views(input.definitions@), views(input.routes@)),
        );
    }
    let ghost e1 = edges@;
    let ghost e2 = render_es@;
    let ghost e3 = import_es@;
    let ghost e4 = route_es@;
    edges.append(&mut render_es);
    edges.append(&mut import_es);
    edges.append(&mut route_es);
    proof {
        assert(edges@ == e1 + e2 + e3 + e4);
        lemma_views_add(e1, e2);
        lemma_views_add(e1 + e2, e3);
        lemma_views_add(e1 + e2 + e3, e4);
    }
    Resolution {
        edges,
        stats: ResolveStats {
            resolved,
            ambiguous: call_ambiguous + route_ambiguous,
            imports,
            renders,
            routes,
        },
    }
}

// ---------------------------------------------------------------------------
// Laws
// ---------------------------------------------------------------------------
/// Some definition has this id and this name.
pub open spec fn has_def(defs: Seq<SymbolView>, id: i64, name: Seq<char>) -> bool {
    exists|i: int| 0 <= i < defs.len() && defs[i].id == id && defs[i].name == name
}

proof fn lemma_member_of_subset(cands: Seq<SymbolView>, p: spec_fn(SymbolView) -> bool, k: int)
    requires
        0 <= k < select(cands, p).len(),
    ensures
        cands.contains(select(cands, p)[k]),
{
    lemma_select_member(cands, p, k);
}

proof fn lemma_named_member(defs: Seq<SymbolView>, name: Seq<char>, x: SymbolView)
    requires
        named(defs, name).contains(x),
    ensures
        has_def(defs, x.id, name),
{
    let k = choose|k: int| 0 <= k < named(defs, name).len() && named(defs, name)[k] == x;
    lemma_select_member(defs, |d: SymbolView| d.name == name, k);
    let j = choose|j: int| 0 <= j < defs.len() && defs[j] == x;
    assert(defs[j].id == x.id && defs[j].name == name);
}

proof fn lemma_first_path_match_member(ms: Seq<ImportRefView>, cands: Seq<SymbolView>, dir: Seq<Seq<char>>)
    ensures
        first_path_match(ms, cands, dir) matches Some((t, _, _)) ==> exists|i: int|
            0 <= i < cands.len() && cands[i].id == t,
    decreases ms.len(),
{
    if ms.len() > 0 {
        match module_paths(dir, ms[0].source_module) {
            Some(paths) => {
                if in_files(cands, paths).len() == 1 {
                    let x = in_files(cands, paths)[0];
                    lemma_member_of_subset(cands, |d: SymbolView| paths.contains(d.file), 0);
                    assert(cands.contains(x));
                    let i = choose|i: int| 0 <= i < cands.len() && cands[i] == x;
                    assert(cands[i].id == x.id);
                } else {
                    lemma_first_path_match_member(ms.drop_first(), cands, dir);
                }
            },
            None => {
                lemma_first_path_match_member(ms.drop_first(), cands, dir);
            },
        }
    }
}

/// Resolution is by name: a call is linked, if at all, to a definition that
/// bears the called name; so is a render to one with the rendered name.
pub proof fn lemma_links_target_named_definitions(
    defs: Seq<SymbolView>,
    refs: Seq<ImportRefView>,
    c: SymbolView,
)
    ensures
        call_decision(defs, refs, c) matches Decision::Link(t, _, _) ==> has_def(defs, t, c.name),
        render_decision(defs, c) matches Decision::Link(t, _, _) ==> has_def(defs, t, c.name),
{
    let cands = named(defs, c.name);
    if cands.len() > 0 {
        let f = in_file(cands, c.file);
        if f.len() == 1 {
            lemma_member_of_subset(cands, |d: SymbolView| d.file == c.file, 0);
            lemma_named_member(defs, c.name, f[0]);
        }
        assert(cands.contains(cands[0]));
        lemma_named_member(defs, c.name, cands[0]);
        let ms = imports_of(refs, c.file, c.name);
        if ms.len() > 0 {
            lemma_first_path_match_member(ms, cands, parent_parts(c.file));
            match first_path_match(ms, cands, parent_parts(c.file)) {
                Some((t, _, _)) => {
                    let i = choose|i: int| 0 <= i < cands.len() && cands[i].id == t;
                    assert(cands.contains(cands[i]));
                    lemma_named_member(defs, c.name, cands[i]);
                },
                None => {
                    let o = not_in_file(cands, c.file);
                    if o.len() == 1 {
                        lemma_member_of_subset(cands, |d: SymbolView| d.file != c.file, 0);
                        lemma_named_member(defs, c.name, o[0]);
                    }
                },
            }
        }
    }
}

/// Conservative on purpose: a call whose candidates leave the choice open
/// gets no edge, and is counted as ambiguous.
pub proof fn lemma_ambiguous_calls_unlinked(defs: Seq<SymbolView>, refs: Seq<ImportRefView>, c: SymbolView)
    ensures
        is_ambiguous(call_decision(defs, refs, c)) ==> (call_edge_fn(defs, refs))(c) is None && !(call_link_fn(
            defs,
            refs,
        ))(c),
{
}


/// Same-file definitions come first: a call whose name has exactly one
/// definition in the caller's own file is linked to it, as a `calls` edge
/// with reason `same-file definition match` and confidence 95, whatever other
/// files define that name; it counts as resolved, not as ambiguous.
pub proof fn lemma_same_file_call_linked(
    defs: Seq<SymbolView>,
    refs: Seq<ImportRefView>,
    calls: Seq<SymbolView>,
    i: int,
    j: int,
)
    requires
        0 <= i < calls.len(),
        0 <= j < defs.len(),
        defs[j].name == calls[i].name,
        defs[j].file == calls[i].file,
        forall|k: int|
            0 <= k < defs.len() && k != j && #[trigger] defs[k].name == calls[i].name ==> defs[k].file
                != calls[i].file,
    ensures
        call_edges(defs, refs, calls).contains(
            EdgeView {
                from_id: calls[i].id,
                to_id: defs[j].id,
                relation: "calls"@,
                reason: "same-file definition match"@,
                origin_file: calls[i].file,
                origin_line: calls[i].line,
                confidence: 95,
            },
        ),
        (call_link_fn(defs, refs))(calls[i]),
        !(call_ambiguous_fn(defs, refs))(calls[i]),
{
    let c = calls[i];
    let pn = |d: SymbolView| d.name == c.name;
    let pf = |d: SymbolView| d.file == c.file;
    lemma_select_select(defs, pn, pf);
    lemma_select_single(defs, |x: SymbolView| pn(x) && pf(x), j);
    assert(in_file(named(defs, c.name), c.file) =~= seq![defs[j]]);
    assert(named(defs, c.name).len() > 0) by {
        lemma_select_len(named(defs, c.name), pf);
    }
    lemma_gather_contains(calls, call_edge_fn(defs, refs), i);
}

} // verus!
