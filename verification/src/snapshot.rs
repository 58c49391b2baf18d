//! Portable snapshots of the index and structural diffs between them.
use vstd::prelude::*;

use crate::intel::classify::{normalized, normalized_chars};
use crate::models::{Edge, EdgeView, ImportRef, ImportRefView, Symbol, SymbolView};
use crate::order::{
    Ordered, insert_sorted_unique, lemma_push_to_set, lemma_sorted_same_set, sorted_difference,
    strictly_sorted, views,
};
use crate::text::{lemma_seq_lt_facts, push_str, seq_lt, str_lt, string_of};

verus! {

/// The format version written into snapshots and diffs.
pub const SNAPSHOT_VERSION: u32 = 1;

/// A symbol as recorded in a snapshot (without its index id).
#[derive(Debug, Clone, PartialEq, Eq)]
pub struct SnapshotSymbol {
    pub name: String,
    pub kind: String,
    pub file: String,
    pub line: u32,
    pub col: u32,
}

/// An edge as recorded in a snapshot, with both ends spelled out and the
/// confidence as a percentage.
#[derive(Debug, Clone, PartialEq, Eq)]
pub struct SnapshotEdge {
    pub from: SnapshotSymbol,
    pub to: SnapshotSymbol,
    pub relation: String,
    pub reason: String,
    pub origin_file: String,
    pub origin_line: u32,
    pub confidence: u32,
}

/// An import statement as recorded in a snapshot.
#[derive(Debug, Clone, PartialEq, Eq)]
pub struct SnapshotImportRef {
    pub file: String,
    pub imported_name: String,
    pub source_module: String,
    pub line: u32,
}

/// The structure of an index at one moment.
#[derive(Debug, Clone)]
pub struct Snapshot {
    pub version: u32,
    pub created_at: u64,
    pub repo_root: Option<String>,
    pub symbols: Vec<SnapshotSymbol>,
    pub edges: Vec<SnapshotEdge>,
    pub import_refs: Vec<SnapshotImportRef>,
}

/// What was added and removed between two snapshots.
#[derive(Debug, Clone)]
pub struct SnapshotDiff {
    pub version: u32,
    pub from: String,
    pub to: String,
    pub added_symbols: Vec<SnapshotSymbol>,
    pub removed_symbols: Vec<SnapshotSymbol>,
    pub added_edges: Vec<SnapshotEdge>,
    pub removed_edges: Vec<SnapshotEdge>,
    pub added_imports: Vec<SnapshotImportRef>,
    pub removed_imports: Vec<SnapshotImportRef>,
}

pub struct SnapSymbolView {
    pub name: Seq<char>,
    pub kind: Seq<char>,
    pub file: Seq<char>,
    pub line: u32,
    pub col: u32,
}

pub struct SnapEdgeView {
    pub from: SnapSymbolView,
    pub to: SnapSymbolView,
    pub relation: Seq<char>,
    pub reason: Seq<char>,
    pub origin_file: Seq<char>,
    pub origin_line: u32,
    pub confidence: u32,
}

pub struct SnapImportView {
    pub file: Seq<char>,
    pub imported_name: Seq<char>,
    pub source_module: Seq<char>,
    pub line: u32,
}

impl View for SnapshotSymbol {
    type V = SnapSymbolView;

    open spec fn view(&self) -> SnapSymbolView {
        SnapSymbolView {
            name: self.name@,
            kind: self.kind@,
            file: self.file@,
            line: self.line,
            col: self.col,
        }
    }
}

impl View for SnapshotEdge {
    type V = SnapEdgeView;

    open spec fn view(&self) -> SnapEdgeView {
        SnapEdgeView {
            from: self.from@,
            to: self.to@,
            relation: self.relation@,
            reason: self.reason@,
            origin_file: self.origin_file@,
            origin_line: self.origin_line,
            confidence: self.confidence,
        }
    }
}

impl View for SnapshotImportRef {
    type V = SnapImportView;

    open spec fn view(&self) -> SnapImportView {
        SnapImportView {
            file: self.file@,
            imported_name: self.imported_name@,
            source_module: self.source_module@,
            line: self.line,
        }
    }
}

// ---------------------------------------------------------------------------
// Orders: lexicographic over the fields, in declaration order
// ---------------------------------------------------------------------------
pub open spec fn symbol_lt(a: SnapSymbolView, b: SnapSymbolView) -> bool {
    ||| seq_lt(a.name, b.name)
    ||| a.name == b.name && seq_lt(a.kind, b.kind)
    ||| a.name == b.name && a.kind == b.kind && seq_lt(a.file, b.file)
    ||| a.name == b.name && a.kind == b.kind && a.file == b.file && a.line < b.line
    ||| a.name == b.name && a.kind == b.kind && a.file == b.file && a.line == b.line && a.col
        < b.col
}

pub open spec fn edge_lt(a: SnapEdgeView, b: SnapEdgeView) -> bool {
    ||| symbol_lt(a.from, b.from)
    ||| a.from == b.from && symbol_lt(a.to, b.to)
    ||| a.from == b.from && a.to == b.to && seq_lt(a.relation, b.relation)
    ||| a.from == b.from && a.to == b.to && a.relation == b.relation && seq_lt(a.reason, b.reason)
    ||| a.from == b.from && a.to == b.to && a.relation == b.relation && a.reason == b.reason
        && seq_lt(a.origin_file, b.origin_file)
    ||| a.from == b.from && a.to == b.to && a.relation == b.relation && a.reason == b.reason
        && a.origin_file == b.origin_file && a.origin_line < b.origin_line
    ||| a.from == b.from && a.to == b.to && a.relation == b.relation && a.reason == b.reason
        && a.origin_file == b.origin_file && a.origin_line == b.origin_line && a.confidence
        < b.confidence
}

pub open spec fn import_lt(a: SnapImportView, b: SnapImportView) -> bool {
    ||| seq_lt(a.file, b.file)
    ||| a.file == b.file && seq_lt(a.imported_name, b.imported_name)
    ||| a.file == b.file && a.imported_name == b.imported_name && seq_lt(
        a.source_module,
        b.source_module,
    )
    ||| a.file == b.file && a.imported_name == b.imported_name && a.source_module
        == b.source_module && a.line < b.line
}

proof fn lemma_symbol_lt(a: SnapSymbolView, b: SnapSymbolView, c: SnapSymbolView)
    ensures
        !symbol_lt(a, a),
        symbol_lt(a, b) && symbol_lt(b, c) ==> symbol_lt(a, c),
        symbol_lt(a, b) ==> !symbol_lt(b, a),
        a != b ==> symbol_lt(a, b) || symbol_lt(b, a),
{
    lemma_seq_lt_facts(a.name, b.name, c.name);
    lemma_seq_lt_facts(a.kind, b.kind, c.kind);
    lemma_seq_lt_facts(a.file, b.file, c.file);
    lemma_seq_lt_facts(b.name, a.name, c.name);
    lemma_seq_lt_facts(b.kind, a.kind, c.kind);
    lemma_seq_lt_facts(b.file, a.file, c.file);
}

proof fn lemma_edge_lt(a: SnapEdgeView, b: SnapEdgeView, c: SnapEdgeView)
    ensures
        !edge_lt(a, a),
        edge_lt(a, b) && edge_lt(b, c) ==> edge_lt(a, c),
        edge_lt(a, b) ==> !edge_lt(b, a),
        a != b ==> edge_lt(a, b) || edge_lt(b, a),
{
    lemma_symbol_lt(a.from, b.from, c.from);
    lemma_symbol_lt(b.from, a.from, c.from);
    lemma_symbol_lt(a.to, b.to, c.to);
    lemma_symbol_lt(b.to, a.to, c.to);
    lemma_seq_lt_facts(a.relation, b.relation, c.relation);
    lemma_seq_lt_facts(b.relation, a.relation, c.relation);
    lemma_seq_lt_facts(a.reason, b.reason, c.reason);
    lemma_seq_lt_facts(b.reason, a.reason, c.reason);
    lemma_seq_lt_facts(a.origin_file, b.origin_file, c.origin_file);
    lemma_seq_lt_facts(b.origin_file, a.origin_file, c.origin_file);
}

proof fn lemma_import_lt(a: SnapImportView, b: SnapImportView, c: SnapImportView)
    ensures
        !import_lt(a, a),
        import_lt(a, b) && import_lt(b, c) ==> import_lt(a, c),
        import_lt(a, b) ==> !import_lt(b, a),
        a != b ==> import_lt(a, b) || import_lt(b, a),
{
    lemma_seq_lt_facts(a.file, b.file, c.file);
    lemma_seq_lt_facts(b.file, a.file, c.file);
    lemma_seq_lt_facts(a.imported_name, b.imported_name, c.imported_name);
    lemma_seq_lt_facts(b.imported_name, a.imported_name, c.imported_name);
    lemma_seq_lt_facts(a.source_module, b.source_module, c.source_module);
    lemma_seq_lt_facts(b.source_module, a.source_module, c.source_module);
}

fn symbol_less(a: &SnapshotSymbol, b: &SnapshotSymbol) -> (r: bool)
    ensures
        r == symbol_lt(a@, b@),
{
    if str_lt(a.name.as_str(), b.name.as_str()) {
        return true;
    }
    if a.name != b.name {
        return false;
    }
    if str_lt(a.kind.as_str(), b.kind.as_str()) {
        return true;
    }
    if a.kind != b.kind {
        return false;
    }
    if str_lt(a.file.as_str(), b.file.as_str()) {
        return true;
    }
    if a.file != b.file {
        return false;
    }
    a.line < b.line || (a.line == b.line && a.col < b.col)
}

fn symbol_copy(a: &SnapshotSymbol) -> (r: SnapshotSymbol)
    ensures
        r@ == a@,
{
    SnapshotSymbol {
        name: a.name.clone(),
        kind: a.kind.clone(),
        file: a.file.clone(),
        line: a.line,
        col: a.col,
    }
}

impl Ordered for SnapshotSymbol {
    open spec fn view_lt(a: SnapSymbolView, b: SnapSymbolView) -> bool {
        symbol_lt(a, b)
    }

    proof fn lemma_irreflexive(a: SnapSymbolView) {
        lemma_symbol_lt(a, a, a);
    }

    proof fn lemma_transitive(a: SnapSymbolView, b: SnapSymbolView, c: SnapSymbolView) {
        lemma_symbol_lt(a, b, c);
    }

    proof fn lemma_total(a: SnapSymbolView, b: SnapSymbolView) {
        lemma_symbol_lt(a, b, b);
    }

    fn less(&self, other: &Self) -> (r: bool) {
        symbol_less(self, other)
    }

    fn duplicate(&self) -> (r: Self) {
        symbol_copy(self)
    }
}

impl Ordered for SnapshotEdge {
    open spec fn view_lt(a: SnapEdgeView, b: SnapEdgeView) -> bool {
        edge_lt(a, b)
    }

    proof fn lemma_irreflexive(a: SnapEdgeView) {
        lemma_edge_lt(a, a, a);
    }

    proof fn lemma_transitive(a: SnapEdgeView, b: SnapEdgeView, c: SnapEdgeView) {
        lemma_edge_lt(a, b, c);
    }

    proof fn lemma_total(a: SnapEdgeView, b: SnapEdgeView) {
        lemma_edge_lt(a, b, b);
    }

    fn less(&self, other: &Self) -> (r: bool) {
        if symbol_less(&self.from, &other.from) {
            return true;
        }
        if symbol_less(&other.from, &self.from) {
            return false;
        }
        proof {
            lemma_symbol_lt(self.from@, other.from@, other.from@);
        }
        if symbol_less(&self.to, &other.to) {
            return true;
        }
        if symbol_less(&other.to, &self.to) {
            return false;
        }
        proof {
            lemma_symbol_lt(self.to@, other.to@, other.to@);
        }
        if str_lt(self.relation.as_str(), other.relation.as_str()) {
            return true;
        }
        if self.relation != other.relation {
            return false;
        }
        if str_lt(self.reason.as_str(), other.reason.as_str()) {
            return true;
        }
        if self.reason != other.reason {
            return false;
        }
        if str_lt(self.origin_file.as_str(), other.origin_file.as_str()) {
            return true;
        }
        if self.origin_file != other.origin_file {
            return false;
        }
        self.origin_line < other.origin_line || (self.origin_line == other.origin_line
            && self.confidence < other.confidence)
    }

    fn duplicate(&self) -> (r: Self) {
        SnapshotEdge {
            from: symbol_copy(&self.from),
            to: symbol_copy(&self.to),
            relation: self.relation.clone(),
            reason: self.reason.clone(),
            origin_file: self.origin_file.clone(),
            origin_line: self.origin_line,
            confidence: self.confidence,
        }
    }
}

impl Ordered for SnapshotImportRef {
    open spec fn view_lt(a: SnapImportView, b: SnapImportView) -> bool {
        import_lt(a, b)
    }

    proof fn lemma_irreflexive(a: SnapImportView) {
        lemma_import_lt(a, a, a);
    }

    proof fn lemma_transitive(a: SnapImportView, b: SnapImportView, c: SnapImportView) {
        lemma_import_lt(a, b, c);
    }

    proof fn lemma_total(a: SnapImportView, b: SnapImportView) {
        lemma_import_lt(a, b, b);
    }

    fn less(&self, other: &Self) -> (r: bool) {
        if str_lt(self.file.as_str(), other.file.as_str()) {
            return true;
        }
        if self.file != other.file {
            return false;
        }
        if str_lt(self.imported_name.as_str(), other.imported_name.as_str()) {
            return true;
        }
        if self.imported_name != other.imported_name {
            return false;
        }
        if str_lt(self.source_module.as_str(), other.source_module.as_str()) {
            return true;
        }
        if self.source_module != other.source_module {
            return false;
        }
        self.line < other.line
    }

    fn duplicate(&self) -> (r: Self) {
        SnapshotImportRef {
            file: self.file.clone(),
            imported_name: self.imported_name.clone(),
            source_module: self.source_module.clone(),
            line: self.line,
        }
    }
}

/// What a diff from `from` to `to` holds: the symbols, edges and imports
/// that only `to` has, and those that only `from` has, each sorted and
/// without repeats.
pub open spec fn diff_of(d: SnapshotDiff, from: Snapshot, to: Snapshot) -> bool {
    &&& strictly_sorted::<SnapshotSymbol>(views(d.added_symbols@))
    &&& strictly_sorted::<SnapshotSymbol>(views(d.removed_symbols@))
    &&& strictly_sorted::<SnapshotEdge>(views(d.added_edges@))
    &&& strictly_sorted::<SnapshotEdge>(views(d.removed_edges@))
    &&& strictly_sorted::<SnapshotImportRef>(views(d.added_imports@))
    &&& strictly_sorted::<SnapshotImportRef>(views(d.removed_imports@))
    &&& views(d.added_symbols@).to_set() == views(to.symbols@).to_set().difference(
        views(from.symbols@).to_set(),
    )
    &&& views(d.removed_symbols@).to_set() == views(from.symbols@).to_set().difference(
        views(to.symbols@).to_set(),
    )
    &&& views(d.added_edges@).to_set() == views(to.edges@).to_set().difference(
        views(from.edges@).to_set(),
    )
    &&& views(d.removed_edges@).to_set() == views(from.edges@).to_set().difference(
        views(to.edges@).to_set(),
    )
    &&& views(d.added_imports@).to_set() == views(to.import_refs@).to_set().difference(
        views(from.import_refs@).to_set(),
    )
    &&& views(d.removed_imports@).to_set() == views(from.import_refs@).to_set().difference(
        views(to.import_refs@).to_set(),
    )
}

// ---------------------------------------------------------------------------
// Diffs
// ---------------------------------------------------------------------------
/// `to` minus `from` and `from` minus `to`, for symbols, edges and imports,
/// each strictly sorted.
pub fn diff_snapshots(from: &Snapshot, to: &Snapshot, from_label: &str, to_label: &str) -> (d:
    SnapshotDiff)
    ensures
        d.version == SNAPSHOT_VERSION,
        d.from@ == from_label@,
        d.to@ == to_label@,
        diff_of(d, *from, *to),
{
    let mut fl = String::new();
    push_str(&mut fl, from_label);
    let mut tl = String::new();
    push_str(&mut tl, to_label);
    assert(fl@ =~= from_label@);
    assert(tl@ =~= to_label@);
    SnapshotDiff {
        version: SNAPSHOT_VERSION,
        from: fl,
        to: tl,
        added_symbols: sorted_difference(&to.symbols, &from.symbols),
        removed_symbols: sorted_difference(&from.symbols, &to.symbols),
        added_edges: sorted_difference(&to.edges, &from.edges),
        removed_edges: sorted_difference(&from.edges, &to.edges),
        added_imports: sorted_difference(&to.import_refs, &from.import_refs),
        removed_imports: sorted_difference(&from.import_refs, &to.import_refs),
    }
}

/// `link_dir/snapshot.json` (`Path::join`).
pub fn default_snapshot_path(link_dir: &str) -> (r: String)
    ensures
        r@ == (if link_dir@.len() == 0 {
            "snapshot.json"@
        } else if link_dir@.last() == '/' {
            link_dir@ + "snapshot.json"@
        } else {
            link_dir@ + "/"@ + "snapshot.json"@
        }),
{
    let mut r = String::new();
    let d = crate::text::chars_of(link_dir);
    push_str(&mut r, link_dir);
    if d.len() > 0 && d[d.len() - 1] != '/' {
        push_str(&mut r, "/");
    }
    push_str(&mut r, "snapshot.json");
    proof {
        if link_dir@.len() == 0 {
            assert(r@ =~= "snapshot.json"@);
        } else if link_dir@.last() == '/' {
            assert(r@ =~= link_dir@ + "snapshot.json"@);
        } else {
            assert(r@ =~= link_dir@ + "/"@ + "snapshot.json"@);
        }
    }
    r
}

// ---------------------------------------------------------------------------
// Building a snapshot
// ---------------------------------------------------------------------------
pub open spec fn snap_symbol(s: SymbolView) -> SnapSymbolView {
    SnapSymbolView {
        name: s.name,
        kind: s.kind,
        file: normalized(s.file),
        line: s.line,
        col: s.col,
    }
}

pub open spec fn snap_edge(e: EdgeView, from: SymbolView, to: SymbolView) -> SnapEdgeView {
    SnapEdgeView {
        from: snap_symbol(from),
        to: snap_symbol(to),
        relation: e.relation,
        reason: e.reason,
        origin_file: normalized(e.origin_file),
        origin_line: e.origin_line,
        confidence: if e.confidence > 100 {
            100
        } else {
            e.confidence
        },
    }
}

pub open spec fn snap_import(i: ImportRefView) -> SnapImportView {
    SnapImportView {
        file: normalized(i.file),
        imported_name: i.imported_name,
        source_module: i.source_module,
        line: i.line,
    }
}

/// The symbol with id `id`, if any (ids are unique).
pub open spec fn symbol_with_id(ss: Seq<SymbolView>, id: i64) -> Option<SymbolView>
    decreases ss.len(),
{
    if ss.len() == 0 {
        None
    } else if ss.last().id == id {
        Some(ss.last())
    } else {
        symbol_with_id(ss.drop_last(), id)
    }
}

/// The snapshot form of an edge whose two ends are symbols of the index.
pub open spec fn snap_edge_in(ss: Seq<SymbolView>, e: EdgeView) -> Option<SnapEdgeView> {
    match (symbol_with_id(ss, e.from_id), symbol_with_id(ss, e.to_id)) {
        (Some(f), Some(t)) => Some(snap_edge(e, f, t)),
        _ => None,
    }
}

/// A symbol's snapshot form: its id dropped and its path normalized.
pub fn symbol_to_snapshot(symbol: &Symbol) -> (r: SnapshotSymbol)
    ensures
        r@ == snap_symbol(symbol@),
{
    let f = normalized_chars(symbol.file.as_str());
    SnapshotSymbol {
        name: symbol.name.clone(),
        kind: symbol.kind.clone(),
        file: string_of(f.as_slice()),
        line: symbol.line,
        col: symbol.col,
    }
}

/// An edge's snapshot form, with the symbols at its ends.
pub fn edge_to_snapshot(edge: &Edge, from: &Symbol, to: &Symbol) -> (r: SnapshotEdge)
    ensures
        r@ == snap_edge(edge@, from@, to@),
{
    let f = normalized_chars(edge.origin_file.as_str());
    SnapshotEdge {
        from: symbol_to_snapshot(from),
        to: symbol_to_snapshot(to),
        relation: edge.relation.clone(),
        reason: edge.reason.clone(),
        origin_file: string_of(f.as_slice()),
        origin_line: edge.origin_line,
        confidence: if edge.confidence > 100 {
            100
        } else {
            edge.confidence
        },
    }
}

/// An import statement's snapshot form.
pub fn import_ref_to_snapshot(imp: &ImportRef) -> (r: SnapshotImportRef)
    ensures
        r@ == snap_import(imp@),
{
    let f = normalized_chars(imp.file.as_str());
    SnapshotImportRef {
        file: string_of(f.as_slice()),
        imported_name: imp.imported_name.clone(),
        source_module: imp.source_module.clone(),
        line: imp.line,
    }
}

/// Backslashes turned into forward slashes.
pub fn normalize_path(path: &str) -> (r: String)
    ensures
        r@ == normalized(path@),
{
    let f = normalized_chars(path);
    string_of(f.as_slice())
}

fn find_symbol(symbols: &Vec<Symbol>, id: i64) -> (r: Option<&Symbol>)
    ensures
        r matches Some(s) ==> symbol_with_id(views(symbols@), id) == Some(s@),
        r is None ==> symbol_with_id(views(symbols@), id) is None,
{
    let mut k: usize = symbols.len();
    assert(views(symbols@).take(symbols.len() as int) =~= views(symbols@));
    while k > 0
        invariant
            k <= symbols.len(),
            symbol_with_id(views(symbols@), id) == symbol_with_id(views(symbols@).take(k as int), id),
        decreases k,
    {
        let ghost t = views(symbols@).take(k as int);
        assert(t.drop_last() =~= views(symbols@).take(k - 1));
        assert(t.last() == symbols@[k - 1]@);
        if symbols[k - 1].id == id {
            return Some(&symbols[k - 1]);
        }
        k = k - 1;
    }
    None
}

/// A snapshot of the index: its symbols, the edges between them and its
/// import statements, each distinct and strictly sorted, paths normalized.
pub fn build_snapshot(
    symbols: &Vec<Symbol>,
    edges: &Vec<Edge>,
    import_refs: &Vec<ImportRef>,
    repo_root: Option<String>,
    created_at: u64,
) -> (s: Snapshot)
    ensures
        s.version == SNAPSHOT_VERSION,
        s.created_at == created_at,
        s.repo_root == repo_root,
        strictly_sorted::<SnapshotSymbol>(views(s.symbols@)),
        strictly_sorted::<SnapshotEdge>(views(s.edges@)),
        strictly_sorted::<SnapshotImportRef>(views(s.import_refs@)),
        views(s.symbols@).to_set() == views(symbols@).map_values(|x: SymbolView| snap_symbol(x)).to_set(),
        views(s.import_refs@).to_set() == views(import_refs@).map_values(
            |x: ImportRefView| snap_import(x),
        ).to_set(),
        forall|e: SnapEdgeView|
            views(s.edges@).contains(e) <==> exists|i: int|
                0 <= i < edges.len() && #[trigger] snap_edge_in(views(symbols@), edges@[i]@) == Some(e),
{
    let ghost ss = views(symbols@);
    let mut out_symbols: Vec<SnapshotSymbol> = Vec::new();
    let mut i: usize = 0;
    while i < symbols.len()
        invariant
            i <= symbols.len(),
            ss == views(symbols@),
            strictly_sorted::<SnapshotSymbol>(views(out_symbols@)),
            views(out_symbols@).to_set() == ss.map_values(|x: SymbolView| snap_symbol(x)).take(
                i as int,
            ).to_set(),
        decreases symbols.len() - i,
    {
        let ghost m = ss.map_values(|x: SymbolView| snap_symbol(x));
        let x = symbol_to_snapshot(&symbols[i]);
        proof {
            assert(m.take(i + 1) =~= m.take(i as int).push(x@));
            lemma_push_to_set(m.take(i as int), x@);
        }
        insert_sorted_unique(&mut out_symbols, x);
        i = i + 1;
    }
    assert(ss.map_values(|x: SymbolView| snap_symbol(x)).take(symbols.len() as int)
        =~= ss.map_values(|x: SymbolView| snap_symbol(x)));

    let mut out_edges: Vec<SnapshotEdge> = Vec::new();
    let mut i: usize = 0;
    while i < edges.len()
        invariant
            i <= edges.len(),
            ss == views(symbols@),
            strictly_sorted::<SnapshotEdge>(views(out_edges@)),
            forall|e: SnapEdgeView|
                views(out_edges@).contains(e) <==> exists|j: int|
                    0 <= j < i && #[trigger] snap_edge_in(ss, edges@[j]@) == Some(e),
        decreases edges.len() - i,
    {
        let ghost before = views(out_edges@);
        let e = &edges[i];
        let from = find_symbol(symbols, e.from_id);
        let to = find_symbol(symbols, e.to_id);
        match (from, to) {
            (Some(f), Some(t)) => {
                let x = edge_to_snapshot(e, f, t);
                insert_sorted_unique(&mut out_edges, x);
                proof {
                    assert(snap_edge_in(ss, edges@[i as int]@) == Some(x@));
                    assert forall|y: SnapEdgeView|
                        views(out_edges@).contains(y) <==> exists|j: int|
                            0 <= j < i + 1 && #[trigger] snap_edge_in(ss, edges@[j]@) == Some(y) by {
                        assert(views(out_edges@).to_set().contains(y) == views(out_edges@).contains(y));
                        assert(before.to_set().contains(y) == before.contains(y));
                        if y == x@ {
                            assert(snap_edge_in(ss, edges@[i as int]@) == Some(y));
                        }
                    }
                }
            },
            _ => {
                proof {
                    assert(snap_edge_in(ss, edges@[i as int]@) is None);
                    assert forall|y: SnapEdgeView|
                        views(out_edges@).contains(y) <==> exists|j: int|
                            0 <= j < i + 1 && #[trigger] snap_edge_in(ss, edges@[j]@) == Some(y) by {
                        if exists|j: int|
                            0 <= j < i + 1 && #[trigger] snap_edge_in(ss, edges@[j]@) == Some(y) {
                            let j = choose|j: int|
                                0 <= j < i + 1 && #[trigger] snap_edge_in(ss, edges@[j]@) == Some(y);
                            assert(j < i);
                        }
                    }
                }
            },
        }
        i = i + 1;
    }

    let ghost ims = views(import_refs@).map_values(|x: ImportRefView| snap_import(x));
    let mut out_imports: Vec<SnapshotImportRef> = Vec::new();
    let mut i: usize = 0;
    while i < import_refs.len()
        invariant
            i <= import_refs.len(),
            ims == views(import_refs@).map_values(|x: ImportRefView| snap_import(x)),
            strictly_sorted::<SnapshotImportRef>(views(out_imports@)),
            views(out_imports@).to_set() == ims.take(i as int).to_set(),
        decreases import_refs.len() - i,
    {
        let x = import_ref_to_snapshot(&import_refs[i]);
        proof {
            assert(ims.take(i + 1) =~= ims.take(i as int).push(x@));
            lemma_push_to_set(ims.take(i as int), x@);
        }
        insert_sorted_unique(&mut out_imports, x);
        i = i + 1;
    }
    assert(ims.take(import_refs.len() as int) =~= ims);

    Snapshot {
        version: SNAPSHOT_VERSION,
        created_at,
        repo_root,
        symbols: out_symbols,
        edges: out_edges,
        import_refs: out_imports,
    }
}

// ---------------------------------------------------------------------------
// Laws
// ---------------------------------------------------------------------------
/// A snapshot compared with itself shows no change.
pub proof fn lemma_diff_with_itself(s: Snapshot, d: SnapshotDiff)
    requires
        diff_of(d, s, s),
    ensures
        d.added_symbols.len() == 0,
        d.removed_symbols.len() == 0,
        d.added_edges.len() == 0,
        d.removed_edges.len() == 0,
        d.added_imports.len() == 0,
        d.removed_imports.len() == 0,
{
    assert(views(s.symbols@).to_set().difference(views(s.symbols@).to_set()) =~= Set::empty());
    assert(views(s.edges@).to_set().difference(views(s.edges@).to_set()) =~= Set::empty());
    assert(views(s.import_refs@).to_set().difference(views(s.import_refs@).to_set()) =~= Set::empty());
    lemma_empty_set_seq(views(d.added_symbols@));
    lemma_empty_set_seq(views(d.removed_symbols@));
    lemma_empty_set_seq(views(d.added_edges@));
    lemma_empty_set_seq(views(d.removed_edges@));
    lemma_empty_set_seq(views(d.added_imports@));
    lemma_empty_set_seq(views(d.removed_imports@));
}

proof fn lemma_empty_set_seq<A>(v: Seq<A>)
    requires
        v.to_set() == Set::<A>::empty(),
    ensures
        v.len() == 0,
{
    if v.len() > 0 {
        assert(v.to_set().contains(v[0]));
    }
}

/// Comparing in the other direction swaps what was added and removed.
pub proof fn lemma_diff_swapped(a: Snapshot, b: Snapshot, ab: SnapshotDiff, ba: SnapshotDiff)
    requires
        diff_of(ab, a, b),
        diff_of(ba, b, a),
    ensures
        views(ab.added_symbols@) == views(ba.removed_symbols@),
        views(ab.removed_symbols@) == views(ba.added_symbols@),
        views(ab.added_edges@) == views(ba.removed_edges@),
        views(ab.removed_edges@) == views(ba.added_edges@),
        views(ab.added_imports@) == views(ba.removed_imports@),
        views(ab.removed_imports@) == views(ba.added_imports@),
{
    lemma_sorted_same_set::<SnapshotSymbol>(views(ab.added_symbols@), views(ba.removed_symbols@));
    lemma_sorted_same_set::<SnapshotSymbol>(views(ab.removed_symbols@), views(ba.added_symbols@));
    lemma_sorted_same_set::<SnapshotEdge>(views(ab.added_edges@), views(ba.removed_edges@));
    lemma_sorted_same_set::<SnapshotEdge>(views(ab.removed_edges@), views(ba.added_edges@));
    lemma_sorted_same_set::<SnapshotImportRef>(views(ab.added_imports@), views(ba.removed_imports@));
    lemma_sorted_same_set::<SnapshotImportRef>(views(ab.removed_imports@), views(ba.added_imports@));
}


/// The symbol found for an id is a symbol of the index with that id, and one
/// is found whenever some symbol has the id.
proof fn lemma_symbol_with_id(ss: Seq<SymbolView>, id: i64)
    ensures
        symbol_with_id(ss, id) matches Some(a) ==> ss.contains(a) && a.id == id,
        (exists|k: int| 0 <= k < ss.len() && ss[k].id == id) ==> symbol_with_id(ss, id) is Some,
    decreases ss.len(),
{
    if ss.len() > 0 {
        lemma_symbol_with_id(ss.drop_last(), id);
        if ss.last().id != id {
            if let Some(a) = symbol_with_id(ss, id) {
                let k = choose|k: int| 0 <= k < ss.len() - 1 && ss.drop_last()[k] == a;
                assert(ss[k] == a);
            }
            if exists|k: int| 0 <= k < ss.len() && ss[k].id == id {
                let k = choose|k: int| 0 <= k < ss.len() && ss[k].id == id;
                assert(ss.drop_last()[k].id == id);
            }
        } else {
            assert(ss[ss.len() - 1] == ss.last());
        }
    }
}

/// The snapshot form of a symbol as an edge end: its name, kind, normalized
/// file, line and column.
pub open spec fn edge_end(e: SnapSymbolView, a: SymbolView) -> bool {
    e.name == a.name && e.kind == a.kind && e.file == normalized(a.file) && e.line == a.line && e.col
        == a.col
}

/// Snapshot edges keep their direction: each comes from an index edge, its
/// `from` being a symbol whose id is the edge's `from_id` and its `to` one
/// whose id is the `to_id`; and every index edge whose two ends are symbols
/// of the index is in the snapshot that way round.
pub proof fn lemma_snapshot_edges_keep_direction(
    ss: Seq<SymbolView>,
    es: Seq<EdgeView>,
    se: Seq<SnapEdgeView>,
)
    requires
        forall|e: SnapEdgeView|
            se.contains(e) <==> exists|i: int| 0 <= i < es.len() && #[trigger] snap_edge_in(ss, es[i]) == Some(e),
    ensures
        forall|e: SnapEdgeView|
            #![trigger se.contains(e)]
            se.contains(e) ==> exists|i: int, a: SymbolView, b: SymbolView|
                #![trigger es[i], edge_end(e.from, a), edge_end(e.to, b)]
                0 <= i < es.len() && ss.contains(a) && ss.contains(b) && a.id == es[i].from_id && b.id
                    == es[i].to_id && edge_end(e.from, a) && edge_end(e.to, b)
                    && e.relation == es[i].relation,
        forall|i: int, k: int, m: int|
            #![trigger es[i], ss[k], ss[m]]
            0 <= i < es.len() && 0 <= k < ss.len() && 0 <= m < ss.len() && ss[k].id
                == es[i].from_id && ss[m].id == es[i].to_id ==> exists|e: SnapEdgeView, a: SymbolView, b: SymbolView|
                #![trigger se.contains(e), edge_end(e.from, a), edge_end(e.to, b)]
                se.contains(e) && ss.contains(a) && ss.contains(b) && a.id == es[i].from_id && b.id
                    == es[i].to_id && edge_end(e.from, a) && edge_end(e.to, b)
                    && e.relation == es[i].relation,
{
    assert forall|e: SnapEdgeView|
        #![trigger se.contains(e)]
        se.contains(e) implies exists|i: int, a: SymbolView, b: SymbolView|
                #![trigger es[i], edge_end(e.from, a), edge_end(e.to, b)]
            0 <= i < es.len() && ss.contains(a) && ss.contains(b) && a.id == es[i].from_id && b.id
                == es[i].to_id && edge_end(e.from, a) && edge_end(e.to, b)
                && e.relation == es[i].relation by {
        let i = choose|i: int| 0 <= i < es.len() && #[trigger] snap_edge_in(ss, es[i]) == Some(e);
        lemma_symbol_with_id(ss, es[i].from_id);
        lemma_symbol_with_id(ss, es[i].to_id);
        let a = symbol_with_id(ss, es[i].from_id)->0;
        let b = symbol_with_id(ss, es[i].to_id)->0;
        assert(edge_end(e.from, a) && edge_end(e.to, b));
    }
    assert forall|i: int, k: int, m: int|
        #![trigger es[i], ss[k], ss[m]]
        0 <= i < es.len() && 0 <= k < ss.len() && 0 <= m < ss.len() && ss[k].id
            == es[i].from_id && ss[m].id == es[i].to_id implies exists|e: SnapEdgeView, a: SymbolView, b: SymbolView|
                #![trigger se.contains(e), edge_end(e.from, a), edge_end(e.to, b)]
            se.contains(e) && ss.contains(a) && ss.contains(b) && a.id == es[i].from_id && b.id
                == es[i].to_id && edge_end(e.from, a) && edge_end(e.to, b)
                && e.relation == es[i].relation by {
        lemma_symbol_with_id(ss, es[i].from_id);
        lemma_symbol_with_id(ss, es[i].to_id);
        let a = symbol_with_id(ss, es[i].from_id)->0;
        let b = symbol_with_id(ss, es[i].to_id)->0;
        let e = snap_edge_in(ss, es[i])->0;
        assert(se.contains(e));
        assert(edge_end(e.from, a) && edge_end(e.to, b));
    }
}

} // verus!
