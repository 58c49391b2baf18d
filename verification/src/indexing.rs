//! Turning what was extracted from a file into index rows, and deciding what
//! a scan or an update has to do: which files are read, which are new,
//! changed or gone, and whether the index on disk is of this format.
use vstd::prelude::*;

use crate::error::{user_error, AppError, AppErrorView};
use crate::extractor::{
    FileExtracts, FileExtractsView, RawCallView, RawImportView, RawRenderView, RawRoute, RawRouteView,
    RawSymbolView,
};
use crate::laravel::{extract_routes_from_routes_php, routes_of_lines, text_lines};
use crate::lang::{detect_lang, lang_of_path, Lang, MAX_FILE_SIZE};
use crate::models::{ImportRef, ImportRefView};
use crate::order::{lemma_map_take_push, lemma_views_push, views};
use crate::text::{chars_of, owned, push_char, push_str, starts_with, starts_with_exec, str_eq};
use vstd::utf8::{decode_utf8, valid_utf8};

verus! {

/// The version written to, and expected in, the index's metadata.
pub open spec fn index_format_version() -> Seq<char> {
    "5"@
}

/// A symbol row to insert into the index.
#[derive(Debug, Clone)]
pub struct SymbolRow {
    pub name: String,
    pub kind: String,
    pub file: String,
    pub line: u32,
    pub col: u32,
    pub byte_start: u32,
    pub byte_end: u32,
}

pub struct SymbolRowView {
    pub name: Seq<char>,
    pub kind: Seq<char>,
    pub file: Seq<char>,
    pub line: u32,
    pub col: u32,
    pub byte_start: u32,
    pub byte_end: u32,
}

impl View for SymbolRow {
    type V = SymbolRowView;

    open spec fn view(&self) -> SymbolRowView {
        SymbolRowView {
            name: self.name@,
            kind: self.kind@,
            file: self.file@,
            line: self.line,
            col: self.col,
            byte_start: self.byte_start,
            byte_end: self.byte_end,
        }
    }
}

/// A route: its symbol row, and the handler its route reference names.
#[derive(Debug, Clone)]
pub struct RouteRow {
    pub symbol: SymbolRow,
    pub handler_name: String,
}

pub struct RouteRowView {
    pub symbol: SymbolRowView,
    pub handler_name: Seq<char>,
}

impl View for RouteRow {
    type V = RouteRowView;

    open spec fn view(&self) -> RouteRowView {
        RouteRowView { symbol: self.symbol@, handler_name: self.handler_name@ }
    }
}

/// The rows of one file, in the order they are inserted: `symbols` first
/// (definitions, calls, renders, imports), then `routes` (each symbol row
/// followed by its route reference); `imports` are the import references.
#[derive(Debug, Clone)]
pub struct IndexRows {
    pub symbols: Vec<SymbolRow>,
    pub imports: Vec<ImportRef>,
    pub routes: Vec<RouteRow>,
}

pub struct IndexRowsView {
    pub symbols: Seq<SymbolRowView>,
    pub imports: Seq<ImportRefView>,
    pub routes: Seq<RouteRowView>,
}

impl View for IndexRows {
    type V = IndexRowsView;

    open spec fn view(&self) -> IndexRowsView {
        IndexRowsView {
            symbols: views(self.symbols@),
            imports: views(self.imports@),
            routes: views(self.routes@),
        }
    }
}

// ---------------------------------------------------------------------------
// Specification
// ---------------------------------------------------------------------------
pub open spec fn def_rows(file: Seq<char>) -> spec_fn(RawSymbolView) -> SymbolRowView {
    |s: RawSymbolView|
        SymbolRowView {
            name: s.name,
            kind: s.kind,
            file,
            line: s.line,
            col: s.col,
            byte_start: s.byte_start,
            byte_end: s.byte_end,
        }
}

pub open spec fn call_rows(file: Seq<char>) -> spec_fn(RawCallView) -> SymbolRowView {
    |c: RawCallView|
        SymbolRowView {
            name: c.callee_name,
            kind: "call"@,
            file,
            line: c.line,
            col: c.col,
            byte_start: 0,
            byte_end: 0,
        }
}

pub open spec fn render_rows(file: Seq<char>) -> spec_fn(RawRenderView) -> SymbolRowView {
    |r: RawRenderView|
        SymbolRowView {
            name: r.component_name,
            kind: "render"@,
            file,
            line: r.line,
            col: r.col,
            byte_start: 0,
            byte_end: 0,
        }
}

pub open spec fn import_rows(file: Seq<char>) -> spec_fn(RawImportView) -> SymbolRowView {
    |i: RawImportView|
        SymbolRowView {
            name: i.imported_name,
            kind: "import"@,
            file,
            line: i.line,
            col: 0,
            byte_start: 0,
            byte_end: 0,
        }
}

pub open spec fn import_refs(file: Seq<char>) -> spec_fn(RawImportView) -> ImportRefView {
    |i: RawImportView|
        ImportRefView {
            file,
            imported_name: i.imported_name,
            source_module: i.source_module,
            line: i.line,
        }
}

pub open spec fn symbol_rows_of(file: Seq<char>, ex: FileExtractsView) -> Seq<SymbolRowView> {
    ex.symbols.map_values(def_rows(file)) + ex.calls.map_values(call_rows(file))
        + ex.renders.map_values(render_rows(file)) + ex.imports.map_values(import_rows(file))
}

pub open spec fn route_row_of(file: Seq<char>, r: RawRouteView) -> RouteRowView {
    RouteRowView {
        symbol: SymbolRowView {
            name: r.method + " "@ + r.path,
            kind: "route"@,
            file,
            line: r.line,
            col: r.col,
            byte_start: 0,
            byte_end: 0,
        },
        handler_name: r.handler_name,
    }
}

/// The rows of a file's extracts: a symbol row per definition, call
/// (`call`), render (`render`) and import (`import`), an import reference
/// per import, and a route row (`METHOD path`, kind `route`) per route.
pub open spec fn route_rows(file: Seq<char>) -> spec_fn(RawRouteView) -> RouteRowView {
    |r: RawRouteView| route_row_of(file, r)
}

/// The rows of a file's extracts: a symbol row per definition, call
/// (`call`), render (`render`) and import (`import`), an import reference
/// per import, and a route row (`METHOD path`, kind `route`) per route.
pub open spec fn index_rows_of(file: Seq<char>, ex: FileExtractsView) -> IndexRowsView {
    IndexRowsView {
        symbols: symbol_rows_of(file, ex),
        imports: ex.imports.map_values(import_refs(file)),
        routes: ex.routes.map_values(route_rows(file)),
    }
}

/// Laravel route files: PHP files under `routes/`.
pub open spec fn laravel_routes_file(lang: Lang, rel_path: Seq<char>) -> bool {
    lang == Lang::Php && starts_with(rel_path, "routes/"@)
}

/// What scanning does with a file found on disk.
#[derive(Debug, Clone, Copy, PartialEq, Eq, Structural)]
pub enum ScanDecision {
    /// Not a supported language: ignored.
    Unsupported,
    /// Supported, but over the size limit: skipped with a warning.
    TooLarge,
    /// Read and indexed as this language.
    Accept(Lang),
}

pub open spec fn scan_decision_of(path: Seq<char>, size: u64) -> ScanDecision {
    match lang_of_path(path) {
        None => ScanDecision::Unsupported,
        Some(lang) => if size > MAX_FILE_SIZE {
            ScanDecision::TooLarge
        } else {
            ScanDecision::Accept(lang)
        },
    }
}

/// How a file found by an update compares with the index.
#[derive(Debug, Clone, Copy, PartialEq, Eq, Structural)]
pub enum FileChange {
    New,
    Changed,
    Unchanged,
}

pub open spec fn file_change_of(hash: Seq<char>, stored: Option<Seq<char>>) -> FileChange {
    match stored {
        None => FileChange::New,
        Some(h) => if h != hash {
            FileChange::Changed
        } else {
            FileChange::Unchanged
        },
    }
}

/// The stored paths missing from the current ones, in stored order.
pub open spec fn deleted_of(stored: Seq<Seq<char>>, current: Seq<Seq<char>>) -> Seq<Seq<char>> {
    crate::select::select(stored, |p: Seq<char>| !current.contains(p))
}

/// `\`, `%` and `_` escaped with a backslash, for a `LIKE ... ESCAPE '\'`
/// pattern.
pub open spec fn like_escaped(s: Seq<char>) -> Seq<char>
    decreases s.len(),
{
    if s.len() == 0 {
        Seq::empty()
    } else {
        let c = s.last();
        like_escaped(s.drop_last()) + if c == '\\' || c == '%' || c == '_' {
            seq!['\\', c]
        } else {
            seq![c]
        }
    }
}

pub open spec fn format_check_of(meta: Option<Seq<char>>) -> Option<AppErrorView> {
    match meta {
        Some(v) => if v == index_format_version() {
            None
        } else {
            Some(
                AppErrorView::User(
                    "index format "@ + v
                        + " is not supported by this build. Run 'linkmap init' to rebuild the index."@,
                ),
            )
        },
        None => Some(
            AppErrorView::User(
                "index format is missing or out of date. Run 'linkmap init' to rebuild the index."@,
            ),
        ),
    }
}

// ---------------------------------------------------------------------------
// Implementation
// ---------------------------------------------------------------------------
fn symbol_row(name: &String, kind: &str, file: &str, line: u32, col: u32, byte_start: u32, byte_end: u32) -> (r: SymbolRow)
    ensures
        r@ == (SymbolRowView {
            name: name@,
            kind: kind@,
            file: file@,
            line,
            col,
            byte_start,
            byte_end,
        }),
{
    SymbolRow {
        name: name.clone(),
        kind: owned(kind),
        file: owned(file),
        line,
        col,
        byte_start,
        byte_end,
    }
}

/// The rows to insert for a file (`rel_path`) and its extracts.
pub fn index_rows(rel_path: &str, extracts: &FileExtracts) -> (r: IndexRows)
    ensures
        r@ == index_rows_of(rel_path@, extracts@),
{
    let ghost ex = extracts@;
    let ghost file = rel_path@;
    let mut symbols: Vec<SymbolRow> = Vec::new();
    let mut i: usize = 0;
    while i < extracts.symbols.len()
        invariant
            i <= extracts.symbols.len(),
            ex == extracts@,
            file == rel_path@,
            views(symbols@) == ex.symbols.take(i as int).map_values(def_rows(file)),
        decreases extracts.symbols.len() - i,
    {
        let s = &extracts.symbols[i];
        let row = symbol_row(&s.name, s.kind.as_str(), rel_path, s.line, s.col, s.byte_start, s.byte_end);
        let ghost before = symbols@;
        symbols.push(row);
        proof {
            lemma_views_push(before, row);
            lemma_map_take_push(ex.symbols, def_rows(file), i as int);
        }
        i = i + 1;
    }
    assert(ex.symbols.take(i as int) =~= ex.symbols);
    let ghost defs = views(symbols@);
    let mut j: usize = 0;
    while j < extracts.calls.len()
        invariant
            j <= extracts.calls.len(),
            ex == extracts@,
            file == rel_path@,
            views(symbols@) == defs + ex.calls.take(j as int).map_values(call_rows(file)),
        decreases extracts.calls.len() - j,
    {
        let c = &extracts.calls[j];
        let row = symbol_row(&c.callee_name, "call", rel_path, c.line, c.col, 0, 0);
        let ghost before = symbols@;
        symbols.push(row);
        proof {
            lemma_views_push(before, row);
            lemma_map_take_push(ex.calls, call_rows(file), j as int);
            assert(views(symbols@) =~= defs + ex.calls.take(j + 1).map_values(call_rows(file)));
        }
        j = j + 1;
    }
    assert(ex.calls.take(j as int) =~= ex.calls);
    let ghost with_calls = views(symbols@);
    let mut k: usize = 0;
    while k < extracts.renders.len()
        invariant
            k <= extracts.renders.len(),
            ex == extracts@,
            file == rel_path@,
            views(symbols@) == with_calls + ex.renders.take(k as int).map_values(render_rows(file)),
        decreases extracts.renders.len() - k,
    {
        let r = &extracts.renders[k];
        let row = symbol_row(&r.component_name, "render", rel_path, r.line, r.col, 0, 0);
        let ghost before = symbols@;
        symbols.push(row);
        proof {
            lemma_views_push(before, row);
            lemma_map_take_push(ex.renders, render_rows(file), k as int);
            assert(views(symbols@) =~= with_calls + ex.renders.take(k + 1).map_values(
                render_rows(file),
            ));
        }
        k = k + 1;
    }
    assert(ex.renders.take(k as int) =~= ex.renders);
    let ghost with_renders = views(symbols@);
    let mut imports: Vec<ImportRef> = Vec::new();
    let mut m: usize = 0;
    while m < extracts.imports.len()
        invariant
            m <= extracts.imports.len(),
            ex == extracts@,
            file == rel_path@,
            views(symbols@) == with_renders + ex.imports.take(m as int).map_values(import_rows(file)),
            views(imports@) == ex.imports.take(m as int).map_values(import_refs(file)),
        decreases extracts.imports.len() - m,
    {
        let imp = &extracts.imports[m];
        let row = symbol_row(&imp.imported_name, "import", rel_path, imp.line, 0, 0, 0);
        let ghost before = symbols@;
        symbols.push(row);
        let iref = ImportRef {
            file: owned(rel_path),
            imported_name: imp.imported_name.clone(),
            source_module: imp.source_module.clone(),
            line: imp.line,
        };
        let ghost before_refs = imports@;
        imports.push(iref);
        proof {
            lemma_views_push(before, row);
            lemma_views_push(before_refs, iref);
            lemma_map_take_push(ex.imports, import_rows(file), m as int);
            lemma_map_take_push(ex.imports, import_refs(file), m as int);
            assert(views(symbols@) =~= with_renders + ex.imports.take(m + 1).map_values(
                import_rows(file),
            ));
        }
        m = m + 1;
    }
    assert(ex.imports.take(m as int) =~= ex.imports);
    let mut routes: Vec<RouteRow> = Vec::new();
    let mut n: usize = 0;
    while n < extracts.routes.len()
        invariant
            n <= extracts.routes.len(),
            ex == extracts@,
            file == rel_path@,
            views(routes@) == ex.routes.take(n as int).map_values(route_rows(file)),
        decreases extracts.routes.len() - n,
    {
        let r = &extracts.routes[n];
        let mut name = r.method.clone();
        push_str(&mut name, " ");
        push_str(&mut name, r.path.as_str());
        let row = RouteRow {
            symbol: symbol_row(&name, "route", rel_path, r.line, r.col, 0, 0),
            handler_name: r.handler_name.clone(),
        };
        let ghost before = routes@;
        routes.push(row);
        proof {
            lemma_views_push(before, row);
            lemma_map_take_push(ex.routes, route_rows(file), n as int);
        }
        n = n + 1;
    }
    assert(ex.routes.take(n as int) =~= ex.routes);
    IndexRows { symbols, imports, routes }
}

/// Whether a file is also read for Laravel route definitions: PHP files
/// under `routes/`.
pub fn scans_laravel_routes(lang: Lang, rel_path: &str) -> (r: bool)
    ensures
        r == laravel_routes_file(lang, rel_path@),
{
    let cs = chars_of(rel_path);
    let prefix = chars_of("routes/");
    lang == Lang::Php && starts_with_exec(cs.as_slice(), prefix.as_slice())
}

/// The routes that a Laravel route file's text defines.
pub open spec fn routes_of_text(text: Seq<char>) -> Seq<RawRouteView> {
    routes_of_lines(text_lines(text), text_lines(text).len() as int)
}

/// The extracts of a file with, for a Laravel route file whose bytes are
/// valid UTF-8, the routes its text defines added after the others.
pub open spec fn with_file_routes(
    ex: FileExtractsView,
    lang: Lang,
    rel_path: Seq<char>,
    source: Seq<u8>,
) -> FileExtractsView {
    if laravel_routes_file(lang, rel_path) && valid_utf8(source) {
        FileExtractsView { routes: ex.routes + routes_of_text(decode_utf8(source)), ..ex }
    } else {
        ex
    }
}

/// `std::str::from_utf8`, owned: the text when `bytes` are valid UTF-8, and
/// nothing otherwise, as std documents.
#[verifier::external_body]
fn utf8_text(bytes: &[u8]) -> (r: Option<String>)
    ensures
        r is Some == valid_utf8(bytes@),
        r matches Some(t) ==> t@ == decode_utf8(bytes@),
{
    match std::str::from_utf8(bytes) {
        Ok(text) => Some(text.to_string()),
        Err(_) => None,
    }
}

/// Adds to a file's extracts the routes of a Laravel route file (a PHP file
/// under `routes/`) when its bytes are valid UTF-8.
pub fn with_laravel_routes(ex: FileExtracts, lang: Lang, rel_path: &str, source: &[u8]) -> (r: FileExtracts)
    ensures
        r@ == with_file_routes(ex@, lang, rel_path@, source@),
{
    if !scans_laravel_routes(lang, rel_path) {
        return ex;
    }
    let text = match utf8_text(source) {
        Some(t) => t,
        None => return ex,
    };
    let found = extract_routes_from_routes_php(text.as_str());
    let mut ex = ex;
    let ghost orig = ex@;
    let ghost start = views(ex.routes@);
    let mut i: usize = 0;
    while i < found.len()
        invariant
            i <= found.len(),
            start == orig.routes,
            views(ex.routes@) == start + views(found@).take(i as int),
            ex@ == (FileExtractsView { routes: views(ex.routes@), ..orig }),
        decreases found.len() - i,
    {
        let ghost before = ex.routes@;
        ex.routes.push(found[i].clone_route());
        proof {
            lemma_views_push(before, found@[i as int]);
            assert(views(found@).take(i + 1) =~= views(found@).take(i as int).push(found@[i as int]@));
            assert(start + views(found@).take(i + 1) =~= (start + views(found@).take(i as int)).push(
                found@[i as int]@,
            ));
        }
        i = i + 1;
    }
    assert(views(found@).take(found.len() as int) =~= views(found@));
    ex
}

/// What scanning does with a file of this path and size (in bytes).
pub fn scan_decision(path: &str, size: u64) -> (r: ScanDecision)
    ensures
        r == scan_decision_of(path@, size),
{
    match detect_lang(path) {
        None => ScanDecision::Unsupported,
        Some(lang) => if size > MAX_FILE_SIZE {
            ScanDecision::TooLarge
        } else {
            ScanDecision::Accept(lang)
        },
    }
}

/// A file is new when the index has no hash for it, changed when the hash
/// differs, and unchanged otherwise.
pub fn classify_file(hash: &str, stored_hash: &Option<String>) -> (r: FileChange)
    ensures
        r == file_change_of(hash@, crate::history::opt_view(*stored_hash)),
{
    match stored_hash {
        None => FileChange::New,
        Some(h) => if !str_eq(h.as_str(), hash) {
            FileChange::Changed
        } else {
            FileChange::Unchanged
        },
    }
}

/// The stored paths that are no longer among the current ones, in stored
/// order.
pub fn deleted_paths(stored: &Vec<String>, current: &Vec<String>) -> (r: Vec<String>)
    ensures
        views(r@) == deleted_of(views(stored@), views(current@)),
{
    let ghost sv = views(stored@);
    let ghost cv = views(current@);
    let mut out: Vec<String> = Vec::new();
    let mut i: usize = 0;
    while i < stored.len()
        invariant
            i <= stored.len(),
            sv == views(stored@),
            cv == views(current@),
            views(out@) == crate::select::select(sv.take(i as int), |p: Seq<char>| !cv.contains(p)),
        decreases stored.len() - i,
    {
        let p = &stored[i];
        let mut found = false;
        let mut j: usize = 0;
        while j < current.len()
            invariant
                j <= current.len(),
                cv == views(current@),
                found == (exists|k: int| 0 <= k < j && cv[k] == p@),
            decreases current.len() - j,
        {
            if !found && str_eq(current[j].as_str(), p.as_str()) {
                found = true;
            }
            assert(cv[j as int] == current@[j as int]@);
            j = j + 1;
        }
        assert(found == cv.contains(p@));
        assert(sv[i as int] == p@);
        assert(sv.take(i + 1).drop_last() =~= sv.take(i as int));
        if !found {
            let ghost before = views(out@);
            out.push(p.clone());
            assert(views(out@) =~= before.push(p@));
        }
        i = i + 1;
    }
    assert(sv.take(i as int) =~= sv);
    out
}

/// The text for a `LIKE` pattern matching `input` literally.
pub fn escape_like_pattern(input: &str) -> (r: String)
    ensures
        r@ == like_escaped(input@),
{
    let cs = chars_of(input);
    let mut escaped = String::new();
    let mut i: usize = 0;
    while i < cs.len()
        invariant
            i <= cs.len(),
            cs@ == input@,
            escaped@ == like_escaped(cs@.take(i as int)),
        decreases cs.len() - i,
    {
        let ch = cs[i];
        if ch == '\\' || ch == '%' || ch == '_' {
            push_char(&mut escaped, '\\');
        }
        push_char(&mut escaped, ch);
        assert(cs@.take(i + 1).drop_last() =~= cs@.take(i as int));
        assert(escaped@ =~= like_escaped(cs@.take(i + 1)));
        i = i + 1;
    }
    assert(cs@.take(i as int) =~= cs@);
    escaped
}

/// Whether the index's recorded format (its metadata value) is this build's:
/// `None` when it is, otherwise the user error that asks for a rebuild.
pub fn check_index_format(meta: &Option<String>) -> (r: Option<AppError>)
    ensures
        match r {
            Some(e) => format_check_of(crate::history::opt_view(*meta)) == Some(e@),
            None => format_check_of(crate::history::opt_view(*meta)) is None,
        },
{
    match meta {
        Some(v) => {
            if str_eq(v.as_str(), "5") {
                None
            } else {
                let mut message = owned("index format ");
                push_str(&mut message, v.as_str());
                push_str(
                    &mut message,
                    " is not supported by this build. Run 'linkmap init' to rebuild the index.",
                );
                Some(user_error(message))
            }
        },
        None => Some(
            user_error(
                owned(
                    "index format is missing or out of date. Run 'linkmap init' to rebuild the index.",
                ),
            ),
        ),
    }
}

// ---------------------------------------------------------------------------
// Laws
// ---------------------------------------------------------------------------
/// A file gets one symbol row per definition, call, render, import and
/// route it yields: the count the scan reports.
pub proof fn lemma_row_count(file: Seq<char>, ex: FileExtractsView)
    ensures
        index_rows_of(file, ex).symbols.len() + index_rows_of(file, ex).routes.len() == ex.symbols.len()
            + ex.calls.len() + ex.renders.len() + ex.imports.len() + ex.routes.len(),
        index_rows_of(file, ex).imports.len() == ex.imports.len(),
{
}

/// A file whose hash is the stored one is unchanged; a stored path that is
/// still present is never reported as deleted.
pub proof fn lemma_update_classification(hash: Seq<char>, stored: Seq<Seq<char>>, current: Seq<Seq<char>>)
    ensures
        file_change_of(hash, Some(hash)) == FileChange::Unchanged,
        forall|i: int|
            0 <= i < deleted_of(stored, current).len() ==> !current.contains(
                #[trigger] deleted_of(stored, current)[i],
            ),
{
    assert forall|i: int| 0 <= i < deleted_of(stored, current).len() implies !current.contains(
        #[trigger] deleted_of(stored, current)[i],
    ) by {
        crate::select::lemma_select_member(stored, |p: Seq<char>| !current.contains(p), i);
    }
}

pub open spec fn like_special(c: char) -> bool {
    c == '\\' || c == '%' || c == '_'
}

/// A `LIKE` pattern read back: a backslash takes the next character
/// literally.
pub open spec fn like_unescaped(t: Seq<char>) -> Seq<char>
    decreases t.len(),
{
    if t.len() == 0 {
        Seq::empty()
    } else if t[0] == '\\' && t.len() >= 2 {
        seq![t[1]] + like_unescaped(t.skip(2))
    } else {
        seq![t[0]] + like_unescaped(t.skip(1))
    }
}

proof fn lemma_like_escaped_add(a: Seq<char>, b: Seq<char>)
    ensures
        like_escaped(a + b) == like_escaped(a) + like_escaped(b),
    decreases b.len(),
{
    if b.len() == 0 {
        assert(a + b =~= a);
        assert(like_escaped(a) + like_escaped(b) =~= like_escaped(a));
    } else {
        lemma_like_escaped_add(a, b.drop_last());
        assert((a + b).drop_last() =~= a + b.drop_last());
        assert((a + b).last() == b.last());
    }
}

/// Reading an escaped pattern back gives the text that was escaped: the
/// search matches the query literally.
pub proof fn lemma_like_round_trip(s: Seq<char>)
    ensures
        like_unescaped(like_escaped(s)) == s,
    decreases s.len(),
{
    if s.len() > 0 {
        let c = s[0];
        let rest = s.skip(1);
        assert(s =~= seq![c] + rest);
        lemma_like_escaped_add(seq![c], rest);
        lemma_like_round_trip(rest);
        assert(seq![c].drop_last() =~= Seq::<char>::empty());
        assert(like_escaped(Seq::<char>::empty()) == Seq::<char>::empty());
        assert(seq![c].last() == c);
        let e = like_escaped(seq![c]);
        assert(e == like_escaped(seq![c].drop_last()) + (if like_special(c) {
            seq!['\\', c]
        } else {
            seq![c]
        }));
        let t = e + like_escaped(rest);
        if like_special(c) {
            assert(e =~= seq!['\\', c]);
            assert(t.skip(2) =~= like_escaped(rest));
        } else {
            assert(e =~= seq![c]);
            assert(t.skip(1) =~= like_escaped(rest));
        }
        assert(like_unescaped(t) =~= s);
    }
}

} // verus!
