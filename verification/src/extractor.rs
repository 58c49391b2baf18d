//! What a parser extracts from one source file: definitions, calls, renders,
//! imports and routes.
use vstd::prelude::*;

use crate::order::views;
use crate::select::{lemma_select_member, select};
use crate::text::{
    chars_of, owned, starts_with, starts_with_exec, str_eq, string_of,
    to_ascii_upper, to_ascii_upper_exec,
};

verus! {

/// A definition extracted from a file.
#[derive(Debug, Clone, PartialEq, Eq)]
pub struct RawSymbol {
    pub name: String,
    pub kind: String,
    pub line: u32,
    pub col: u32,
    pub byte_start: u32,
    pub byte_end: u32,
}

/// A call extracted from a file.
#[derive(Debug, Clone, PartialEq, Eq)]
pub struct RawCall {
    pub callee_name: String,
    pub line: u32,
    pub col: u32,
}

/// A JSX/TSX component render extracted from a file.
#[derive(Debug, Clone, PartialEq, Eq)]
pub struct RawRender {
    pub component_name: String,
    pub line: u32,
    pub col: u32,
}

/// An import extracted from a file.
#[derive(Debug, Clone, PartialEq, Eq)]
pub struct RawImport {
    pub imported_name: String,
    pub source_module: String,
    pub line: u32,
}

/// A route extracted from a file (Express, Laravel).
#[derive(Debug, Clone, PartialEq, Eq)]
pub struct RawRoute {
    pub method: String,
    pub path: String,
    pub handler_name: String,
    pub line: u32,
    pub col: u32,
}

/// Everything extracted from one file.
#[derive(Debug, Default)]
pub struct FileExtracts {
    pub symbols: Vec<RawSymbol>,
    pub calls: Vec<RawCall>,
    pub renders: Vec<RawRender>,
    pub imports: Vec<RawImport>,
    pub routes: Vec<RawRoute>,
}

pub struct RawSymbolView {
    pub name: Seq<char>,
    pub kind: Seq<char>,
    pub line: u32,
    pub col: u32,
    pub byte_start: u32,
    pub byte_end: u32,
}

pub struct RawCallView {
    pub callee_name: Seq<char>,
    pub line: u32,
    pub col: u32,
}

pub struct RawRenderView {
    pub component_name: Seq<char>,
    pub line: u32,
    pub col: u32,
}

pub struct RawImportView {
    pub imported_name: Seq<char>,
    pub source_module: Seq<char>,
    pub line: u32,
}

pub struct RawRouteView {
    pub method: Seq<char>,
    pub path: Seq<char>,
    pub handler_name: Seq<char>,
    pub line: u32,
    pub col: u32,
}

impl View for RawSymbol {
    type V = RawSymbolView;

    open spec fn view(&self) -> RawSymbolView {
        RawSymbolView {
            name: self.name@,
            kind: self.kind@,
            line: self.line,
            col: self.col,
            byte_start: self.byte_start,
            byte_end: self.byte_end,
        }
    }
}

impl View for RawCall {
    type V = RawCallView;

    open spec fn view(&self) -> RawCallView {
        RawCallView { callee_name: self.callee_name@, line: self.line, col: self.col }
    }
}

impl View for RawRender {
    type V = RawRenderView;

    open spec fn view(&self) -> RawRenderView {
        RawRenderView { component_name: self.component_name@, line: self.line, col: self.col }
    }
}

impl View for RawImport {
    type V = RawImportView;

    open spec fn view(&self) -> RawImportView {
        RawImportView {
            imported_name: self.imported_name@,
            source_module: self.source_module@,
            line: self.line,
        }
    }
}

impl View for RawRoute {
    type V = RawRouteView;

    open spec fn view(&self) -> RawRouteView {
        RawRouteView {
            method: self.method@,
            path: self.path@,
            handler_name: self.handler_name@,
            line: self.line,
            col: self.col,
        }
    }
}


pub struct FileExtractsView {
    pub symbols: Seq<RawSymbolView>,
    pub calls: Seq<RawCallView>,
    pub renders: Seq<RawRenderView>,
    pub imports: Seq<RawImportView>,
    pub routes: Seq<RawRouteView>,
}

impl View for FileExtracts {
    type V = FileExtractsView;

    open spec fn view(&self) -> FileExtractsView {
        FileExtractsView {
            symbols: views(self.symbols@),
            calls: views(self.calls@),
            renders: views(self.renders@),
            imports: views(self.imports@),
            routes: views(self.routes@),
        }
    }
}

/// One capture of a syntax query: the capture's name, the text of the
/// captured node, its start (0-based row and column) and its byte range.
#[derive(Debug, Clone)]
pub struct Capture {
    pub name: String,
    pub text: String,
    pub row: u32,
    pub column: u32,
    pub start_byte: u32,
    pub end_byte: u32,
}

pub struct CaptureView {
    pub name: Seq<char>,
    pub text: Seq<char>,
    pub row: u32,
    pub column: u32,
    pub start_byte: u32,
    pub end_byte: u32,
}

impl View for Capture {
    type V = CaptureView;

    open spec fn view(&self) -> CaptureView {
        CaptureView {
            name: self.name@,
            text: self.text@,
            row: self.row,
            column: self.column,
            start_byte: self.start_byte,
            end_byte: self.end_byte,
        }
    }
}

// ---------------------------------------------------------------------------
// Specification
// ---------------------------------------------------------------------------
pub open spec fn is_quote(c: char) -> bool {
    c == '\'' || c == '"'
}

/// Leading quotes removed.
pub open spec fn strip_leading_quotes(s: Seq<char>) -> Seq<char>
    decreases s.len(),
{
    if s.len() > 0 && is_quote(s[0]) {
        strip_leading_quotes(s.drop_first())
    } else {
        s
    }
}

/// Trailing quotes removed.
pub open spec fn strip_trailing_quotes(s: Seq<char>) -> Seq<char>
    decreases s.len(),
{
    if s.len() > 0 && is_quote(s.last()) {
        strip_trailing_quotes(s.drop_last())
    } else {
        s
    }
}

/// Quotes removed from both ends (`str::trim_matches`).
pub open spec fn trim_quotes(s: Seq<char>) -> Seq<char> {
    strip_trailing_quotes(strip_leading_quotes(s))
}

pub open spec fn empty_extracts() -> FileExtractsView {
    FileExtractsView {
        symbols: Seq::empty(),
        calls: Seq::empty(),
        renders: Seq::empty(),
        imports: Seq::empty(),
        routes: Seq::empty(),
    }
}

/// The source of the last import, when it has none yet and is on `line`.
pub open spec fn fill_import_source(ex: FileExtractsView, line: int, text: Seq<char>) -> FileExtractsView {
    let n = ex.imports.len();
    if n > 0 && ex.imports[n - 1].source_module.len() == 0 && ex.imports[n - 1].line == line {
        let last = ex.imports[n - 1];
        FileExtractsView {
            imports: ex.imports.update(
                n - 1,
                RawImportView { source_module: trim_quotes(text), ..last },
            ),
            ..ex
        }
    } else {
        ex
    }
}

/// The path of the last route, when it has none yet and is on `line`.
pub open spec fn fill_route_path(ex: FileExtractsView, line: int, text: Seq<char>) -> FileExtractsView {
    let n = ex.routes.len();
    if n > 0 && ex.routes[n - 1].path.len() == 0 && ex.routes[n - 1].line == line {
        let last = ex.routes[n - 1];
        FileExtractsView {
            routes: ex.routes.update(n - 1, RawRouteView { path: trim_quotes(text), ..last }),
            ..ex
        }
    } else {
        ex
    }
}

/// The handler of the last route, when it has none yet and is on `line`.
pub open spec fn fill_route_handler(ex: FileExtractsView, line: int, text: Seq<char>) -> FileExtractsView {
    let n = ex.routes.len();
    if n > 0 && ex.routes[n - 1].handler_name.len() == 0 && ex.routes[n - 1].line == line {
        let last = ex.routes[n - 1];
        FileExtractsView {
            routes: ex.routes.update(
                n - 1,
                RawRouteView { handler_name: trim_quotes(text), ..last },
            ),
            ..ex
        }
    } else {
        ex
    }
}

/// What one capture adds: `definition.KIND` a definition of that kind,
/// `call`, `render` and `import.name` a call, render and import,
/// `route.method` a route; `import.source`, `route.path` and `route.handler`
/// complete the last import or route of the same line. Empty captures and
/// other names add nothing.
pub open spec fn take_capture(ex: FileExtractsView, c: CaptureView) -> FileExtractsView {
    let line = c.row + 1;
    if c.text.len() == 0 {
        ex
    } else if starts_with(c.name, "definition."@) {
        FileExtractsView {
            symbols: ex.symbols.push(
                RawSymbolView {
                    name: c.text,
                    kind: c.name.skip(11),
                    line: line as u32,
                    col: c.column,
                    byte_start: c.start_byte,
                    byte_end: c.end_byte,
                },
            ),
            ..ex
        }
    } else if c.name == "call"@ {
        FileExtractsView {
            calls: ex.calls.push(RawCallView { callee_name: c.text, line: line as u32, col: c.column }),
            ..ex
        }
    } else if c.name == "render"@ {
        FileExtractsView {
            renders: ex.renders.push(
                RawRenderView { component_name: c.text, line: line as u32, col: c.column },
            ),
            ..ex
        }
    } else if c.name == "import.name"@ {
        FileExtractsView {
            imports: ex.imports.push(
                RawImportView { imported_name: c.text, source_module: Seq::empty(), line: line as u32 },
            ),
            ..ex
        }
    } else if c.name == "import.source"@ {
        fill_import_source(ex, line, c.text)
    } else if c.name == "route.method"@ {
        FileExtractsView {
            routes: ex.routes.push(
                RawRouteView {
                    method: to_ascii_upper(c.text),
                    path: Seq::empty(),
                    handler_name: Seq::empty(),
                    line: line as u32,
                    col: c.column,
                },
            ),
            ..ex
        }
    } else if c.name == "route.path"@ {
        fill_route_path(ex, line, c.text)
    } else if c.name == "route.handler"@ {
        fill_route_handler(ex, line, c.text)
    } else {
        ex
    }
}

/// The extracts gathered from the first `n` captures, in order.
pub open spec fn gathered(cs: Seq<CaptureView>, n: int) -> FileExtractsView
    decreases n,
{
    if n <= 0 {
        empty_extracts()
    } else {
        take_capture(gathered(cs, n - 1), cs[n - 1])
    }
}

pub open spec fn same_site(a: RawSymbolView, b: RawSymbolView) -> bool {
    a.name == b.name && a.line == b.line && a.col == b.col && a.byte_start == b.byte_start
        && a.byte_end == b.byte_end
}

/// A variable that sits exactly where a function was found is that function.
pub open spec fn shadowed_variable(ss: Seq<RawSymbolView>, s: RawSymbolView) -> bool {
    s.kind == "variable"@ && exists|i: int|
        0 <= i < ss.len() && ss[i].kind == "function"@ && #[trigger] same_site(ss[i], s)
}

/// The definitions without variables found at the site of a function.
pub open spec fn deduped(ss: Seq<RawSymbolView>) -> Seq<RawSymbolView> {
    select(ss, |s: RawSymbolView| !shadowed_variable(ss, s))
}

pub open spec fn complete_route(r: RawRouteView) -> bool {
    r.method.len() > 0 && r.path.len() > 0 && r.handler_name.len() > 0
}

/// The extracts of a file from the captures of its syntax query: gathered in
/// order, then definitions deduplicated and incomplete routes dropped.
pub open spec fn extracts_of(cs: Seq<CaptureView>) -> FileExtractsView {
    let g = gathered(cs, cs.len() as int);
    FileExtractsView {
        symbols: deduped(g.symbols),
        routes: select(g.routes, |r: RawRouteView| complete_route(r)),
        ..g
    }
}

// ---------------------------------------------------------------------------
// Implementation
// ---------------------------------------------------------------------------
fn is_empty_str(s: &str) -> (r: bool)
    ensures
        r == (s@.len() == 0),
{
    let cs = chars_of(s);
    cs.len() == 0
}

fn trim_quotes_exec(s: &str) -> (r: String)
    ensures
        r@ == trim_quotes(s@),
{
    let cs = chars_of(s);
    let mut a: usize = 0;
    assert(cs@.skip(0) =~= cs@);
    while a < cs.len() && (cs[a] == '\'' || cs[a] == '"')
        invariant
            a <= cs.len(),
            strip_leading_quotes(cs@) == strip_leading_quotes(cs@.skip(a as int)),
        decreases cs.len() - a,
    {
        assert(cs@.skip(a as int).drop_first() =~= cs@.skip(a + 1));
        a = a + 1;
    }
    assert(strip_leading_quotes(cs@.skip(a as int)) == cs@.skip(a as int));
    let mut b: usize = cs.len();
    while b > a && (cs[b - 1] == '\'' || cs[b - 1] == '"')
        invariant
            a <= b <= cs.len(),
            strip_trailing_quotes(cs@.skip(a as int)) == strip_trailing_quotes(
                cs@.subrange(a as int, b as int),
            ),
        decreases b,
    {
        assert(cs@.subrange(a as int, b as int).drop_last() =~= cs@.subrange(a as int, b - 1));
        b = b - 1;
    }
    assert(cs@.skip(a as int) =~= cs@.subrange(a as int, cs.len() as int));
    let mut out = String::new();
    let mut k: usize = a;
    while k < b
        invariant
            a <= k <= b <= cs.len(),
            out@ == cs@.subrange(a as int, k as int),
        decreases b - k,
    {
        crate::text::push_char(&mut out, cs[k]);
        assert(out@ =~= cs@.subrange(a as int, k + 1));
        k = k + 1;
    }
    out
}

fn take_capture_exec(ex: &mut FileExtracts, c: &Capture)
    requires
        c.row < u32::MAX,
    ensures
        final(ex)@ == take_capture(old(ex)@, c@),
{
    let line = c.row + 1;
    if is_empty_str(c.text.as_str()) {
        return;
    }
    let name = chars_of(c.name.as_str());
    let prefix = chars_of("definition.");
    proof {
        reveal_strlit("definition.");
    }
    if starts_with_exec(name.as_slice(), prefix.as_slice()) {
        let mut kind = String::new();
        let mut k: usize = 11;
        while k < name.len()
            invariant
                11 <= k <= name.len(),
                kind@ == name@.subrange(11, k as int),
            decreases name.len() - k,
        {
            crate::text::push_char(&mut kind, name[k]);
            assert(kind@ =~= name@.subrange(11, k + 1));
            k = k + 1;
        }
        assert(kind@ =~= c.name@.skip(11));
        let ghost before = views(ex.symbols@);
        let sym = RawSymbol {
            name: owned(c.text.as_str()),
            kind,
            line,
            col: c.column,
            byte_start: c.start_byte,
            byte_end: c.end_byte,
        };
        ex.symbols.push(sym);
        assert(views(ex.symbols@) =~= before.push(sym@));
    } else if str_eq(c.name.as_str(), "call") {
        let ghost before = views(ex.calls@);
        let call = RawCall { callee_name: owned(c.text.as_str()), line, col: c.column };
        ex.calls.push(call);
        assert(views(ex.calls@) =~= before.push(call@));
    } else if str_eq(c.name.as_str(), "render") {
        let ghost before = views(ex.renders@);
        let render = RawRender { component_name: owned(c.text.as_str()), line, col: c.column };
        ex.renders.push(render);
        assert(views(ex.renders@) =~= before.push(render@));
    } else if str_eq(c.name.as_str(), "import.name") {
        let ghost before = views(ex.imports@);
        let imp = RawImport {
            imported_name: owned(c.text.as_str()),
            source_module: String::new(),
            line,
        };
        ex.imports.push(imp);
        assert(views(ex.imports@) =~= before.push(imp@));
    } else if str_eq(c.name.as_str(), "import.source") {
        let n = ex.imports.len();
        if n > 0 && is_empty_str(ex.imports[n - 1].source_module.as_str()) && ex.imports[n - 1].line
            == line {
            let ghost before = views(ex.imports@);
            let updated = RawImport {
                imported_name: ex.imports[n - 1].imported_name.clone(),
                source_module: trim_quotes_exec(c.text.as_str()),
                line: ex.imports[n - 1].line,
            };
            ex.imports.set(n - 1, updated);
            assert(views(ex.imports@) =~= before.update(n - 1, updated@));
        }
    } else if str_eq(c.name.as_str(), "route.method") {
        let ghost before = views(ex.routes@);
        let text = chars_of(c.text.as_str());
        let upper = to_ascii_upper_exec(text.as_slice());
        let route = RawRoute {
            method: string_of(upper.as_slice()),
            path: String::new(),
            handler_name: String::new(),
            line,
            col: c.column,
        };
        ex.routes.push(route);
        assert(views(ex.routes@) =~= before.push(route@));
    } else if str_eq(c.name.as_str(), "route.path") {
        let n = ex.routes.len();
        if n > 0 && is_empty_str(ex.routes[n - 1].path.as_str()) && ex.routes[n - 1].line == line {
            let ghost before = views(ex.routes@);
            let updated = RawRoute {
                method: ex.routes[n - 1].method.clone(),
                path: trim_quotes_exec(c.text.as_str()),
                handler_name: ex.routes[n - 1].handler_name.clone(),
                line: ex.routes[n - 1].line,
                col: ex.routes[n - 1].col,
            };
            ex.routes.set(n - 1, updated);
            assert(views(ex.routes@) =~= before.update(n - 1, updated@));
        }
    } else if str_eq(c.name.as_str(), "route.handler") {
        let n = ex.routes.len();
        if n > 0 && is_empty_str(ex.routes[n - 1].handler_name.as_str()) && ex.routes[n - 1].line
            == line {
            let ghost before = views(ex.routes@);
            let updated = RawRoute {
                method: ex.routes[n - 1].method.clone(),
                path: ex.routes[n - 1].path.clone(),
                handler_name: trim_quotes_exec(c.text.as_str()),
                line: ex.routes[n - 1].line,
                col: ex.routes[n - 1].col,
            };
            ex.routes.set(n - 1, updated);
            assert(views(ex.routes@) =~= before.update(n - 1, updated@));
        }
    }
}

/// Drops each variable found at exactly the site (name, position and byte
/// range) of a function: the same definition seen twice by the query.
pub fn dedupe_symbols(symbols: Vec<RawSymbol>) -> (r: Vec<RawSymbol>)
    ensures
        views(r@) == deduped(views(symbols@)),
{
    let ghost ss = views(symbols@);
    let mut out: Vec<RawSymbol> = Vec::new();
    let mut i: usize = 0;
    while i < symbols.len()
        invariant
            i <= symbols.len(),
            ss == views(symbols@),
            views(out@) == select(ss.take(i as int), |s: RawSymbolView| !shadowed_variable(ss, s)),
        decreases symbols.len() - i,
    {
        let s = &symbols[i];
        assert(ss[i as int] == s@);
        let mut shadowed = false;
        if str_eq(s.kind.as_str(), "variable") {
            let mut j: usize = 0;
            while j < symbols.len()
                invariant
                    j <= symbols.len(),
                    ss == views(symbols@),
                    s@ == ss[i as int],
                    s@.kind == "variable"@,
                    !shadowed ==> forall|k: int|
                        0 <= k < j ==> !(ss[k].kind == "function"@ && #[trigger] same_site(ss[k], s@)),
                    shadowed ==> shadowed_variable(ss, s@),
                decreases symbols.len() - j,
            {
                let f = &symbols[j];
                assert(ss[j as int] == f@);
                if !shadowed && str_eq(f.kind.as_str(), "function") && str_eq(f.name.as_str(), s.name.as_str())
                    && f.line == s.line && f.col == s.col && f.byte_start == s.byte_start && f.byte_end
                    == s.byte_end {
                    assert(same_site(ss[j as int], s@));
                    shadowed = true;
                }
                j = j + 1;
            }
        }
        let ghost before = views(out@);
        assert(ss.take(i + 1).drop_last() =~= ss.take(i as int));
        if !shadowed {
            out.push(s.clone_symbol());
            assert(views(out@) =~= before.push(s@));
        }
        i = i + 1;
    }
    assert(ss.take(i as int) =~= ss);
    out
}

impl RawSymbol {
    /// A copy with the same view.
    pub fn clone_symbol(&self) -> (r: RawSymbol)
        ensures
            r@ == self@,
    {
        RawSymbol {
            name: self.name.clone(),
            kind: self.kind.clone(),
            line: self.line,
            col: self.col,
            byte_start: self.byte_start,
            byte_end: self.byte_end,
        }
    }
}

impl RawRoute {
    /// A copy with the same view.
    pub fn clone_route(&self) -> (r: RawRoute)
        ensures
            r@ == self@,
    {
        RawRoute {
            method: self.method.clone(),
            path: self.path.clone(),
            handler_name: self.handler_name.clone(),
            line: self.line,
            col: self.col,
        }
    }
}

/// The extracts of a file from the captures of its syntax query, in match
/// order: each capture handled as `take_capture` says, then definitions
/// deduplicated and routes without a method, path or handler dropped.
pub fn extract_from_captures(captures: &Vec<Capture>) -> (r: FileExtracts)
    requires
        forall|i: int| 0 <= i < captures@.len() ==> (#[trigger] captures@[i]).row < u32::MAX,
    ensures
        r@ == extracts_of(views(captures@)),
{
    let ghost cs = views(captures@);
    let mut ex = FileExtracts {
        symbols: Vec::new(),
        calls: Vec::new(),
        renders: Vec::new(),
        imports: Vec::new(),
        routes: Vec::new(),
    };
    assert(views(ex.symbols@) =~= Seq::<RawSymbolView>::empty());
    assert(views(ex.calls@) =~= Seq::<RawCallView>::empty());
    assert(views(ex.renders@) =~= Seq::<RawRenderView>::empty());
    assert(views(ex.imports@) =~= Seq::<RawImportView>::empty());
    assert(views(ex.routes@) =~= Seq::<RawRouteView>::empty());
    assert(ex@ =~= empty_extracts());
    let mut i: usize = 0;
    while i < captures.len()
        invariant
            i <= captures.len(),
            cs == views(captures@),
            forall|k: int| 0 <= k < captures@.len() ==> (#[trigger] captures@[k]).row < u32::MAX,
            ex@ == gathered(cs, i as int),
        decreases captures.len() - i,
    {
        assert(cs[i as int] == captures@[i as int]@);
        take_capture_exec(&mut ex, &captures[i]);
        i = i + 1;
    }
    let ghost g = ex@;
    let symbols = dedupe_symbols(ex.symbols);
    let mut routes: Vec<RawRoute> = Vec::new();
    let mut k: usize = 0;
    while k < ex.routes.len()
        invariant
            k <= ex.routes.len(),
            g.routes == views(ex.routes@),
            views(routes@) == select(g.routes.take(k as int), |r: RawRouteView| complete_route(r)),
        decreases ex.routes.len() - k,
    {
        let r = &ex.routes[k];
        assert(g.routes[k as int] == r@);
        assert(g.routes.take(k + 1).drop_last() =~= g.routes.take(k as int));
        if !is_empty_str(r.method.as_str()) && !is_empty_str(r.path.as_str()) && !is_empty_str(
            r.handler_name.as_str(),
        ) {
            let ghost before = views(routes@);
            routes.push(r.clone_route());
            assert(views(routes@) =~= before.push(r@));
        }
        k = k + 1;
    }
    assert(g.routes.take(k as int) =~= g.routes);
    FileExtracts { symbols, calls: ex.calls, renders: ex.renders, imports: ex.imports, routes }
}

// ---------------------------------------------------------------------------
// Laws
// ---------------------------------------------------------------------------
/// Every line of the extracts counts from 1.
pub open spec fn lines_from_one(ex: FileExtractsView) -> bool {
    &&& forall|i: int| 0 <= i < ex.symbols.len() ==> (#[trigger] ex.symbols[i]).line >= 1
    &&& forall|i: int| 0 <= i < ex.calls.len() ==> (#[trigger] ex.calls[i]).line >= 1
    &&& forall|i: int| 0 <= i < ex.renders.len() ==> (#[trigger] ex.renders[i]).line >= 1
    &&& forall|i: int| 0 <= i < ex.imports.len() ==> (#[trigger] ex.imports[i]).line >= 1
    &&& forall|i: int| 0 <= i < ex.routes.len() ==> (#[trigger] ex.routes[i]).line >= 1
}

/// Every definition's byte range is a range within the first `bound` bytes.
pub open spec fn ranges_within(ex: FileExtractsView, bound: int) -> bool {
    forall|i: int|
        0 <= i < ex.symbols.len() ==> (#[trigger] ex.symbols[i]).byte_start <= ex.symbols[i].byte_end
            <= bound
}

proof fn lemma_gathered_placed(cs: Seq<CaptureView>, n: int, bound: int, ranged: bool)
    requires
        0 <= n <= cs.len(),
        forall|i: int| 0 <= i < cs.len() ==> #[trigger] cs[i].row < u32::MAX,
        ranged ==> forall|i: int|
            0 <= i < cs.len() ==> #[trigger] cs[i].start_byte <= cs[i].end_byte <= bound,
    ensures
        lines_from_one(gathered(cs, n)),
        ranged ==> ranges_within(gathered(cs, n), bound),
    decreases n,
{
    if n > 0 {
        lemma_gathered_placed(cs, n - 1, bound, ranged);
        let g = gathered(cs, n - 1);
        let c = cs[n - 1];
        assert(c.row < u32::MAX);
        let line = c.row + 1;
        assert(1 <= line as u32);
        let h = gathered(cs, n);
        assert(h == take_capture(g, c));
        assert forall|i: int| 0 <= i < h.imports.len() implies (#[trigger] h.imports[i]).line >= 1 by {
            if i < g.imports.len() {
                assert(g.imports[i].line >= 1);
            }
        }
        assert forall|i: int| 0 <= i < h.routes.len() implies (#[trigger] h.routes[i]).line >= 1 by {
            if i < g.routes.len() {
                assert(g.routes[i].line >= 1);
            }
        }
        assert forall|i: int| 0 <= i < h.symbols.len() implies (#[trigger] h.symbols[i]).line >= 1 && (ranged
            ==> h.symbols[i].byte_start <= h.symbols[i].byte_end <= bound) by {
            if i < g.symbols.len() {
                assert(h.symbols[i] == g.symbols[i]);
            }
        }
        assert forall|i: int| 0 <= i < h.calls.len() implies (#[trigger] h.calls[i]).line >= 1 by {
            if i < g.calls.len() {
                assert(h.calls[i] == g.calls[i]);
            }
        }
        assert forall|i: int| 0 <= i < h.renders.len() implies (#[trigger] h.renders[i]).line >= 1 by {
            if i < g.renders.len() {
                assert(h.renders[i] == g.renders[i]);
            }
        }
    }
}

/// Extracts from captures whose rows fit a 1-based `u32` line have every
/// line from 1; when the captures' byte ranges lie within `bound`, so do the
/// definitions'.
pub proof fn lemma_extracts_placed(cs: Seq<CaptureView>, bound: int, ranged: bool)
    requires
        forall|i: int| 0 <= i < cs.len() ==> #[trigger] cs[i].row < u32::MAX,
        ranged ==> forall|i: int|
            0 <= i < cs.len() ==> #[trigger] cs[i].start_byte <= cs[i].end_byte <= bound,
    ensures
        lines_from_one(extracts_of(cs)),
        ranged ==> ranges_within(extracts_of(cs), bound),
{
    lemma_gathered_placed(cs, cs.len() as int, bound, ranged);
    let g = gathered(cs, cs.len() as int);
    let ex = extracts_of(cs);
    let keep = |s: RawSymbolView| !shadowed_variable(g.symbols, s);
    let done = |r: RawRouteView| complete_route(r);
    assert forall|i: int| 0 <= i < ex.symbols.len() implies (#[trigger] ex.symbols[i]).line >= 1 && (ranged
        ==> ex.symbols[i].byte_start <= ex.symbols[i].byte_end <= bound) by {
        lemma_select_member(g.symbols, keep, i);
        let j = choose|j: int| 0 <= j < g.symbols.len() && g.symbols[j] == ex.symbols[i];
        assert(g.symbols[j].line >= 1);
    }
    assert forall|i: int| 0 <= i < ex.routes.len() implies (#[trigger] ex.routes[i]).line >= 1 by {
        lemma_select_member(g.routes, done, i);
        let j = choose|j: int| 0 <= j < g.routes.len() && g.routes[j] == ex.routes[i];
        assert(g.routes[j].line >= 1);
    }
}

/// Every route that comes out of extraction has a method, a path and a
/// handler.
pub proof fn lemma_extracted_routes_complete(cs: Seq<CaptureView>)
    ensures
        forall|i: int|
            0 <= i < extracts_of(cs).routes.len() ==> complete_route(#[trigger] extracts_of(cs).routes[i]),
{
    let g = gathered(cs, cs.len() as int);
    assert forall|i: int| 0 <= i < extracts_of(cs).routes.len() implies complete_route(
        #[trigger] extracts_of(cs).routes[i],
    ) by {
        crate::select::lemma_select_member(g.routes, |r: RawRouteView| complete_route(r), i);
    }
}

/// No variable kept by deduplication sits at the site of a function.
pub proof fn lemma_deduped_keeps_no_shadowed_variable(ss: Seq<RawSymbolView>)
    ensures
        forall|i: int| 0 <= i < deduped(ss).len() ==> !shadowed_variable(ss, #[trigger] deduped(ss)[i]),
{
    assert forall|i: int| 0 <= i < deduped(ss).len() implies !shadowed_variable(ss, #[trigger] deduped(ss)[i]) by {
        crate::select::lemma_select_member(ss, |s: RawSymbolView| !shadowed_variable(ss, s), i);
    }
}

} // verus!
