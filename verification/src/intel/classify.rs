//! Heuristic classification of files and symbols: routes, handlers,
//! components, UI files and module kinds.
use vstd::prelude::*;

use crate::models::{Symbol, SymbolView};
use crate::paths::{join_parts, join_parts_exec, split_exec, split_on};
use crate::order::views;
use crate::select::select;
use crate::text::{
    chars_of, contains, contains_exec, decimal, ends_with, ends_with_exec, push_chars, push_decimal,
    push_str, replace_char, replace_char_exec, rfind_char, rfind_char_exec, slice_eq, slice_of,
    starts_with, starts_with_exec, string_of, to_ascii_lower, to_ascii_lower_exec,
};

verus! {

// ---------------------------------------------------------------------------
// Specification
// ---------------------------------------------------------------------------
/// Backslashes turned into forward slashes.
pub open spec fn normalized(path: Seq<char>) -> Seq<char> {
    replace_char(path, '\\', seq!['/'])
}

/// What follows the last `/` (the whole path when there is none).
pub open spec fn last_segment(path: Seq<char>) -> Seq<char> {
    match rfind_char(path, '/') {
        Some(i) => path.subrange(i + 1, path.len() as int),
        None => path,
    }
}

/// A Next.js page or layout file name.
pub open spec fn is_page_or_layout(name: Seq<char>) -> bool {
    name == "page.tsx"@ || name == "page.ts"@ || name == "page.jsx"@ || name == "page.js"@ || name
        == "layout.tsx"@ || name == "layout.ts"@ || name == "layout.jsx"@ || name
        == "layout.js"@
}

/// A page or layout under `app/`.
pub open spec fn route_file(file: Seq<char>) -> bool {
    let f = normalized(file);
    starts_with(f, "app/"@) && is_page_or_layout(last_segment(f))
}

/// An API route handler file.
pub open spec fn handler_file(file: Seq<char>) -> bool {
    let f = normalized(file);
    ||| starts_with(f, "app/api/"@)
    ||| ends_with(f, "/route.ts"@)
    ||| ends_with(f, "/route.tsx"@)
    ||| ends_with(f, "/route.js"@)
    ||| ends_with(f, "/route.jsx"@)
    ||| starts_with(f, "pages/api/"@)
}

/// A file under a `components` directory.
pub open spec fn component_file(file: Seq<char>) -> bool {
    let f = normalized(file);
    contains(f, "/components/"@) || starts_with(f, "components/"@)
}

/// A name that starts with an ASCII capital and has no underscore.
pub open spec fn pascal_case(name: Seq<char>) -> bool {
    name.len() > 0 && 'A' <= name[0] && name[0] <= 'Z' && !name.contains('_')
}

pub open spec fn component_symbol(s: SymbolView) -> bool {
    (s.kind == "function"@ || s.kind == "class"@ || s.kind == "variable"@) && pascal_case(s.name)
        && component_file(s.file)
}

/// Kinds that are not references (`call`, `import`, `render`).
pub open spec fn definition_kind(kind: Seq<char>) -> bool {
    !(kind == "call"@ || kind == "import"@ || kind == "render"@)
}

/// The semantic kind of a symbol, from its file first and its kind second.
pub open spec fn semantic_kind_of(s: SymbolView) -> Seq<char> {
    if route_file(s.file) {
        "route"@
    } else if handler_file(s.file) {
        "handler"@
    } else if component_symbol(s) {
        "component"@
    } else if s.kind == "render"@ {
        "render"@
    } else if s.kind == "call"@ {
        "call"@
    } else if s.kind == "import"@ {
        "import"@
    } else if s.kind == "class"@ || s.kind == "struct"@ || s.kind == "enum"@ || s.kind == "type"@
        || s.kind == "interface"@ {
        "class"@
    } else if s.kind == "function"@ {
        "function"@
    } else if s.kind == "method"@ {
        "method"@
    } else if s.kind == "variable"@ {
        "variable"@
    } else {
        "other"@
    }
}

/// A path segment that contributes to a route: not the page/layout file and
/// not a `(group)` directory.
pub open spec fn route_segment(seg: Seq<char>) -> bool {
    !is_page_or_layout(seg) && !(starts_with(seg, "("@) && ends_with(seg, ")"@))
}

/// The URL route of a Next.js page or layout file.
pub open spec fn route_path_of(file: Seq<char>) -> Option<Seq<char>> {
    let f = normalized(file);
    if !starts_with(f, "app/"@) || !is_page_or_layout(last_segment(f)) {
        None
    } else {
        Some("/"@ + join_parts(select(split_on(f, '/').drop_first(), |seg: Seq<char>| route_segment(seg))))
    }
}

/// `name (short/path:line)`, or for routes `route (short/path:line)`.
pub open spec fn semantic_label_of(s: SymbolView) -> Seq<char> {
    let location = last_segment(s.file) + ":"@ + decimal(s.line as nat);
    if semantic_kind_of(s) == "route"@ {
        let route = match route_path_of(s.file) {
            Some(r) => r,
            None => s.file,
        };
        route + " ("@ + location + ")"@
    } else {
        s.name + " ("@ + location + ")"@
    }
}

/// The import target names a database layer.
pub open spec fn data_layer(target: Seq<char>) -> bool {
    let lower = to_ascii_lower(target);
    contains(lower, "db"@) || contains(lower, "prisma"@) || contains(lower, "postgres"@)
        || contains(lower, "sqlite"@) || contains(lower, "mongodb"@)
}

/// The import target names an API module.
pub open spec fn api_module(target: Seq<char>) -> bool {
    let lower = to_ascii_lower(target);
    contains(lower, "/api"@) || contains(lower, "route.ts"@) || ends_with(lower, "/route"@)
}

/// The import target names a server-only module.
pub open spec fn server_only(target: Seq<char>) -> bool {
    let lower = to_ascii_lower(target);
    ||| lower == "fs"@
    ||| lower == "path"@
    ||| lower == "child_process"@
    ||| lower == "net"@
    ||| lower == "tls"@
    ||| lower == "server-only"@
    ||| contains(lower, "/server"@)
    ||| data_layer(lower)
}

// ---------------------------------------------------------------------------
// Implementation
// ---------------------------------------------------------------------------
/// Backslashes turned into forward slashes.
pub fn normalize_rel_path(path: &str) -> (r: String)
    ensures
        r@ == normalized(path@),
{
    let n = normalized_chars(path);
    string_of(n.as_slice())
}

pub fn normalized_chars(path: &str) -> (r: Vec<char>)
    ensures
        r@ == normalized(path@),
{
    let cs = chars_of(path);
    let slash = vec!['/'];
    assert(slash@ =~= seq!['/']);
    replace_char_exec(cs.as_slice(), '\\', slash.as_slice())
}

pub fn last_segment_exec(path: &[char]) -> (r: Vec<char>)
    ensures
        r@ == last_segment(path@),
{
    match rfind_char_exec(path, '/') {
        Some(i) => {
            proof {
                crate::paths::lemma_rfind_char_bound(path@, '/', i as int);
            }
            assert(i < path.len());
            slice_of(path, i + 1, path.len())
        },
        None => {
            let r = slice_of(path, 0, path.len());
            assert(path@.subrange(0, path@.len() as int) =~= path@);
            r
        },
    }
}

/// The file name part of a `/`-separated path.
pub fn short_path(path: &str) -> (r: String)
    ensures
        r@ == last_segment(path@),
{
    let cs = chars_of(path);
    let s = last_segment_exec(cs.as_slice());
    string_of(s.as_slice())
}

fn eq_lit(s: &[char], lit: &str) -> (r: bool)
    ensures
        r == (s@ == lit@),
{
    let l = chars_of(lit);
    slice_eq(s, l.as_slice())
}

fn starts_lit(s: &[char], lit: &str) -> (r: bool)
    ensures
        r == starts_with(s@, lit@),
{
    let l = chars_of(lit);
    starts_with_exec(s, l.as_slice())
}

fn ends_lit(s: &[char], lit: &str) -> (r: bool)
    ensures
        r == ends_with(s@, lit@),
{
    let l = chars_of(lit);
    ends_with_exec(s, l.as_slice())
}

fn contains_lit(s: &[char], lit: &str) -> (r: bool)
    ensures
        r == contains(s@, lit@),
{
    let l = chars_of(lit);
    contains_exec(s, l.as_slice())
}

fn page_or_layout(name: &[char]) -> (r: bool)
    ensures
        r == is_page_or_layout(name@),
{
    eq_lit(name, "page.tsx") || eq_lit(name, "page.ts") || eq_lit(name, "page.jsx") || eq_lit(
        name,
        "page.js",
    ) || eq_lit(name, "layout.tsx") || eq_lit(name, "layout.ts") || eq_lit(name, "layout.jsx")
        || eq_lit(name, "layout.js")
}

/// A page or layout file under `app/`.
pub fn is_route_file(file: &str) -> (r: bool)
    ensures
        r == route_file(file@),
{
    let f = normalized_chars(file);
    if !starts_lit(f.as_slice(), "app/") {
        return false;
    }
    let last = last_segment_exec(f.as_slice());
    page_or_layout(last.as_slice())
}

/// An API route handler file.
pub fn is_handler_file(file: &str) -> (r: bool)
    ensures
        r == handler_file(file@),
{
    let f = normalized_chars(file);
    let f = f.as_slice();
    starts_lit(f, "app/api/") || ends_lit(f, "/route.ts") || ends_lit(f, "/route.tsx") || ends_lit(
        f,
        "/route.js",
    ) || ends_lit(f, "/route.jsx") || starts_lit(f, "pages/api/")
}

/// A file under a `components` directory.
pub fn is_component_file(file: &str) -> (r: bool)
    ensures
        r == component_file(file@),
{
    let f = normalized_chars(file);
    contains_lit(f.as_slice(), "/components/") || starts_lit(f.as_slice(), "components/")
}

/// A UI file: one under a `components` directory.
pub fn is_ui_file(file: &str) -> (r: bool)
    ensures
        r == component_file(file@),
{
    let f = normalized_chars(file);
    starts_lit(f.as_slice(), "components/") || contains_lit(f.as_slice(), "/components/")
}

/// Starts with an ASCII capital letter and contains no underscore.
pub fn is_pascal_case(name: &str) -> (r: bool)
    ensures
        r == pascal_case(name@),
{
    let cs = chars_of(name);
    if cs.len() == 0 {
        return false;
    }
    if !('A' <= cs[0] && cs[0] <= 'Z') {
        return false;
    }
    let mut i: usize = 0;
    while i < cs.len()
        invariant
            i <= cs.len(),
            cs@ == name@,
            forall|j: int| 0 <= j < i ==> cs@[j] != '_',
        decreases cs.len() - i,
    {
        if cs[i] == '_' {
            assert(name@.contains(cs@[i as int]));
            return false;
        }
        i = i + 1;
    }
    true
}

/// A function, class or variable with a PascalCase name in a components
/// directory.
pub fn is_component_symbol(symbol: &Symbol) -> (r: bool)
    ensures
        r == component_symbol(symbol@),
{
    let k = chars_of(symbol.kind.as_str());
    (eq_lit(k.as_slice(), "function") || eq_lit(k.as_slice(), "class") || eq_lit(
        k.as_slice(),
        "variable",
    )) && is_pascal_case(symbol.name.as_str()) && is_component_file(symbol.file.as_str())
}

/// A definition kind: anything but a call, an import or a render.
pub fn is_definition_kind(kind: &str) -> (r: bool)
    ensures
        r == definition_kind(kind@),
{
    let k = chars_of(kind);
    !(eq_lit(k.as_slice(), "call") || eq_lit(k.as_slice(), "import") || eq_lit(
        k.as_slice(),
        "render",
    ))
}

/// The semantic kind of a symbol: `route`, `handler` or `component` from its
/// file and name, else derived from its kind.
pub fn semantic_kind(symbol: &Symbol) -> (r: &'static str)
    ensures
        r@ == semantic_kind_of(symbol@),
{
    if is_route_file(symbol.file.as_str()) {
        return "route";
    }
    if is_handler_file(symbol.file.as_str()) {
        return "handler";
    }
    if is_component_symbol(symbol) {
        return "component";
    }
    let k = chars_of(symbol.kind.as_str());
    let k = k.as_slice();
    if eq_lit(k, "render") {
        "render"
    } else if eq_lit(k, "call") {
        "call"
    } else if eq_lit(k, "import") {
        "import"
    } else if eq_lit(k, "class") || eq_lit(k, "struct") || eq_lit(k, "enum") || eq_lit(k, "type")
        || eq_lit(k, "interface") {
        "class"
    } else if eq_lit(k, "function") {
        "function"
    } else if eq_lit(k, "method") {
        "method"
    } else if eq_lit(k, "variable") {
        "variable"
    } else {
        "other"
    }
}

fn is_route_segment(seg: &[char]) -> (r: bool)
    ensures
        r == route_segment(seg@),
{
    !page_or_layout(seg) && !(starts_lit(seg, "(") && ends_lit(seg, ")"))
}

/// The URL route of a Next.js page or layout file under `app/`, such as `/`
/// for `app/page.tsx` and `/blog` for `app/(site)/blog/page.tsx`.
pub fn route_path_for_file(file: &str) -> (r: Option<String>)
    ensures
        r matches Some(s) ==> route_path_of(file@) == Some(s@),
        r is None ==> route_path_of(file@) is None,
{
    let f = normalized_chars(file);
    if !starts_lit(f.as_slice(), "app/") {
        return None;
    }
    let last = last_segment_exec(f.as_slice());
    if !page_or_layout(last.as_slice()) {
        return None;
    }
    let pieces = split_exec(f.as_slice(), '/');
    let ghost all = views(pieces@);
    let ghost p = |seg: Seq<char>| route_segment(seg);
    let mut segs: Vec<Vec<char>> = Vec::new();
    let mut i: usize = 1;
    proof {
        crate::paths::lemma_split_on_nonempty(f@, '/');
    }
    assert(all.drop_first().take(0) =~= Seq::<Seq<char>>::empty());
    while i < pieces.len()
        invariant
            1 <= i <= pieces.len(),
            all == views(pieces@),
            p == (|seg: Seq<char>| route_segment(seg)),
            segs.len() == select(all.drop_first().take(i - 1), p).len(),
            views(segs@) == select(all.drop_first().take(i - 1), p),
        decreases pieces.len() - i,
    {
        let ghost t = all.drop_first().take(i as int);
        assert(t.drop_last() =~= all.drop_first().take(i - 1));
        assert(t.last() == pieces@[i as int]@);
        if is_route_segment(pieces[i].as_slice()) {
            let c = slice_of(pieces[i].as_slice(), 0, pieces[i].len());
            assert(c@ =~= pieces@[i as int]@);
            let ghost before = segs@;
            segs.push(c);
            assert(views(segs@) =~= views(before).push(c@));
        }
        assert(views(segs@) =~= select(t, p));
        i = i + 1;
    }
    assert(all.drop_first().take(pieces.len() - 1) =~= all.drop_first());
    let joined = join_parts_exec(&segs);
    let mut r = String::new();
    push_str(&mut r, "/");
    push_chars(&mut r, joined.as_slice());
    assert(r@ =~= "/"@ + joined@);
    Some(r)
}

/// `name (file:line)`; for routes, the URL route in place of the name.
pub fn semantic_label(symbol: &Symbol) -> (r: String)
    ensures
        r@ == semantic_label_of(symbol@),
{
    let file = chars_of(symbol.file.as_str());
    let short = last_segment_exec(file.as_slice());
    let mut location = String::new();
    push_chars(&mut location, short.as_slice());
    push_str(&mut location, ":");
    push_decimal(&mut location, symbol.line as u64);
    let kind = semantic_kind(symbol);
    let mut r = String::new();
    let kc = chars_of(kind);
    if eq_lit(kc.as_slice(), "route") {
        match route_path_for_file(symbol.file.as_str()) {
            Some(route) => push_str(&mut r, route.as_str()),
            None => push_str(&mut r, symbol.file.as_str()),
        }
    } else {
        push_str(&mut r, symbol.name.as_str());
    }
    push_str(&mut r, " (");
    push_str(&mut r, location.as_str());
    push_str(&mut r, ")");
    proof {
        let loc = last_segment(symbol.file@) + ":"@ + decimal(symbol.line as nat);
        assert(location@ =~= loc);
    }
    assert(r@ =~= semantic_label_of(symbol@));
    r
}

/// The import target looks like a database layer module.
pub fn looks_like_data_layer(import_target: &str) -> (r: bool)
    ensures
        r == data_layer(import_target@),
{
    let cs = chars_of(import_target);
    let lower = to_ascii_lower_exec(cs.as_slice());
    data_layer_lower(lower.as_slice())
}

fn data_layer_lower(lower: &[char]) -> (r: bool)
    ensures
        r == (contains(lower@, "db"@) || contains(lower@, "prisma"@) || contains(lower@, "postgres"@)
            || contains(lower@, "sqlite"@) || contains(lower@, "mongodb"@)),
{
    contains_lit(lower, "db") || contains_lit(lower, "prisma") || contains_lit(lower, "postgres")
        || contains_lit(lower, "sqlite") || contains_lit(lower, "mongodb")
}

/// The import target looks like an API module.
pub fn looks_like_api_module(import_target: &str) -> (r: bool)
    ensures
        r == api_module(import_target@),
{
    let cs = chars_of(import_target);
    let lower = to_ascii_lower_exec(cs.as_slice());
    let l = lower.as_slice();
    contains_lit(l, "/api") || contains_lit(l, "route.ts") || ends_lit(l, "/route")
}

pub proof fn lemma_lower_idempotent(s: Seq<char>)
    ensures
        to_ascii_lower(to_ascii_lower(s)) == to_ascii_lower(s),
{
    assert(to_ascii_lower(to_ascii_lower(s)) =~= to_ascii_lower(s));
}

/// The import target looks like a server-only module.
pub fn looks_like_server_only(import_target: &str) -> (r: bool)
    ensures
        r == server_only(import_target@),
{
    let cs = chars_of(import_target);
    let lower = to_ascii_lower_exec(cs.as_slice());
    let l = lower.as_slice();
    proof {
        lemma_lower_idempotent(import_target@);
    }
    eq_lit(l, "fs") || eq_lit(l, "path") || eq_lit(l, "child_process") || eq_lit(l, "net")
        || eq_lit(l, "tls") || eq_lit(l, "server-only") || contains_lit(l, "/server")
        || data_layer_lower(l)
}

} // verus!
