//! Built-in heuristic architecture rules over import statements.
use vstd::prelude::*;

use super::classify::{
    api_module, component_file, data_layer, is_route_file, is_ui_file, looks_like_api_module,
    looks_like_data_layer, looks_like_server_only, route_file, server_only,
};
use crate::models::{ImportRef, ImportRefView};
use crate::order::views;
use crate::text::{
    chars_of, contains, owned, push_chars, push_str, slice_of, starts_with, starts_with_exec,
    string_of, to_ascii_lower, trim, trim_chars, trim_start, trim_start_chars,
};

verus! {

/// An import that breaks one of the built-in rules.
#[derive(Debug, Clone, PartialEq, Eq)]
pub struct RuleViolation {
    pub rule: &'static str,
    pub file: String,
    pub line: u32,
    pub import_target: String,
    pub detail: String,
}

pub struct ViolationView {
    pub rule: Seq<char>,
    pub file: Seq<char>,
    pub line: u32,
    pub import_target: Seq<char>,
    pub detail: Seq<char>,
}

impl View for RuleViolation {
    type V = ViolationView;

    open spec fn view(&self) -> ViolationView {
        ViolationView {
            rule: self.rule@,
            file: self.file@,
            line: self.line,
            import_target: self.import_target@,
            detail: self.detail@,
        }
    }
}

// ---------------------------------------------------------------------------
// `use client` directives
// ---------------------------------------------------------------------------
/// `s` without its leading occurrences of `c`.
pub open spec fn strip_leading(s: Seq<char>, c: char) -> Seq<char>
    decreases s.len(),
{
    if s.len() > 0 && s[0] == c {
        strip_leading(s.drop_first(), c)
    } else {
        s
    }
}

/// `s` without its leading spaces and tabs.
pub open spec fn strip_blanks(s: Seq<char>) -> Seq<char>
    decreases s.len(),
{
    if s.len() > 0 && (s[0] == ' ' || s[0] == '\t') {
        strip_blanks(s.drop_first())
    } else {
        s
    }
}

/// `source` starts with `directive`, followed (after spaces and tabs) by the
/// end of the text, `;`, a line break or a comment.
pub open spec fn directive_prefix(source: Seq<char>, directive: Seq<char>) -> bool {
    starts_with(source, directive) && {
        let rest = strip_blanks(source.subrange(directive.len() as int, source.len() as int));
        ||| rest.len() == 0
        ||| rest[0] == ';'
        ||| rest[0] == '\n'
        ||| rest[0] == '\r'
        ||| starts_with(rest, "//"@)
        ||| starts_with(rest, "/*"@)
    }
}

/// The source begins (after byte-order marks and whitespace) with a
/// `'use client'` or `"use client"` directive.
pub open spec fn use_client(source: Seq<char>) -> bool {
    let t = trim_start(strip_leading(source, '\u{feff}'));
    directive_prefix(t, "'use client'"@) || directive_prefix(t, "\"use client\""@)
}

fn skip_leading(s: &[char], c: char) -> (k: usize)
    ensures
        k <= s.len(),
        strip_leading(s@, c) == s@.subrange(k as int, s@.len() as int),
{
    let mut k: usize = 0;
    assert(s@.subrange(0, s@.len() as int) =~= s@);
    while k < s.len() && s[k] == c
        invariant
            k <= s.len(),
            strip_leading(s@, c) == strip_leading(s@.subrange(k as int, s@.len() as int), c),
        decreases s.len() - k,
    {
        assert(s@.subrange(k as int, s@.len() as int).drop_first() =~= s@.subrange(
            k + 1,
            s@.len() as int,
        ));
        k = k + 1;
    }
    k
}

fn skip_blanks(s: &[char]) -> (k: usize)
    ensures
        k <= s.len(),
        strip_blanks(s@) == s@.subrange(k as int, s@.len() as int),
{
    let mut k: usize = 0;
    assert(s@.subrange(0, s@.len() as int) =~= s@);
    while k < s.len() && (s[k] == ' ' || s[k] == '\t')
        invariant
            k <= s.len(),
            strip_blanks(s@) == strip_blanks(s@.subrange(k as int, s@.len() as int)),
        decreases s.len() - k,
    {
        assert(s@.subrange(k as int, s@.len() as int).drop_first() =~= s@.subrange(
            k + 1,
            s@.len() as int,
        ));
        k = k + 1;
    }
    k
}

/// Whether `source` starts with `directive` as a complete statement.
pub fn matches_directive_prefix(source: &str, directive: &str) -> (r: bool)
    ensures
        r == directive_prefix(source@, directive@),
{
    let s = chars_of(source);
    let d = chars_of(directive);
    directive_prefix_chars(s.as_slice(), d.as_slice())
}

fn directive_prefix_chars(s: &[char], d: &[char]) -> (r: bool)
    ensures
        r == directive_prefix(s@, d@),
{
    if !starts_with_exec(s, d) {
        return false;
    }
    let rest = slice_of(s, d.len(), s.len());
    let k = skip_blanks(rest.as_slice());
    let rest = slice_of(rest.as_slice(), k, rest.len());
    if rest.len() == 0 {
        return true;
    }
    let slashes = chars_of("//");
    let star = chars_of("/*");
    rest[0] == ';' || rest[0] == '\n' || rest[0] == '\r' || starts_with_exec(
        rest.as_slice(),
        slashes.as_slice(),
    ) || starts_with_exec(rest.as_slice(), star.as_slice())
}

/// Whether a source file opens with a `use client` directive.
pub fn has_use_client_directive(source: &str) -> (r: bool)
    ensures
        r == use_client(source@),
{
    let s = chars_of(source);
    let k = skip_leading(s.as_slice(), '\u{feff}');
    let rest = slice_of(s.as_slice(), k, s.len());
    let t = trim_start_chars(rest.as_slice());
    let single = chars_of("'use client'");
    let double = chars_of("\"use client\"");
    directive_prefix_chars(t.as_slice(), single.as_slice()) || directive_prefix_chars(
        t.as_slice(),
        double.as_slice(),
    )
}

// ---------------------------------------------------------------------------
// Rules
// ---------------------------------------------------------------------------
pub open spec fn violation(
    rule: Seq<char>,
    imp: ImportRefView,
    target: Seq<char>,
    detail: Seq<char>,
) -> ViolationView {
    ViolationView {
        rule,
        file: imp.file,
        line: imp.line,
        import_target: imp.imported_name + " from "@ + target,
        detail,
    }
}

/// The violations of one import, given the client files of the project.
pub open spec fn import_violations(imp: ImportRefView, clients: Seq<Seq<char>>) -> Seq<
    ViolationView,
> {
    let target = trim(imp.source_module);
    if target.len() == 0 {
        Seq::empty()
    } else {
        let a = if component_file(imp.file) && data_layer(target) {
            seq![
                violation(
                    "ui-no-db"@,
                    imp,
                    target,
                    "UI/component code should not depend on data-layer modules"@,
                ),
            ]
        } else {
            Seq::empty()
        };
        let b = if route_file(imp.file) && api_module(target) {
            seq![
                violation(
                    "route-no-api-import"@,
                    imp,
                    target,
                    "Route/page files should not import API handler modules"@,
                ),
            ]
        } else {
            Seq::empty()
        };
        let c = if clients.contains(imp.file) && server_only(target) {
            seq![
                violation(
                    "client-no-server"@,
                    imp,
                    target,
                    "Client components should not import server-only modules"@,
                ),
            ]
        } else {
            Seq::empty()
        };
        a + b + c
    }
}

/// The violations of all imports, in order.
pub open spec fn all_violations(imps: Seq<ImportRefView>, clients: Seq<Seq<char>>) -> Seq<
    ViolationView,
>
    decreases imps.len(),
{
    if imps.len() == 0 {
        Seq::empty()
    } else {
        all_violations(imps.drop_last(), clients) + import_violations(imps.last(), clients)
    }
}

fn make_violation(rule: &'static str, imp: &ImportRef, target: &[char], detail: &str) -> (v:
    RuleViolation)
    ensures
        v@ == violation(rule@, imp@, target@, detail@),
{
    let mut t = String::new();
    push_str(&mut t, imp.imported_name.as_str());
    push_str(&mut t, " from ");
    push_chars(&mut t, target);
    assert(t@ =~= imp.imported_name@ + " from "@ + target@);
    RuleViolation {
        rule,
        file: imp.file.clone(),
        line: imp.line,
        import_target: t,
        detail: owned(detail),
    }
}

fn is_listed(files: &Vec<String>, f: &String) -> (r: bool)
    ensures
        r == views(files@).contains(f@),
{
    let mut i: usize = 0;
    while i < files.len()
        invariant
            i <= files.len(),
            forall|j: int| 0 <= j < i ==> files@[j]@ != f@,
        decreases files.len() - i,
    {
        if files[i] == *f {
            assert(views(files@)[i as int] == f@);
            return true;
        }
        i = i + 1;
    }
    assert(!views(files@).contains(f@)) by {
        if views(files@).contains(f@) {
            let k = choose|k: int| 0 <= k < views(files@).len() && views(files@)[k] == f@;
            assert(files@[k]@ == f@);
        }
    }
    false
}

/// The imports that break the built-in rules: UI code importing a data layer
/// (`ui-no-db`), route pages importing API modules (`route-no-api-import`),
/// and client components (files listed in `client_files`) importing
/// server-only modules (`client-no-server`).
pub fn architecture_violations(imports: &Vec<ImportRef>, client_files: &Vec<String>) -> (r: Vec<
    RuleViolation,
>)
    ensures
        views(r@) == all_violations(views(imports@), views(client_files@)),
{
    let mut out: Vec<RuleViolation> = Vec::new();
    let mut i: usize = 0;
    while i < imports.len()
        invariant
            i <= imports.len(),
            views(out@) == all_violations(views(imports@).take(i as int), views(client_files@)),
        decreases imports.len() - i,
    {
        let ghost t = views(imports@).take(i + 1);
        assert(t.drop_last() =~= views(imports@).take(i as int));
        assert(t.last() == imports@[i as int]@);
        let ghost before = views(out@);
        let imp = &imports[i];
        let src = chars_of(imp.source_module.as_str());
        let target = trim_chars(src.as_slice());
        if target.len() > 0 {
            let target_str = string_of(target.as_slice());
            if is_ui_file(imp.file.as_str()) && looks_like_data_layer(target_str.as_str()) {
                out.push(
                    make_violation(
                        "ui-no-db",
                        imp,
                        target.as_slice(),
                        "UI/component code should not depend on data-layer modules",
                    ),
                );
            }
            let ghost after_a = views(out@);
            if is_route_file(imp.file.as_str()) && looks_like_api_module(target_str.as_str()) {
                out.push(
                    make_violation(
                        "route-no-api-import",
                        imp,
                        target.as_slice(),
                        "Route/page files should not import API handler modules",
                    ),
                );
            }
            let ghost after_b = views(out@);
            if is_listed(client_files, &imp.file) && looks_like_server_only(target_str.as_str()) {
                out.push(
                    make_violation(
                        "client-no-server",
                        imp,
                        target.as_slice(),
                        "Client components should not import server-only modules",
                    ),
                );
            }
            assert(views(out@) =~= before + import_violations(imp@, views(client_files@)));
        } else {
            assert(import_violations(imp@, views(client_files@)) =~= Seq::<ViolationView>::empty());
            assert(views(out@) =~= before + import_violations(imp@, views(client_files@)));
        }
        assert(views(out@) =~= all_violations(t, views(client_files@)));
        i = i + 1;
    }
    assert(views(imports@).take(imports.len() as int) =~= views(imports@));
    out
}


/// The violations of one import are among those of every list of imports
/// that holds it.
proof fn lemma_import_violations_in_all(imps: Seq<ImportRefView>, clients: Seq<Seq<char>>, i: int, k: int)
    requires
        0 <= i < imps.len(),
        0 <= k < import_violations(imps[i], clients).len(),
    ensures
        all_violations(imps, clients).contains(import_violations(imps[i], clients)[k]),
    decreases imps.len(),
{
    let rest = all_violations(imps.drop_last(), clients);
    let v = import_violations(imps[i], clients)[k];
    if i == imps.len() - 1 {
        assert(all_violations(imps, clients)[rest.len() + k] == v);
    } else {
        lemma_import_violations_in_all(imps.drop_last(), clients, i, k);
        let m = choose|m: int| 0 <= m < rest.len() && rest[m] == v;
        assert(all_violations(imps, clients)[m] == v);
    }
}

/// Client components must not import server-only modules: an import of a
/// listed client file whose target, trimmed and written without capitals,
/// is `fs`, `path`, `child_process`, `net`, `tls` or `server-only`, or holds
/// `/server` or `db`, is reported as `client-no-server` at that import.
pub proof fn lemma_client_server_imports_reported(imps: Seq<ImportRefView>, clients: Seq<Seq<char>>, i: int)
    requires
        0 <= i < imps.len(),
        clients.contains(imps[i].file),
        forall|k: int|
            0 <= k < trim(imps[i].source_module).len() ==> !('A' <= #[trigger] trim(
                imps[i].source_module,
            )[k] <= 'Z'),
        ({
            let t = trim(imps[i].source_module);
            ||| t == "fs"@
            ||| t == "path"@
            ||| t == "child_process"@
            ||| t == "net"@
            ||| t == "tls"@
            ||| t == "server-only"@
            ||| contains(t, "/server"@)
            ||| contains(t, "db"@)
        }),
    ensures
        all_violations(imps, clients).contains(
            ViolationView {
                rule: "client-no-server"@,
                file: imps[i].file,
                line: imps[i].line,
                import_target: imps[i].imported_name + " from "@ + trim(imps[i].source_module),
                detail: "Client components should not import server-only modules"@,
            },
        ),
{
    let imp = imps[i];
    let t = trim(imp.source_module);
    assert(to_ascii_lower(t) =~= t);
    reveal_strlit("fs");
    reveal_strlit("path");
    reveal_strlit("child_process");
    reveal_strlit("net");
    reveal_strlit("tls");
    reveal_strlit("server-only");
    reveal_strlit("/server");
    reveal_strlit("db");
    assert(t.len() > 0);
    assert(server_only(t));
    let vs = import_violations(imp, clients);
    assert(vs.len() > 0);
    assert(vs[vs.len() - 1].rule == "client-no-server"@);
    lemma_import_violations_in_all(imps, clients, i, vs.len() - 1);
}

} // verus!
