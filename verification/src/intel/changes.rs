//! What changed in the working tree against `HEAD`, as extracted signatures:
//! definitions, and the calls, renders and imports a file makes.
use vstd::prelude::*;

use super::classify::{normalize_rel_path, normalized};
use crate::extractor::{FileExtracts, FileExtractsView, RawCallView, RawImportView, RawRenderView, RawSymbolView};
use crate::lang::{detect_lang, lang_of_path};
use crate::order::{lemma_push_to_set, lemma_views_push, sort_unique, sorted_difference, strictly_sorted, views, Ordered};
use crate::text::{
    decimal, lemma_decimal_digits, lemma_decimal_injective, owned, push_decimal, push_str, seq_lt,
};

verus! {

/// At most this many items of each kind are reported.
pub const MAX_CHANGE_ITEMS: usize = 12;

/// The changes of the working tree: the changed files, and the first
/// signatures (in sorted order) added and removed.
#[derive(Debug, Clone, Default)]
pub struct ChangeSummary {
    pub changed_files: Vec<String>,
    pub added_symbols: Vec<String>,
    pub removed_symbols: Vec<String>,
    pub added_edges: Vec<String>,
    pub removed_edges: Vec<String>,
}

/// A changed path with what its working copy and its `HEAD` version yield
/// (empty extracts where a version is missing or cannot be read).
#[derive(Debug)]
pub struct ChangedFile {
    pub path: String,
    pub current: FileExtracts,
    pub head: FileExtracts,
}

pub struct ChangedFileView {
    pub path: Seq<char>,
    pub current: FileExtractsView,
    pub head: FileExtractsView,
}

impl View for ChangedFile {
    type V = ChangedFileView;

    open spec fn view(&self) -> ChangedFileView {
        ChangedFileView { path: self.path@, current: self.current@, head: self.head@ }
    }
}

// ---------------------------------------------------------------------------
// Specification
// ---------------------------------------------------------------------------
pub open spec fn symbol_sig(s: RawSymbolView) -> Seq<char> {
    s.name + ":"@ + s.kind + ":"@ + decimal(s.line as nat) + ":"@ + decimal(s.col as nat)
}

pub open spec fn call_sig(c: RawCallView) -> Seq<char> {
    "calls:"@ + c.callee_name + ":"@ + decimal(c.line as nat)
}

pub open spec fn render_sig(r: RawRenderView) -> Seq<char> {
    "renders:"@ + r.component_name + ":"@ + decimal(r.line as nat)
}

pub open spec fn import_sig(i: RawImportView) -> Seq<char> {
    "imports:"@ + i.imported_name + ":"@ + i.source_module + ":"@ + decimal(i.line as nat)
}

pub open spec fn symbol_sigs(ex: FileExtractsView) -> Set<Seq<char>> {
    ex.symbols.map_values(|s: RawSymbolView| symbol_sig(s)).to_set()
}

/// The references a file makes: its calls, renders and imports.
pub open spec fn ref_sigs(ex: FileExtractsView) -> Set<Seq<char>> {
    ex.calls.map_values(|c: RawCallView| call_sig(c)).to_set() + ex.renders.map_values(
        |r: RawRenderView| render_sig(r),
    ).to_set() + ex.imports.map_values(|i: RawImportView| import_sig(i)).to_set()
}

/// `+ sig (file)` or `- sig (file)`.
pub open spec fn marked(sign: char, sig: Seq<char>, file: Seq<char>) -> Seq<char> {
    seq![sign, ' '] + sig + " ("@ + file + ")"@
}

pub open spec fn marked_set(sign: char, sigs: Set<Seq<char>>, file: Seq<char>) -> Set<Seq<char>> {
    sigs.map(|s: Seq<char>| marked(sign, s, file))
}

/// The four kinds of reported change.
pub enum ChangeKind {
    AddedSymbol,
    RemovedSymbol,
    AddedEdge,
    RemovedEdge,
}

/// The changes of one file of kind `k`, between `cur` and `head`.
pub open spec fn file_changes(k: ChangeKind, file: Seq<char>, cur: FileExtractsView, head: FileExtractsView) -> Set<Seq<char>> {
    match k {
        ChangeKind::AddedSymbol => marked_set('+', symbol_sigs(cur).difference(symbol_sigs(head)), file),
        ChangeKind::RemovedSymbol => marked_set('-', symbol_sigs(head).difference(symbol_sigs(cur)), file),
        ChangeKind::AddedEdge => marked_set('+', ref_sigs(cur).difference(ref_sigs(head)), file),
        ChangeKind::RemovedEdge => marked_set('-', ref_sigs(head).difference(ref_sigs(cur)), file),
    }
}

/// The changes of kind `k` of the first `n` files, counting only files of a
/// supported language.
pub open spec fn all_changes(k: ChangeKind, files: Seq<ChangedFileView>, n: int) -> Set<Seq<char>>
    decreases n,
{
    if n <= 0 {
        Set::empty()
    } else {
        let f = files[n - 1];
        let path = normalized(f.path);
        all_changes(k, files, n - 1) + if lang_of_path(path) is Some {
            file_changes(k, path, f.current, f.head)
        } else {
            Set::empty()
        }
    }
}

/// `r` is the first `max` of `items` in sorted order (all of them when there
/// are fewer), without repeats.
pub open spec fn first_sorted(r: Seq<Seq<char>>, items: Set<Seq<char>>, max: nat) -> bool {
    &&& strictly_sorted::<String>(r)
    &&& r.len() <= max
    &&& forall|i: int| 0 <= i < r.len() ==> items.contains(#[trigger] r[i])
    &&& forall|x: Seq<char>, i: int|
        #![trigger items.contains(x), r[i]]
        0 <= i < r.len() && items.contains(x) && !r.contains(x) ==> seq_lt(r[i], x)
    &&& r.len() < max ==> r.to_set() == items
}

// ---------------------------------------------------------------------------
// Implementation
// ---------------------------------------------------------------------------
/// Sorted, without repeats, and cut to `MAX_CHANGE_ITEMS`.
pub fn take_limited(items: Vec<String>) -> (r: Vec<String>)
    ensures
        first_sorted(views(r@), views(items@).to_set(), MAX_CHANGE_ITEMS as nat),
{
    let ghost all = views(items@).to_set();
    let sorted = sort_unique(items);
    let ghost s = views(sorted@);
    let mut r: Vec<String> = Vec::new();
    let mut i: usize = 0;
    while i < sorted.len() && i < MAX_CHANGE_ITEMS
        invariant
            i <= sorted.len(),
            i <= MAX_CHANGE_ITEMS,
            s == views(sorted@),
            views(r@) == s.take(i as int),
        decreases sorted.len() - i,
    {
        let ghost before = r@;
        r.push(sorted[i].clone());
        proof {
            lemma_views_push(before, sorted@[i as int]);
            assert(s.take(i + 1) =~= s.take(i as int).push(s[i as int]));
        }
        i = i + 1;
    }
    proof {
        let t = views(r@);
        assert forall|a: int, b: int| 0 <= a < b < t.len() implies String::view_lt(t[a], t[b]) by {
            assert(t[a] == s[a] && t[b] == s[b]);
        }
        assert forall|j: int| 0 <= j < t.len() implies all.contains(#[trigger] t[j]) by {
            assert(t[j] == s[j]);
            assert(s.to_set().contains(s[j]));
        }
        assert forall|x: Seq<char>, j: int|
            #![trigger all.contains(x), t[j]]
            0 <= j < t.len() && all.contains(x) && !t.contains(x) implies seq_lt(t[j], x) by {
            assert(s.to_set().contains(x));
            let k = choose|k: int| 0 <= k < s.len() && s[k] == x;
            if k < t.len() {
                assert(t[k] == x);
            }
            assert(t[j] == s[j]);
            assert(String::view_lt(s[j], s[k]));
        }
        if t.len() < MAX_CHANGE_ITEMS {
            assert(t =~= s);
        }
    }
    r
}

fn symbol_sig_string(s: &crate::extractor::RawSymbol) -> (r: String)
    ensures
        r@ == symbol_sig(s@),
{
    let mut out = owned(s.name.as_str());
    push_str(&mut out, ":");
    push_str(&mut out, s.kind.as_str());
    push_str(&mut out, ":");
    push_decimal(&mut out, s.line as u64);
    push_str(&mut out, ":");
    push_decimal(&mut out, s.col as u64);
    out
}

/// The signatures of a file's definitions, sorted and without repeats.
fn symbol_signatures(ex: &FileExtracts) -> (r: Vec<String>)
    ensures
        strictly_sorted::<String>(views(r@)),
        views(r@).to_set() == symbol_sigs(ex@),
{
    let ghost syms = ex@.symbols;
    let mut sigs: Vec<String> = Vec::new();
    let mut i: usize = 0;
    while i < ex.symbols.len()
        invariant
            i <= ex.symbols.len(),
            syms == ex@.symbols,
            views(sigs@) == syms.take(i as int).map_values(|s: RawSymbolView| symbol_sig(s)),
        decreases ex.symbols.len() - i,
    {
        let sig = symbol_sig_string(&ex.symbols[i]);
        let ghost before = sigs@;
        sigs.push(sig);
        proof {
            lemma_views_push(before, sig);
            assert(syms[i as int] == ex.symbols@[i as int]@);
            assert(syms.take(i + 1).map_values(|s: RawSymbolView| symbol_sig(s)) =~= syms.take(
                i as int,
            ).map_values(|s: RawSymbolView| symbol_sig(s)).push(symbol_sig(syms[i as int])));
        }
        i = i + 1;
    }
    assert(syms.take(i as int) =~= syms);
    sort_unique(sigs)
}

/// The signatures of the references a file makes (`calls:NAME:LINE`,
/// `renders:NAME:LINE`, `imports:NAME:SOURCE:LINE`), sorted and without
/// repeats.
pub fn extract_ref_signatures(ex: &FileExtracts) -> (r: Vec<String>)
    ensures
        strictly_sorted::<String>(views(r@)),
        views(r@).to_set() == ref_sigs(ex@),
{
    let ghost e = ex@;
    let mut sigs: Vec<String> = Vec::new();
    let mut i: usize = 0;
    while i < ex.calls.len()
        invariant
            i <= ex.calls.len(),
            e == ex@,
            views(sigs@) == e.calls.take(i as int).map_values(|c: RawCallView| call_sig(c)),
        decreases ex.calls.len() - i,
    {
        let c = &ex.calls[i];
        let mut sig = owned("calls:");
        push_str(&mut sig, c.callee_name.as_str());
        push_str(&mut sig, ":");
        push_decimal(&mut sig, c.line as u64);
        let ghost before = sigs@;
        sigs.push(sig);
        proof {
            lemma_views_push(before, sig);
            assert(e.calls[i as int] == c@);
            assert(e.calls.take(i + 1).map_values(|c: RawCallView| call_sig(c)) =~= e.calls.take(
                i as int,
            ).map_values(|c: RawCallView| call_sig(c)).push(call_sig(c@)));
        }
        i = i + 1;
    }
    assert(e.calls.take(i as int) =~= e.calls);
    let ghost calls = views(sigs@);
    let mut j: usize = 0;
    while j < ex.renders.len()
        invariant
            j <= ex.renders.len(),
            e == ex@,
            views(sigs@) == calls + e.renders.take(j as int).map_values(|r: RawRenderView| render_sig(r)),
        decreases ex.renders.len() - j,
    {
        let r = &ex.renders[j];
        let mut sig = owned("renders:");
        push_str(&mut sig, r.component_name.as_str());
        push_str(&mut sig, ":");
        push_decimal(&mut sig, r.line as u64);
        let ghost before = sigs@;
        sigs.push(sig);
        proof {
            lemma_views_push(before, sig);
            assert(e.renders[j as int] == r@);
            assert(e.renders.take(j + 1).map_values(|r: RawRenderView| render_sig(r)) =~= e.renders.take(
                j as int,
            ).map_values(|r: RawRenderView| render_sig(r)).push(render_sig(r@)));
            assert(views(sigs@) =~= calls + e.renders.take(j + 1).map_values(
                |r: RawRenderView| render_sig(r),
            ));
        }
        j = j + 1;
    }
    assert(e.renders.take(j as int) =~= e.renders);
    let ghost renders = views(sigs@);
    let mut k: usize = 0;
    while k < ex.imports.len()
        invariant
            k <= ex.imports.len(),
            e == ex@,
            views(sigs@) == renders + e.imports.take(k as int).map_values(
                |i: RawImportView| import_sig(i),
            ),
        decreases ex.imports.len() - k,
    {
        let imp = &ex.imports[k];
        let mut sig = owned("imports:");
        push_str(&mut sig, imp.imported_name.as_str());
        push_str(&mut sig, ":");
        push_str(&mut sig, imp.source_module.as_str());
        push_str(&mut sig, ":");
        push_decimal(&mut sig, imp.line as u64);
        let ghost before = sigs@;
        sigs.push(sig);
        proof {
            lemma_views_push(before, sig);
            assert(e.imports[k as int] == imp@);
            assert(e.imports.take(k + 1).map_values(|i: RawImportView| import_sig(i)) =~= e.imports.take(
                k as int,
            ).map_values(|i: RawImportView| import_sig(i)).push(import_sig(imp@)));
            assert(views(sigs@) =~= renders + e.imports.take(k + 1).map_values(
                |i: RawImportView| import_sig(i),
            ));
        }
        k = k + 1;
    }
    assert(e.imports.take(k as int) =~= e.imports);
    proof {
        let a = e.calls.map_values(|c: RawCallView| call_sig(c));
        let b = e.renders.map_values(|r: RawRenderView| render_sig(r));
        let c = e.imports.map_values(|i: RawImportView| import_sig(i));
        assert(views(sigs@) =~= a + b + c);
        assert((a + b + c).to_set() =~= a.to_set() + b.to_set() + c.to_set()) by {
            vstd::seq_lib::seq_to_set_distributes_over_add(a, b);
            vstd::seq_lib::seq_to_set_distributes_over_add(a + b, c);
        }
    }
    sort_unique(sigs)
}

proof fn lemma_marked_insert(sign: char, s: Set<Seq<char>>, a: Seq<char>, file: Seq<char>)
    ensures
        marked_set(sign, s.insert(a), file) == marked_set(sign, s, file).insert(marked(sign, a, file)),
{
    let lhs = marked_set(sign, s.insert(a), file);
    let rhs = marked_set(sign, s, file).insert(marked(sign, a, file));
    assert forall|e: Seq<char>| lhs.contains(e) implies rhs.contains(e) by {
        let y = choose|y: Seq<char>| s.insert(a).contains(y) && e == marked(sign, y, file);
        if y != a {
            assert(s.contains(y));
            assert(marked_set(sign, s, file).contains(e));
        }
    }
    assert forall|e: Seq<char>| rhs.contains(e) implies lhs.contains(e) by {
        if e == marked(sign, a, file) {
            assert(s.insert(a).contains(a));
        } else {
            let y = choose|y: Seq<char>| s.contains(y) && e == marked(sign, y, file);
            assert(s.insert(a).contains(y));
        }
    }
    assert(lhs =~= rhs);
}

/// Appends `sign sig (file)` for each signature.
fn push_marked(out: &mut Vec<String>, sign: char, sigs: &Vec<String>, file: &str)
    ensures
        views(final(out)@).to_set() == views(old(out)@).to_set() + marked_set(
            sign,
            views(sigs@).to_set(),
            file@,
        ),
{
    let ghost start = views(out@);
    let ghost sv = views(sigs@);
    let mut i: usize = 0;
    while i < sigs.len()
        invariant
            i <= sigs.len(),
            sv == views(sigs@),
            views(out@).to_set() == start.to_set() + marked_set(sign, sv.take(i as int).to_set(), file@),
        decreases sigs.len() - i,
    {
        let mut item = String::new();
        crate::text::push_char(&mut item, sign);
        push_str(&mut item, " ");
        push_str(&mut item, sigs[i].as_str());
        push_str(&mut item, " (");
        push_str(&mut item, file);
        push_str(&mut item, ")");
        proof {
            reveal_strlit(" ");
        }
        assert(item@ =~= marked(sign, sv[i as int], file@));
        let ghost before = out@;
        out.push(item);
        proof {
            lemma_views_push(before, item);
            lemma_push_to_set(views(before), item@);
            assert(sv.take(i + 1) =~= sv.take(i as int).push(sv[i as int]));
            lemma_push_to_set(sv.take(i as int), sv[i as int]);
            lemma_marked_insert(sign, sv.take(i as int).to_set(), sv[i as int], file@);
            assert(views(out@).to_set() =~= start.to_set() + marked_set(
                sign,
                sv.take(i + 1).to_set(),
                file@,
            ));
        }
        i = i + 1;
    }
    assert(sv.take(i as int) =~= sv);
}

/// The four lists a summary gathers before they are cut.
pub struct ChangeLists {
    pub added_symbols: Vec<String>,
    pub removed_symbols: Vec<String>,
    pub added_edges: Vec<String>,
    pub removed_edges: Vec<String>,
}

pub open spec fn list_of(l: &ChangeLists, k: ChangeKind) -> Set<Seq<char>> {
    match k {
        ChangeKind::AddedSymbol => views(l.added_symbols@).to_set(),
        ChangeKind::RemovedSymbol => views(l.removed_symbols@).to_set(),
        ChangeKind::AddedEdge => views(l.added_edges@).to_set(),
        ChangeKind::RemovedEdge => views(l.removed_edges@).to_set(),
    }
}

/// Adds a file's changes: definitions and references found only in the
/// working copy (`+`) or only at `HEAD` (`-`), each with the file's path.
pub fn diff_file_extracts(file: &str, current: &FileExtracts, head: &FileExtracts, lists: &mut ChangeLists)
    ensures
        forall|k: ChangeKind| #[trigger] list_of(final(lists), k) == list_of(old(lists), k) + file_changes(
            k,
            file@,
            current@,
            head@,
        ),
{
    let cur_syms = symbol_signatures(current);
    let head_syms = symbol_signatures(head);
    let added = sorted_difference(&cur_syms, &head_syms);
    let removed = sorted_difference(&head_syms, &cur_syms);
    push_marked(&mut lists.added_symbols, '+', &added, file);
    push_marked(&mut lists.removed_symbols, '-', &removed, file);
    let cur_refs = extract_ref_signatures(current);
    let head_refs = extract_ref_signatures(head);
    let added_refs = sorted_difference(&cur_refs, &head_refs);
    let removed_refs = sorted_difference(&head_refs, &cur_refs);
    push_marked(&mut lists.added_edges, '+', &added_refs, file);
    push_marked(&mut lists.removed_edges, '-', &removed_refs, file);
}

/// The summary of the working tree's changes, from the changed paths (as
/// `git status` gives them) and what each yields now and at `HEAD`: the
/// changed files normalized, sorted and without repeats; for the files of a
/// supported language, the first `MAX_CHANGE_ITEMS` added and removed
/// definitions and references, in sorted order.
pub fn collect_change_summary(files: &Vec<ChangedFile>) -> (r: ChangeSummary)
    ensures
        strictly_sorted::<String>(views(r.changed_files@)),
        views(r.changed_files@).to_set() == views(files@).map_values(
            |f: ChangedFileView| normalized(f.path),
        ).to_set(),
        first_sorted(
            views(r.added_symbols@),
            all_changes(ChangeKind::AddedSymbol, views(files@), files@.len() as int),
            MAX_CHANGE_ITEMS as nat,
        ),
        first_sorted(
            views(r.removed_symbols@),
            all_changes(ChangeKind::RemovedSymbol, views(files@), files@.len() as int),
            MAX_CHANGE_ITEMS as nat,
        ),
        first_sorted(
            views(r.added_edges@),
            all_changes(ChangeKind::AddedEdge, views(files@), files@.len() as int),
            MAX_CHANGE_ITEMS as nat,
        ),
        first_sorted(
            views(r.removed_edges@),
            all_changes(ChangeKind::RemovedEdge, views(files@), files@.len() as int),
            MAX_CHANGE_ITEMS as nat,
        ),
{
    let ghost fv = views(files@);
    let mut changed: Vec<String> = Vec::new();
    let mut lists = ChangeLists {
        added_symbols: Vec::new(),
        removed_symbols: Vec::new(),
        added_edges: Vec::new(),
        removed_edges: Vec::new(),
    };
    proof {
        assert forall|k: ChangeKind| #[trigger] list_of(&lists, k) == all_changes(k, fv, 0) by {
            assert(views(lists.added_symbols@).to_set() =~= Set::<Seq<char>>::empty());
            assert(views(lists.removed_symbols@).to_set() =~= Set::<Seq<char>>::empty());
            assert(views(lists.added_edges@).to_set() =~= Set::<Seq<char>>::empty());
            assert(views(lists.removed_edges@).to_set() =~= Set::<Seq<char>>::empty());
        }
    }
    let mut i: usize = 0;
    while i < files.len()
        invariant
            i <= files.len(),
            fv == views(files@),
            views(changed@) == fv.take(i as int).map_values(|f: ChangedFileView| normalized(f.path)),
            forall|k: ChangeKind| #[trigger] list_of(&lists, k) == all_changes(k, fv, i as int),
        decreases files.len() - i,
    {
        let f = &files[i];
        assert(fv[i as int] == f@);
        let path = normalize_rel_path(f.path.as_str());
        let ghost before = changed@;
        changed.push(path.clone());
        proof {
            lemma_views_push(before, path);
            assert(fv.take(i + 1).map_values(|f: ChangedFileView| normalized(f.path)) =~= fv.take(
                i as int,
            ).map_values(|f: ChangedFileView| normalized(f.path)).push(normalized(fv[i as int].path)));
        }
        let ghost old_lists = lists;
        match detect_lang(path.as_str()) {
            Some(_) => {
                diff_file_extracts(path.as_str(), &f.current, &f.head, &mut lists);
                proof {
                    assert forall|k: ChangeKind| #[trigger] list_of(&lists, k) == all_changes(
                        k,
                        fv,
                        i + 1,
                    ) by {
                        assert(list_of(&lists, k) == list_of(&old_lists, k) + file_changes(
                            k,
                            path@,
                            f.current@,
                            f.head@,
                        ));
                    }
                }
            },
            None => {
                proof {
                    assert forall|k: ChangeKind| #[trigger] list_of(&lists, k) == all_changes(
                        k,
                        fv,
                        i + 1,
                    ) by {
                        assert(all_changes(k, fv, i + 1) =~= all_changes(k, fv, i as int));
                    }
                }
            },
        }
        i = i + 1;
    }
    assert(fv.take(i as int) =~= fv);
    proof {
        assert(list_of(&lists, ChangeKind::AddedSymbol) == all_changes(ChangeKind::AddedSymbol, fv, i as int));
        assert(list_of(&lists, ChangeKind::RemovedSymbol) == all_changes(ChangeKind::RemovedSymbol, fv, i as int));
        assert(list_of(&lists, ChangeKind::AddedEdge) == all_changes(ChangeKind::AddedEdge, fv, i as int));
        assert(list_of(&lists, ChangeKind::RemovedEdge) == all_changes(ChangeKind::RemovedEdge, fv, i as int));
    }
    ChangeSummary {
        changed_files: sort_unique(changed),
        added_symbols: take_limited(lists.added_symbols),
        removed_symbols: take_limited(lists.removed_symbols),
        added_edges: take_limited(lists.added_edges),
        removed_edges: take_limited(lists.removed_edges),
    }
}


/// Two texts that each end in `:` followed by a decimal number are equal only
/// when the numbers are.
proof fn lemma_colon_number(x: Seq<char>, a: nat, y: Seq<char>, b: nat)
    requires
        x.len() > 0 && x.last() == ':',
        y.len() > 0 && y.last() == ':',
        x + decimal(a) == y + decimal(b),
    ensures
        a == b,
{
    lemma_decimal_digits(a);
    lemma_decimal_digits(b);
    let s = x + decimal(a);
    let da = decimal(a);
    let db = decimal(b);
    assert(s.len() == x.len() + da.len());
    assert((y + db).len() == y.len() + db.len());
    if da.len() < db.len() {
        let p = x.len() - 1;
        assert(p >= y.len());
        assert(s[p] == ':');
        assert(s[p] == (y + db)[p]);
        assert((y + db)[p] == db[p - y.len()]);
        assert('0' <= decimal(b)[p - y.len()] <= '9');
    } else if db.len() < da.len() {
        let p = y.len() - 1;
        assert(p >= x.len());
        assert((y + db)[p] == ':');
        assert(s[p] == da[p - x.len()]);
        assert('0' <= decimal(a)[p - x.len()] <= '9');
    } else {
        assert(da =~= s.subrange(x.len() as int, s.len() as int));
        assert(db =~= (y + db).subrange(y.len() as int, s.len() as int));
        lemma_decimal_injective(a, b);
    }
}

/// An import's signature tells its line.
proof fn lemma_import_sig_line(i: RawImportView, h: RawImportView)
    requires
        import_sig(i) == import_sig(h),
    ensures
        i.line == h.line,
{
    reveal_strlit(":");
    let x = "imports:"@ + i.imported_name + ":"@ + i.source_module + ":"@;
    let y = "imports:"@ + h.imported_name + ":"@ + h.source_module + ":"@;
    assert(x.last() == ':');
    assert(y.last() == ':');
    lemma_colon_number(x, i.line as nat, y, h.line as nat);
}

/// The reference signatures of a file hold its import `i`'s signature; one
/// of another file holds it only through an import on the same line.
proof fn lemma_import_in_refs(ex: FileExtractsView, i: RawImportView)
    ensures
        ex.imports.contains(i) ==> ref_sigs(ex).contains(import_sig(i)),
        ref_sigs(ex).contains(import_sig(i)) ==> exists|j: int|
            0 <= j < ex.imports.len() && #[trigger] ex.imports[j].line == i.line,
{
    reveal_strlit("imports:");
    reveal_strlit("calls:");
    reveal_strlit("renders:");
    let cs = ex.calls.map_values(|c: RawCallView| call_sig(c));
    let rs = ex.renders.map_values(|r: RawRenderView| render_sig(r));
    let is = ex.imports.map_values(|m: RawImportView| import_sig(m));
    if ex.imports.contains(i) {
        let k = choose|k: int| 0 <= k < ex.imports.len() && ex.imports[k] == i;
        assert(is[k] == import_sig(i));
        assert(is.to_set().contains(import_sig(i)));
    }
    let sig = import_sig(i);
    assert(sig[0] == 'i');
    if cs.to_set().contains(sig) {
        let k = choose|k: int| 0 <= k < cs.len() && cs[k] == sig;
        assert(cs[k][0] == 'c');
    }
    if rs.to_set().contains(sig) {
        let k = choose|k: int| 0 <= k < rs.len() && rs[k] == sig;
        assert(rs[k][0] == 'r');
    }
    if is.to_set().contains(sig) {
        let k = choose|k: int| 0 <= k < is.len() && is[k] == sig;
        lemma_import_sig_line(i, ex.imports[k]);
    }
}

/// The changes of every supported file of the list are among the changes of
/// the list.
proof fn lemma_file_changes_in_all(k: ChangeKind, files: Seq<ChangedFileView>, n: int, fi: int, x: Seq<char>)
    requires
        0 <= fi < n <= files.len(),
        lang_of_path(normalized(files[fi].path)) is Some,
        file_changes(k, normalized(files[fi].path), files[fi].current, files[fi].head).contains(x),
    ensures
        all_changes(k, files, n).contains(x),
    decreases n,
{
    if fi < n - 1 {
        lemma_file_changes_in_all(k, files, n - 1, fi, x);
    }
}

/// Import statements count as references. An import that a changed file of a
/// supported language has now, on a line where it had no import at `HEAD`,
/// is among the added references as `+ imports:NAME:SOURCE:LINE (file)`; one
/// it had at `HEAD`, on a line where it has no import now, is among the
/// removed ones, with `-`.
pub proof fn lemma_import_changes_reported(files: Seq<ChangedFileView>, fi: int, i: RawImportView)
    requires
        0 <= fi < files.len(),
        lang_of_path(normalized(files[fi].path)) is Some,
    ensures
        files[fi].current.imports.contains(i) && (forall|j: int|
            0 <= j < files[fi].head.imports.len() ==> #[trigger] files[fi].head.imports[j].line
                != i.line) ==> all_changes(ChangeKind::AddedEdge, files, files.len() as int).contains(
            seq!['+', ' '] + "imports:"@ + i.imported_name + ":"@ + i.source_module + ":"@ + decimal(
                i.line as nat,
            ) + " ("@ + normalized(files[fi].path) + ")"@,
        ),
        files[fi].head.imports.contains(i) && (forall|j: int|
            0 <= j < files[fi].current.imports.len() ==> #[trigger] files[fi].current.imports[j].line
                != i.line) ==> all_changes(ChangeKind::RemovedEdge, files, files.len() as int).contains(
            seq!['-', ' '] + "imports:"@ + i.imported_name + ":"@ + i.source_module + ":"@ + decimal(
                i.line as nat,
            ) + " ("@ + normalized(files[fi].path) + ")"@,
        ),
{
    let f = files[fi];
    let file = normalized(f.path);
    let sig = import_sig(i);
    lemma_import_in_refs(f.current, i);
    lemma_import_in_refs(f.head, i);
    if f.current.imports.contains(i) && (forall|j: int|
        0 <= j < f.head.imports.len() ==> #[trigger] f.head.imports[j].line != i.line) {
        let d = ref_sigs(f.current).difference(ref_sigs(f.head));
        assert(d.contains(sig));
        let m = marked('+', sig, file);
        assert(marked_set('+', d, file).contains(m));
        lemma_file_changes_in_all(ChangeKind::AddedEdge, files, files.len() as int, fi, m);
        assert(m =~= seq!['+', ' '] + "imports:"@ + i.imported_name + ":"@ + i.source_module + ":"@
            + decimal(i.line as nat) + " ("@ + file + ")"@);
    }
    if f.head.imports.contains(i) && (forall|j: int|
        0 <= j < f.current.imports.len() ==> #[trigger] f.current.imports[j].line != i.line) {
        let d = ref_sigs(f.head).difference(ref_sigs(f.current));
        assert(d.contains(sig));
        let m = marked('-', sig, file);
        assert(marked_set('-', d, file).contains(m));
        lemma_file_changes_in_all(ChangeKind::RemovedEdge, files, files.len() as int, fi, m);
        assert(m =~= seq!['-', ' '] + "imports:"@ + i.imported_name + ":"@ + i.source_module + ":"@
            + decimal(i.line as nat) + " ("@ + file + ")"@);
    }
}

} // verus!
