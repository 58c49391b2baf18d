//! Laravel route definitions (`Route::get('/path', 'Controller@method')`)
//! read from `routes/*.php` files.
use vstd::prelude::*;
use vstd::arithmetic::div_mod::lemma_add_mod_noop;

use crate::extractor::{RawRoute, RawRouteView};
use crate::intel::rules::strip_blanks;
use crate::order::{lemma_views_add, views};
use crate::paths::{lemma_split_on_nonempty, split_exec, split_on};
use crate::text::{
    chars_of, find_exec, find_from, lemma_find_from_some, slice_of, string_of, to_ascii_upper,
    to_ascii_upper_exec, trim, trim_chars, trim_start, trim_start_index, utf8_len, utf8_width,
};

verus! {

// ---------------------------------------------------------------------------
// Specification
// ---------------------------------------------------------------------------
/// A line without the `\r` of a `\r\n` ending.
pub open spec fn strip_cr(p: Seq<char>) -> Seq<char> {
    if p.len() > 0 && p.last() == '\r' {
        p.drop_last()
    } else {
        p
    }
}

/// `str::lines`: the lines of a text, without their `\n` or `\r\n` endings;
/// a final empty line is not counted.
pub open spec fn text_lines(s: Seq<char>) -> Seq<Seq<char>> {
    let ps = split_on(s, '\n');
    ps.take(ps.len() - 1).map_values(|p: Seq<char>| strip_cr(p)) + if ps.last().len() > 0 {
        seq![ps.last()]
    } else {
        Seq::empty()
    }
}

/// The body of a PHP string literal from position `i` of `s`: characters up
/// to the closing `quote`, a backslash taking the next character literally.
/// Gives the body and the position after the closing quote.
pub open spec fn php_body(s: Seq<char>, quote: char, i: int, escaped: bool, out: Seq<char>) -> Option<
    (Seq<char>, int),
>
    decreases s.len() - i,
{
    if i < 0 || i >= s.len() {
        None
    } else if escaped {
        php_body(s, quote, i + 1, false, out.push(s[i]))
    } else if s[i] == '\\' {
        php_body(s, quote, i + 1, true, out)
    } else if s[i] == quote {
        Some((out, i + 1))
    } else {
        php_body(s, quote, i + 1, false, out.push(s[i]))
    }
}

/// A PHP string literal (single or double quoted) at the start of `input`
/// (after whitespace): its body and the text after it.
pub open spec fn php_string(input: Seq<char>) -> Option<(Seq<char>, Seq<char>)> {
    let s = trim_start(input);
    if s.len() == 0 || (s[0] != '\'' && s[0] != '"') {
        None
    } else {
        match php_body(s, s[0], 1, false, Seq::empty()) {
            Some((body, k)) => Some((body, s.subrange(k, s.len() as int))),
            None => None,
        }
    }
}

/// A route: `method`, path and handler, found where `Route::` starts at
/// position `start` of a line (`col` is the byte offset of `start`).
pub struct FoundRoute {
    pub method: Seq<char>,
    pub path: Seq<char>,
    pub handler: Seq<char>,
    pub col: nat,
}

/// The route written where `Route::` occurs at `start` in `line`:
/// `Route::method(path, handler`, with PHP strings for path and handler.
pub open spec fn route_at(line: Seq<char>, start: int) -> Option<FoundRoute> {
    let rest = line.subrange(start + 7, line.len() as int);
    match find_from(rest, "("@, 0) {
        None => None,
        Some(paren) => {
            let method = trim(rest.subrange(0, paren));
            if method.len() == 0 {
                None
            } else {
                match php_string(rest.subrange(paren + 1, rest.len() as int)) {
                    None => None,
                    Some((path, after)) => {
                        let after = strip_blanks(after);
                        if after.len() == 0 || after[0] != ',' {
                            None
                        } else {
                            match php_string(strip_blanks(after.drop_first())) {
                                None => None,
                                Some((handler, _)) => Some(
                                    FoundRoute {
                                        method: to_ascii_upper(method),
                                        path,
                                        handler,
                                        col: utf8_len(line.take(start)),
                                    },
                                ),
                            }
                        }
                    },
                }
            }
        },
    }
}

/// The routes of a line from position `cursor` on, in order.
pub open spec fn routes_from(line: Seq<char>, cursor: int) -> Seq<FoundRoute>
    decreases line.len() + 1 - cursor,
{
    match find_from(line, "Route::"@, cursor) {
        None => Seq::empty(),
        Some(start) => if cursor <= start < line.len() {
            let next = routes_from(line, start + 1);
            match route_at(line, start) {
                Some(r) => seq![r] + next,
                None => next,
            }
        } else {
            Seq::empty()
        },
    }
}

pub open spec fn route_view(r: FoundRoute, line_no: u32) -> RawRouteView {
    RawRouteView {
        method: r.method,
        path: r.path,
        handler_name: r.handler,
        line: line_no,
        col: (r.col % 0x1_0000_0000) as u32,
    }
}

/// The routes of the first `n` lines.
pub open spec fn routes_of_lines(lines: Seq<Seq<char>>, n: int) -> Seq<RawRouteView>
    decreases n,
{
    if n <= 0 {
        Seq::empty()
    } else {
        routes_of_lines(lines, n - 1) + routes_from(lines[n - 1], 0).map_values(
            |r: FoundRoute| route_view(r, n as u32),
        )
    }
}

// ---------------------------------------------------------------------------
// Implementation
// ---------------------------------------------------------------------------
/// The lines of a text (`str::lines`).
pub fn text_lines_exec(s: &[char]) -> (r: Vec<Vec<char>>)
    ensures
        views(r@) == text_lines(s@),
{
    let pieces = split_exec(s, '\n');
    proof {
        lemma_split_on_nonempty(s@, '\n');
    }
    let ghost ps = views(pieces@);
    let n = pieces.len();
    let mut r: Vec<Vec<char>> = Vec::new();
    let mut i: usize = 0;
    while i + 1 < n
        invariant
            n == pieces.len(),
            n >= 1,
            ps == views(pieces@),
            ps == split_on(s@, '\n'),
            i <= n - 1,
            r.len() == i,
            views(r@) == ps.take(i as int).map_values(|p: Seq<char>| strip_cr(p)),
        decreases n - i,
    {
        let p = &pieces[i];
        let line = if p.len() > 0 && p[p.len() - 1] == '\r' {
            slice_of(p.as_slice(), 0, p.len() - 1)
        } else {
            slice_of(p.as_slice(), 0, p.len())
        };
        proof {
            assert(ps[i as int] == p@);
            if p@.len() > 0 && p@.last() == '\r' {
                assert(line@ =~= p@.drop_last());
            } else {
                assert(line@ =~= p@);
            }
        }
        let ghost before = views(r@);
        r.push(line);
        assert(views(r@) =~= before.push(strip_cr(ps[i as int])));
        assert(ps.take(i + 1).map_values(|p: Seq<char>| strip_cr(p)) =~= ps.take(i as int).map_values(
            |p: Seq<char>| strip_cr(p),
        ).push(strip_cr(ps[i as int])));
        i = i + 1;
    }
    let last = &pieces[n - 1];
    assert(ps.last() == last@);
    if last.len() > 0 {
        let ghost before = views(r@);
        r.push(slice_of(last.as_slice(), 0, last.len()));
        assert(last@.subrange(0, last@.len() as int) =~= last@);
        assert(views(r@) =~= before + seq![ps.last()]);
    } else {
        assert(views(r@) =~= views(r@) + Seq::<Seq<char>>::empty());
    }
    r
}

/// `s` from position `i` on, past leading spaces and tabs.
fn skip_separators(s: &[char], i: usize) -> (k: usize)
    requires
        i <= s.len(),
    ensures
        i <= k <= s.len(),
        strip_blanks(s@.subrange(i as int, s@.len() as int)) == s@.subrange(k as int, s@.len() as int),
{
    let mut k = i;
    while k < s.len() && (s[k] == ' ' || s[k] == '\t')
        invariant
            i <= k <= s.len(),
            strip_blanks(s@.subrange(i as int, s@.len() as int)) == strip_blanks(
                s@.subrange(k as int, s@.len() as int),
            ),
        decreases s.len() - k,
    {
        assert(s@.subrange(k as int, s@.len() as int).drop_first() =~= s@.subrange(
            k + 1,
            s@.len() as int,
        ));
        k = k + 1;
    }
    k
}

/// A PHP string literal at the start of `s[i..]` (after whitespace): its body
/// and the position after the closing quote.
fn parse_php_string(s: &[char], i: usize) -> (r: Option<(Vec<char>, usize)>)
    requires
        i <= s.len(),
    ensures
        r matches Some((body, k)) ==> i <= k <= s.len() && php_string(
            s@.subrange(i as int, s@.len() as int),
        ) == Some((body@, s@.subrange(k as int, s@.len() as int))),
        r is None ==> php_string(s@.subrange(i as int, s@.len() as int)) is None,
{
    let input = slice_of(s, i, s.len());
    let a = trim_start_index(input.as_slice());
    let start = i + a;
    assert(trim_start(input@) =~= s@.subrange(start as int, s@.len() as int));
    let ghost t = s@.subrange(start as int, s@.len() as int);
    if start >= s.len() {
        return None;
    }
    let quote = s[start];
    if quote != '\'' && quote != '"' {
        return None;
    }
    let mut out: Vec<char> = Vec::new();
    let mut escaped = false;
    let mut j = start + 1;
    while j < s.len()
        invariant
            i <= start < j <= s.len(),
            t == s@.subrange(start as int, s@.len() as int),
            trim_start(s@.subrange(i as int, s@.len() as int)) == t,
            quote == t[0],
            quote == '\'' || quote == '"',
            php_body(t, quote, 1, false, Seq::empty()) == php_body(
                t,
                quote,
                j - start,
                escaped,
                out@,
            ),
        decreases s.len() - j,
    {
        let ch = s[j];
        assert(t[j - start] == ch);
        if escaped {
            out.push(ch);
            escaped = false;
        } else if ch == '\\' {
            escaped = true;
        } else if ch == quote {
            proof {
                assert(t.subrange(j + 1 - start, t.len() as int) =~= s@.subrange(
                    j + 1,
                    s@.len() as int,
                ));
                assert(php_body(t, quote, j - start, false, out@) == Some((out@, j + 1 - start)));
                assert(trim_start(s@.subrange(i as int, s@.len() as int)) == t);
            }
            return Some((out, j + 1));
        } else {
            out.push(ch);
        }
        j = j + 1;
    }
    None
}

fn utf8_len_exec(s: &[char], n: usize) -> (r: u32)
    requires
        n <= s.len(),
    ensures
        r == utf8_len(s@.take(n as int)) % 0x1_0000_0000,
{
    let mut total: u32 = 0;
    let mut i: usize = 0;
    while i < n
        invariant
            i <= n <= s.len(),
            total == utf8_len(s@.take(i as int)) % 0x1_0000_0000,
        decreases n - i,
    {
        let c = s[i];
        let code: u32 = c as u32;
        let w: u32 = if code < 0x80 {
            1
        } else if code < 0x800 {
            2
        } else if code < 0x10000 {
            3
        } else {
            4
        };
        assert(w == utf8_width(c));
        assert(s@.take(i + 1).drop_last() =~= s@.take(i as int));
        proof {
            lemma_add_mod_noop(utf8_len(s@.take(i as int)) as int, w as int, 0x1_0000_0000);
        }
        total = total.wrapping_add(w);
        i = i + 1;
    }
    total
}

/// The route where `Route::` starts at `start` in `line`.
fn route_at_exec(line: &[char], start: usize) -> (r: Option<(Vec<char>, Vec<char>, Vec<char>, u32)>)
    requires
        start + 7 <= line.len(),
    ensures
        r matches Some((m, p, h, col)) ==> route_at(line@, start as int) matches Some(f) && f.method
            == m@ && f.path == p@ && f.handler == h@ && f.col % 0x1_0000_0000 == col,
        r is None ==> route_at(line@, start as int) is None,
{
    let rest = slice_of(line, start + 7, line.len());
    let open = vec!['('];
    assert(open@ =~= "("@) by {
        reveal_strlit("(");
    }
    let paren = match find_exec(rest.as_slice(), open.as_slice(), 0) {
        Some(p) => p,
        None => return None,
    };
    proof {
        lemma_find_from_some(rest@, "("@, 0);
        reveal_strlit("(");
    }
    let before = slice_of(rest.as_slice(), 0, paren);
    let method = trim_chars(before.as_slice());
    if method.len() == 0 {
        return None;
    }
    let (path, after) = match parse_php_string(rest.as_slice(), paren + 1) {
        Some(x) => x,
        None => return None,
    };
    let k = skip_separators(rest.as_slice(), after);
    if k >= rest.len() || rest[k] != ',' {
        return None;
    }
    assert(rest@.subrange(k as int, rest@.len() as int).drop_first() =~= rest@.subrange(
        k + 1,
        rest@.len() as int,
    ));
    let k2 = skip_separators(rest.as_slice(), k + 1);
    let (handler, _) = match parse_php_string(rest.as_slice(), k2) {
        Some(x) => x,
        None => return None,
    };
    proof {
        assert(trim_start(rest@.subrange(k2 as int, rest@.len() as int)) == trim_start(
            strip_blanks(rest@.subrange(k + 1, rest@.len() as int)),
        ));
    }
    let col = utf8_len_exec(line, start);
    Some((to_ascii_upper_exec(method.as_slice()), path, handler, col))
}

/// The routes of one line, in order.
fn routes_in_line(line: &[char]) -> (r: Vec<(Vec<char>, Vec<char>, Vec<char>, u32)>)
    ensures
        r@.len() == routes_from(line@, 0).len(),
        forall|k: int|
            0 <= k < r@.len() ==> {
                let (m, p, h, col) = #[trigger] r@[k];
                let f = routes_from(line@, 0)[k];
                f.method == m@ && f.path == p@ && f.handler == h@ && f.col % 0x1_0000_0000 == col
            },
{
    let needle = chars_of("Route::");
    proof {
        reveal_strlit("Route::");
    }
    let mut out: Vec<(Vec<char>, Vec<char>, Vec<char>, u32)> = Vec::new();
    let mut cursor: usize = 0;
    let ghost all = routes_from(line@, 0);
    loop
        invariant
            cursor <= line.len() + 1,
            needle@ == "Route::"@,
            "Route::"@.len() == 7,
            all == routes_from(line@, 0),
            out@.len() + routes_from(line@, cursor as int).len() == all.len(),
            forall|k: int|
                0 <= k < out@.len() ==> {
                    let (m, p, h, col) = #[trigger] out@[k];
                    all[k].method == m@ && all[k].path == p@ && all[k].handler == h@ && all[k].col
                        % 0x1_0000_0000 == col
                },
            forall|k: int|
                0 <= k < routes_from(line@, cursor as int).len() ==> all[out@.len() + k]
                    == #[trigger] routes_from(line@, cursor as int)[k],
        decreases line.len() + 1 - cursor,
    {
        if cursor > line.len() {
            return out;
        }
        let start = match find_exec(line, needle.as_slice(), cursor) {
            Some(s) => s,
            None => {
                return out;
            },
        };
        proof {
            lemma_find_from_some(line@, "Route::"@, cursor as int);
        }
        let ghost next = routes_from(line@, start + 1);
        match route_at_exec(line, start) {
            Some(found) => {
                proof {
                    let f = route_at(line@, start as int)->0;
                    let old_rf = routes_from(line@, cursor as int);
                    assert(old_rf =~= seq![f] + next);
                    assert(all[out@.len() as int] == old_rf[0]);
                    assert forall|k: int| 0 <= k < next.len() implies all[out@.len() + 1 + k]
                        == #[trigger] next[k] by {
                        assert(old_rf[k + 1] == next[k]);
                    }
                }
                out.push(found);
            },
            None => {
                proof {
                    let old_rf = routes_from(line@, cursor as int);
                    assert(old_rf =~= next);
                    assert forall|k: int| 0 <= k < next.len() implies all[out@.len() + k]
                        == #[trigger] next[k] by {
                        assert(old_rf[k] == next[k]);
                    }
                }
            },
        }
        cursor = start + 1;
    }
}

/// The Laravel routes of a `routes/*.php` file: each `Route::method(path,
/// handler` with single- or double-quoted path and handler, with the method
/// in upper case, the 1-based line and the byte column of `Route::`.
pub fn extract_routes_from_routes_php(source: &str) -> (r: Vec<RawRoute>)
    ensures
        views(r@) == routes_of_lines(text_lines(source@), text_lines(source@).len() as int),
{
    let cs = chars_of(source);
    let lines = text_lines_exec(cs.as_slice());
    let ghost ls = text_lines(source@);
    let mut routes: Vec<RawRoute> = Vec::new();
    let mut i: usize = 0;
    while i < lines.len()
        invariant
            i <= lines.len(),
            ls == views(lines@),
            views(routes@) == routes_of_lines(ls, i as int),
        decreases lines.len() - i,
    {
        assert(ls[i as int] == lines@[i as int]@);
        let found = routes_in_line(lines[i].as_slice());
        let line_no = (i + 1) as u32;
        let ghost before = views(routes@);
        let ghost fr = routes_from(ls[i as int], 0);
        let mut j: usize = 0;
        while j < found.len()
            invariant
                j <= found.len(),
                found@.len() == fr.len(),
                line_no == (i + 1) as u32,
                forall|k: int|
                    0 <= k < found@.len() ==> {
                        let (m, p, h, col) = #[trigger] found@[k];
                        fr[k].method == m@ && fr[k].path == p@ && fr[k].handler == h@ && fr[k].col
                            % 0x1_0000_0000 == col
                    },
                views(routes@) == before + fr.take(j as int).map_values(
                    |r: FoundRoute| route_view(r, line_no),
                ),
            decreases found.len() - j,
        {
            let (m, p, h, col) = &found[j];
            let route = RawRoute {
                method: string_of(m.as_slice()),
                path: string_of(p.as_slice()),
                handler_name: string_of(h.as_slice()),
                line: line_no,
                col: *col,
            };
            proof {
                assert(route@ == route_view(fr[j as int], line_no));
                assert(fr.take(j + 1).map_values(|r: FoundRoute| route_view(r, line_no))
                    =~= fr.take(j as int).map_values(|r: FoundRoute| route_view(r, line_no)).push(
                    route@,
                ));
            }
            let ghost prev = routes@;
            routes.push(route);
            assert(routes@ =~= prev + seq![route]);
            proof {
                lemma_views_add(prev, seq![route]);
                assert(views(seq![route]) =~= seq![route@]);
            }
            assert(views(routes@) =~= before + fr.take(j + 1).map_values(
                |r: FoundRoute| route_view(r, line_no),
            ));
            j = j + 1;
        }
        assert(fr.take(found.len() as int) =~= fr);
        assert(routes_of_lines(ls, i + 1) == routes_of_lines(ls, i as int) + fr.map_values(
            |r: FoundRoute| route_view(r, (i + 1) as u32),
        ));
        i = i + 1;
    }
    routes
}

proof fn lemma_split_lengths(s: Seq<char>, c: char)
    ensures
        split_on(s, c).len() <= s.len() + 1,
        forall|k: int| 0 <= k < split_on(s, c).len() ==> (#[trigger] split_on(s, c)[k]).len() <= s.len(),
    decreases s.len(),
{
    if s.len() > 0 {
        lemma_split_lengths(s.drop_last(), c);
        lemma_split_on_nonempty(s.drop_last(), c);
    }
}

} // verus!
