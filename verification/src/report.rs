//! Plain-text pieces of the command reports: durations, capped lists,
//! padded columns and the rows of the history and of the symbol list.
use vstd::prelude::*;

use crate::explain::lines_each;
use crate::history::age_text;
use crate::intel::classify::{last_segment, short_path};
use crate::models::{CommandHistoryEntry, Symbol, SymbolView};
use crate::order::{lemma_views_push, views};
use crate::snapshot::{SnapSymbolView, SnapshotSymbol};
use crate::text::{decimal, owned, push_char, push_decimal, push_str};

verus! {

// ---------------------------------------------------------------------------
// Specification
// ---------------------------------------------------------------------------
/// How long ago, in words, in the largest whole unit.
pub open spec fn duration_text(secs: u64) -> Seq<char> {
    if secs < 60 {
        decimal(secs as nat) + " seconds ago"@
    } else if secs < 3600 {
        decimal((secs / 60) as nat) + " minutes ago"@
    } else if secs < 86400 {
        decimal((secs / 3600) as nat) + " hours ago"@
    } else {
        decimal((secs / 86400) as nat) + " days ago"@
    }
}

/// `name (file name)`.
pub open spec fn end_label(s: SnapSymbolView) -> Seq<char> {
    s.name + " ("@ + last_segment(s.file) + ")"@
}

/// `n` copies of `c`.
pub open spec fn repeat(c: char, n: nat) -> Seq<char> {
    Seq::new(n, |i: int| c)
}

/// Padded with spaces on the right to `width` characters (`{:<width}`).
pub open spec fn pad_right(s: Seq<char>, width: nat) -> Seq<char> {
    if s.len() < width {
        s + repeat(' ', (width - s.len()) as nat)
    } else {
        s
    }
}

/// Padded with spaces on the left to `width` characters (`{:>width}`).
pub open spec fn pad_left(s: Seq<char>, width: nat) -> Seq<char> {
    if s.len() < width {
        repeat(' ', (width - s.len()) as nat) + s
    } else {
        s
    }
}

pub open spec fn indented(indent: Seq<char>) -> spec_fn(Seq<char>) -> Seq<Seq<char>> {
    |item: Seq<char>| seq![indent + item]
}

/// A heading and the first `max` items, each after `indent`, with a note of
/// how many more there are; nothing for no items.
pub open spec fn capped_text(heading: Seq<char>, indent: Seq<char>, items: Seq<Seq<char>>, max: nat) -> Seq<Seq<char>> {
    if items.len() == 0 {
        Seq::empty()
    } else {
        let shown = if items.len() > max {
            items.take(max as int)
        } else {
            items
        };
        seq![heading] + lines_each(shown, indented(indent)) + if items.len() > max {
            seq![indent + "... and "@ + decimal((items.len() - max) as nat) + " more"@]
        } else {
            Seq::empty()
        }
    }
}

/// A history entry: its number, `ok` or `error`, its age, the session key
/// when all sessions are shown, and the command.
pub open spec fn history_row(
    index: nat,
    success: bool,
    ts: u64,
    now: u64,
    shown_key: Option<Seq<char>>,
    command: Seq<char>,
) -> Seq<char> {
    "  "@ + decimal(index) + ". "@ + pad_right(
        if success {
            "ok"@
        } else {
            "error"@
        },
        5,
    ) + " "@ + pad_left(age_text(ts, now), 8) + " "@ + match shown_key {
        Some(k) => "["@ + k + "] "@,
        None => Seq::empty(),
    } + command
}

/// A row of the symbol list: name and kind in columns, then the location.
pub open spec fn list_row_text(s: SymbolView) -> Seq<char> {
    pad_right(s.name, 30) + " "@ + pad_right(s.kind, 12) + " "@ + s.file + ":"@ + decimal(
        s.line as nat,
    )
}

// ---------------------------------------------------------------------------
// Implementation
// ---------------------------------------------------------------------------
/// How long ago `secs` seconds is, in its largest whole unit.
pub fn format_duration(secs: u64) -> (r: String)
    ensures
        r@ == duration_text(secs),
{
    let mut out = String::new();
    if secs < 60 {
        push_decimal(&mut out, secs);
        push_str(&mut out, " seconds ago");
    } else if secs < 3600 {
        push_decimal(&mut out, secs / 60);
        push_str(&mut out, " minutes ago");
    } else if secs < 86400 {
        push_decimal(&mut out, secs / 3600);
        push_str(&mut out, " hours ago");
    } else {
        push_decimal(&mut out, secs / 86400);
        push_str(&mut out, " days ago");
    }
    out
}

/// A snapshot symbol as an end of an edge: `name (file name)`.
pub fn edge_end_label(s: &SnapshotSymbol) -> (r: String)
    ensures
        r@ == end_label(s@),
{
    let mut out = owned(s.name.as_str());
    push_str(&mut out, " (");
    let short = short_path(s.file.as_str());
    push_str(&mut out, short.as_str());
    push_str(&mut out, ")");
    out
}

fn push_spaces(s: &mut String, n: usize)
    ensures
        final(s)@ == old(s)@ + repeat(' ', n as nat),
{
    let mut i: usize = 0;
    while i < n
        invariant
            i <= n,
            s@ == old(s)@ + repeat(' ', i as nat),
        decreases n - i,
    {
        push_char(s, ' ');
        assert(s@ =~= old(s)@ + repeat(' ', (i + 1) as nat));
        i = i + 1;
    }
}

fn char_count(s: &str) -> (r: usize)
    ensures
        r == s@.len(),
{
    let cs = crate::text::chars_of(s);
    cs.len()
}

/// `s` padded on the right to `width` characters.
pub fn pad_right_str(s: &str, width: usize) -> (r: String)
    ensures
        r@ == pad_right(s@, width as nat),
{
    let mut out = owned(s);
    let n = char_count(s);
    if n < width {
        push_spaces(&mut out, width - n);
    }
    out
}

/// `s` padded on the left to `width` characters.
pub fn pad_left_str(s: &str, width: usize) -> (r: String)
    ensures
        r@ == pad_left(s@, width as nat),
{
    let mut out = String::new();
    let n = char_count(s);
    if n < width {
        push_spaces(&mut out, width - n);
    }
    push_str(&mut out, s);
    out
}

/// A heading, the first `max` items after `indent`, and `... and N more`
/// when some are left out; no lines for no items.
pub fn capped_list(heading: &str, indent: &str, items: &Vec<String>, max: usize) -> (r: Vec<String>)
    ensures
        views(r@) == capped_text(heading@, indent@, views(items@), max as nat),
{
    let ghost iv = views(items@);
    let mut out: Vec<String> = Vec::new();
    if items.len() == 0 {
        assert(views(out@) =~= capped_text(heading@, indent@, iv, max as nat));
        return out;
    }
    let h = owned(heading);
    let ghost b0 = out@;
    out.push(h);
    proof {
        lemma_views_push(b0, h);
    }
    let shown = if items.len() > max {
        max
    } else {
        items.len()
    };
    let ghost shown_seq = if iv.len() > max {
        iv.take(max as int)
    } else {
        iv
    };
    let ghost base = views(out@);
    assert(views(out@) =~= base + lines_each(shown_seq.take(0), indented(indent@)));
    let mut i: usize = 0;
    while i < shown
        invariant
            i <= shown,
            shown == shown_seq.len(),
            shown <= items.len(),
            iv == views(items@),
            forall|k: int| 0 <= k < shown ==> shown_seq[k] == iv[k],
            views(out@) == base + lines_each(shown_seq.take(i as int), indented(indent@)),
        decreases shown - i,
    {
        let mut line = owned(indent);
        push_str(&mut line, items[i].as_str());
        let ghost before = out@;
        out.push(line);
        proof {
            lemma_views_push(before, line);
            crate::explain::lemma_lines_each_take(shown_seq, indented(indent@), i as int);
            assert(iv[i as int] == items@[i as int]@);
            let f = indented(indent@);
            assert(f(shown_seq[i as int]) =~= seq![line@]);
        }
        i = i + 1;
    }
    assert(shown_seq.take(i as int) =~= shown_seq);
    if items.len() > max {
        let mut more = owned(indent);
        push_str(&mut more, "... and ");
        push_decimal(&mut more, (items.len() - max) as u64);
        push_str(&mut more, " more");
        let ghost before = out@;
        out.push(more);
        proof {
            lemma_views_push(before, more);
        }
    }
    assert(views(out@) =~= capped_text(heading@, indent@, iv, max as nat));
    out
}

/// A row of the history: number, status, age (relative to `now`), the
/// session key shown when `show_key` is given, and the command.
pub fn history_line(
    index: usize,
    entry: &CommandHistoryEntry,
    now: u64,
    show_key: &Option<String>,
) -> (r: String)
    ensures
        r@ == history_row(
            index as nat,
            entry.success,
            entry.ts,
            now,
            crate::history::opt_view(*show_key),
            entry.command@,
        ),
{
    let mut out = owned("  ");
    push_decimal(&mut out, index as u64);
    push_str(&mut out, ". ");
    let status = if entry.success {
        "ok"
    } else {
        "error"
    };
    let padded = pad_right_str(status, 5);
    push_str(&mut out, padded.as_str());
    push_str(&mut out, " ");
    let age = crate::history::format_age(entry.ts, now);
    let aged = pad_left_str(age.as_str(), 8);
    push_str(&mut out, aged.as_str());
    push_str(&mut out, " ");
    match show_key {
        Some(k) => {
            push_str(&mut out, "[");
            push_str(&mut out, k.as_str());
            push_str(&mut out, "] ");
        },
        None => {},
    }
    push_str(&mut out, entry.command.as_str());
    out
}

/// A row of `list`: name (30 columns), kind (12 columns) and location.
pub fn list_row(s: &Symbol) -> (r: String)
    ensures
        r@ == list_row_text(s@),
{
    let mut out = pad_right_str(s.name.as_str(), 30);
    push_str(&mut out, " ");
    let kind = pad_right_str(s.kind.as_str(), 12);
    push_str(&mut out, kind.as_str());
    push_str(&mut out, " ");
    push_str(&mut out, s.file.as_str());
    push_str(&mut out, ":");
    push_decimal(&mut out, s.line as u64);
    out
}

} // verus!
