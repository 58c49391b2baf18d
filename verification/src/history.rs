//! The project's command history: which shell session a command ran in, how
//! a command line is recorded, and how entries are shown.
use vstd::prelude::*;

use crate::text::{
    chars_of, concat, decimal, find_exec, find_from, lemma_concat_push, owned, push_char,
    push_chars, push_decimal, push_str, replace_char, replace_char_exec, str_eq, string_of, trim,
    trim_chars, utf8_len, utf8_width,
};
use crate::text::{char_is_ws, is_ws, slice_of};

verus! {

/// The shell session a command runs in, when one can be told.
#[derive(Debug, Clone)]
pub struct SessionInfo {
    pub key: Option<String>,
    pub source: Option<&'static str>,
}

pub struct SessionInfoView {
    pub key: Option<Seq<char>>,
    pub source: Option<Seq<char>>,
}

pub open spec fn opt_view(o: Option<String>) -> Option<Seq<char>> {
    match o {
        Some(s) => Some(s@),
        None => None,
    }
}

impl View for SessionInfo {
    type V = SessionInfoView;

    open spec fn view(&self) -> SessionInfoView {
        SessionInfoView {
            key: opt_view(self.key),
            source: match self.source {
                Some(s) => Some(s@),
                None => None,
            },
        }
    }
}

/// A command to append to the history.
#[derive(Debug, Clone)]
pub struct CommandRecord {
    pub ts: u64,
    pub session_key: String,
    pub cwd: String,
    pub command: String,
    pub success: bool,
}

pub struct CommandRecordView {
    pub ts: u64,
    pub session_key: Seq<char>,
    pub cwd: Seq<char>,
    pub command: Seq<char>,
    pub success: bool,
}

impl View for CommandRecord {
    type V = CommandRecordView;

    open spec fn view(&self) -> CommandRecordView {
        CommandRecordView {
            ts: self.ts,
            session_key: self.session_key@,
            cwd: self.cwd@,
            command: self.command@,
            success: self.success,
        }
    }
}

// ---------------------------------------------------------------------------
// Specification
// ---------------------------------------------------------------------------
pub open spec fn global_key() -> Seq<char> {
    "global"@
}

/// The environment variables that name a shell session, in the order they
/// are consulted.
pub open spec fn session_var(i: int) -> Seq<char> {
    if i == 0 {
        "LINK_SESSION_ID"@
    } else if i == 1 {
        "WT_SESSION"@
    } else if i == 2 {
        "TERM_SESSION_ID"@
    } else if i == 3 {
        "ConEmuPID"@
    } else if i == 4 {
        "TMUX"@
    } else {
        "STY"@
    }
}

/// A variable's value, trimmed, when something is left.
pub open spec fn present(raw: Option<Seq<char>>) -> Option<Seq<char>> {
    match raw {
        Some(v) => if trim(v).len() > 0 {
            Some(trim(v))
        } else {
            None
        },
        None => None,
    }
}

pub open spec fn raw_at(values: Seq<Option<Seq<char>>>, i: int) -> Option<Seq<char>> {
    if 0 <= i < values.len() {
        values[i]
    } else {
        None
    }
}

/// The session named by the first variable, from the `i`-th on, that is set.
pub open spec fn session_from(values: Seq<Option<Seq<char>>>, i: int) -> SessionInfoView
    decreases 6 - i,
{
    if i < 0 || i >= 6 {
        SessionInfoView { key: None, source: None }
    } else {
        match present(raw_at(values, i)) {
            Some(v) => SessionInfoView {
                key: Some(session_var(i) + ":"@ + v),
                source: Some(session_var(i)),
            },
            None => session_from(values, i + 1),
        }
    }
}

pub open spec fn needs_quotes(a: Seq<char>) -> bool {
    exists|i: int| 0 <= i < a.len() && (is_ws(#[trigger] a[i]) || a[i] == '"' || a[i] == '\'')
}

/// An argument as shown in a recorded command line: quoted, with `\` and `"`
/// escaped, when it is empty or holds whitespace or a quote.
pub open spec fn quoted_arg(a: Seq<char>) -> Seq<char> {
    if a.len() == 0 {
        "\"\""@
    } else if needs_quotes(a) {
        "\""@ + replace_char(replace_char(a, '\\', "\\\\"@), '"', "\\\""@) + "\""@
    } else {
        a
    }
}

pub open spec fn invocation_of(args: Seq<Seq<char>>) -> Seq<char> {
    "linkmap"@ + concat(args.map_values(|a: Seq<char>| " "@ + quoted_arg(a)))
}

pub open spec fn scope_text(all: bool, source: Option<Seq<char>>) -> Seq<char> {
    if all {
        "all recorded commands for this project"@
    } else {
        match source {
            Some(s) => "current session ("@ + s + ")"@,
            None => "all recorded commands for this project (no shell session id detected)"@,
        }
    }
}

/// How long ago, in the largest whole unit: seconds, minutes, hours, days.
pub open spec fn age_text(ts: u64, now: u64) -> Seq<char> {
    let delta: nat = if now >= ts {
        (now - ts) as nat
    } else {
        0
    };
    if delta < 60 {
        decimal(delta) + "s ago"@
    } else if delta < 3600 {
        decimal(delta / 60) + "m ago"@
    } else if delta < 86400 {
        decimal(delta / 3600) + "h ago"@
    } else {
        decimal(delta / 86400) + "d ago"@
    }
}

/// The longest prefix of `v` whose UTF-8 encoding fits in `b` bytes.
pub open spec fn take_bytes(v: Seq<char>, b: int) -> Seq<char>
    decreases v.len(),
{
    if v.len() == 0 || utf8_width(v[0]) > b {
        Seq::empty()
    } else {
        seq![v[0]] + take_bytes(v.drop_first(), b - utf8_width(v[0]))
    }
}

/// `source:value` around the first `:`.
pub open spec fn split_colon(key: Seq<char>) -> Option<(Seq<char>, Seq<char>)> {
    match find_from(key, ":"@, 0) {
        Some(i) => Some((key.take(i), key.skip(i + 1))),
        None => None,
    }
}

pub open spec fn key_or_global(key: Option<Seq<char>>) -> Seq<char> {
    match key {
        Some(k) => k,
        None => global_key(),
    }
}

/// A session key can be shown when a long value (over 16 bytes) can be cut
/// at byte 16, which must fall between characters.
pub open spec fn displayable_key(key: Seq<char>) -> bool {
    key != global_key() ==> match split_colon(key) {
        Some((_, value)) => utf8_len(value) > 16 ==> utf8_len(take_bytes(value, 16)) == 16,
        None => true,
    }
}

/// A session key as shown in the history: values longer than 16 bytes cut
/// to their first 16 bytes and `...`.
pub open spec fn shown_key(key: Seq<char>) -> Seq<char> {
    if key == global_key() {
        "global"@
    } else {
        match split_colon(key) {
            Some((source, value)) => if utf8_len(value) > 16 {
                source + ":"@ + take_bytes(value, 16) + "..."@
            } else {
                source + ":"@ + value
            },
            None => key,
        }
    }
}

// ---------------------------------------------------------------------------
// Implementation
// ---------------------------------------------------------------------------
/// The environment variables that name a shell session, in order.
pub fn session_vars() -> (r: Vec<&'static str>)
    ensures
        r@.len() == 6,
        forall|i: int| 0 <= i < 6 ==> (#[trigger] r@[i])@ == session_var(i),
{
    vec!["LINK_SESSION_ID", "WT_SESSION", "TERM_SESSION_ID", "ConEmuPID", "TMUX", "STY"]
}

fn env_value(raw: &Option<String>) -> (r: Option<String>)
    ensures
        opt_view(r) == present(opt_view(*raw)),
{
    match raw {
        Some(v) => {
            let cs = chars_of(v.as_str());
            let t = trim_chars(cs.as_slice());
            if t.len() > 0 {
                Some(string_of(t.as_slice()))
            } else {
                None
            }
        },
        None => None,
    }
}

/// The shell session, from the values of the variables of `session_vars`,
/// in that order (`None` for one that is unset): the first whose value is
/// not blank gives the key `NAME:value` (trimmed) and the source `NAME`.
pub fn detect_session(values: &Vec<Option<String>>) -> (r: SessionInfo)
    ensures
        r@ == session_from(values@.map_values(|o: Option<String>| opt_view(o)), 0),
{
    let ghost vs = values@.map_values(|o: Option<String>| opt_view(o));
    let names = session_vars();
    let mut i: usize = 0;
    while i < 6
        invariant
            i <= 6,
            names@.len() == 6,
            forall|k: int| 0 <= k < 6 ==> (#[trigger] names@[k])@ == session_var(k),
            vs == values@.map_values(|o: Option<String>| opt_view(o)),
            session_from(vs, i as int) == session_from(vs, 0),
        decreases 6 - i,
    {
        if i < values.len() {
            assert(raw_at(vs, i as int) == opt_view(values@[i as int]));
            match env_value(&values[i]) {
                Some(v) => {
                    let name = names[i];
                    let mut key = owned(name);
                    push_str(&mut key, ":");
                    push_str(&mut key, v.as_str());
                    return SessionInfo { key: Some(key), source: Some(name) };
                },
                None => {},
            }
        }
        i = i + 1;
    }
    SessionInfo { key: None, source: None }
}

/// Whether a shell session was told apart.
pub fn has_exact_session(session: &SessionInfo) -> (r: bool)
    ensures
        r == (session@.key is Some),
{
    session.key.is_some()
}

/// The history row for a finished command, when the project has an index:
/// the session's key, or `global` when no session was told apart.
pub fn record_command(
    index_exists: bool,
    session: &SessionInfo,
    timestamp: u64,
    cwd: &str,
    invocation: &str,
    success: bool,
) -> (r: Option<CommandRecord>)
    ensures
        !index_exists ==> r is None,
        index_exists ==> (r matches Some(rec) && rec@ == (CommandRecordView {
            ts: timestamp,
            session_key: key_or_global(session@.key),
            cwd: cwd@,
            command: invocation@,
            success,
        })),
{
    if !index_exists {
        return None;
    }
    let session_key = match &session.key {
        Some(k) => owned(k.as_str()),
        None => owned("global"),
    };
    Some(
        CommandRecord {
            ts: timestamp,
            session_key,
            cwd: owned(cwd),
            command: owned(invocation),
            success,
        },
    )
}

fn quote_arg(arg: &str) -> (r: String)
    ensures
        r@ == quoted_arg(arg@),
{
    let cs = chars_of(arg);
    if cs.len() == 0 {
        return owned("\"\"");
    }
    let mut i: usize = 0;
    loop
        invariant
            i <= cs.len(),
            cs@ == arg@,
            forall|k: int| 0 <= k < i ==> !(is_ws(#[trigger] cs@[k]) || cs@[k] == '"' || cs@[k] == '\''),
        ensures
            i <= cs.len(),
            forall|k: int| 0 <= k < i ==> !(is_ws(#[trigger] cs@[k]) || cs@[k] == '"' || cs@[k] == '\''),
            i < cs.len() ==> (is_ws(cs@[i as int]) || cs@[i as int] == '"' || cs@[i as int] == '\''),
        decreases cs.len() - i,
    {
        if i >= cs.len() {
            break;
        }
        let c = cs[i];
        if char_is_ws(c) || c == '"' || c == '\'' {
            break;
        }
        i = i + 1;
    }
    if i >= cs.len() {
        assert(!needs_quotes(arg@));
        return owned(arg);
    }
    assert(needs_quotes(arg@)) by {
        assert(is_ws(cs@[i as int]) || cs@[i as int] == '"' || cs@[i as int] == '\'');
    }
    let backslash = chars_of("\\\\");
    let quote = chars_of("\\\"");
    let once = replace_char_exec(cs.as_slice(), '\\', backslash.as_slice());
    let twice = replace_char_exec(once.as_slice(), '"', quote.as_slice());
    let mut out = owned("\"");
    push_chars(&mut out, twice.as_slice());
    push_str(&mut out, "\"");
    out
}

/// The command line as recorded: `linkmap` and each argument, quoted where
/// needed, after a space.
pub fn format_invocation(args: &Vec<String>) -> (r: String)
    ensures
        r@ == invocation_of(args@.map_values(|a: String| a@)),
{
    let ghost av = args@.map_values(|a: String| a@);
    let mut rendered = owned("linkmap");
    let mut i: usize = 0;
    assert(av.take(0).map_values(|a: Seq<char>| " "@ + quoted_arg(a)) =~= Seq::<Seq<char>>::empty());
    while i < args.len()
        invariant
            i <= args.len(),
            av == args@.map_values(|a: String| a@),
            rendered@ == "linkmap"@ + concat(
                av.take(i as int).map_values(|a: Seq<char>| " "@ + quoted_arg(a)),
            ),
        decreases args.len() - i,
    {
        let ghost before = rendered@;
        push_char(&mut rendered, ' ');
        let q = quote_arg(args[i].as_str());
        push_str(&mut rendered, q.as_str());
        proof {
            assert(av[i as int] == args@[i as int]@);
            assert(av.take(i + 1).map_values(|a: Seq<char>| " "@ + quoted_arg(a)) =~= av.take(
                i as int,
            ).map_values(|a: Seq<char>| " "@ + quoted_arg(a)).push(" "@ + quoted_arg(av[i as int])));
            lemma_concat_push(
                av.take(i as int).map_values(|a: Seq<char>| " "@ + quoted_arg(a)),
                " "@ + quoted_arg(av[i as int]),
            );
            reveal_strlit(" ");
            assert(rendered@ =~= before + (" "@ + quoted_arg(av[i as int])));
        }
        i = i + 1;
    }
    assert(av.take(i as int) =~= av);
    rendered
}

/// What the history shows: all commands, or those of the current session.
pub fn scope_label(all: bool, session: &SessionInfo) -> (r: String)
    ensures
        r@ == scope_text(all, session@.source),
{
    if all {
        owned("all recorded commands for this project")
    } else {
        match session.source {
            Some(source) => {
                let mut label = owned("current session (");
                push_str(&mut label, source);
                push_str(&mut label, ")");
                label
            },
            None => owned("all recorded commands for this project (no shell session id detected)"),
        }
    }
}

/// How long before `now` the time `ts` was (both in seconds since the
/// epoch; a time after `now` counts as now).
pub fn format_age(ts: u64, now: u64) -> (r: String)
    ensures
        r@ == age_text(ts, now),
{
    let delta = now.saturating_sub(ts);
    let mut out = String::new();
    if delta < 60 {
        push_decimal(&mut out, delta);
        push_str(&mut out, "s ago");
    } else if delta < 3600 {
        push_decimal(&mut out, delta / 60);
        push_str(&mut out, "m ago");
    } else if delta < 86_400 {
        push_decimal(&mut out, delta / 3600);
        push_str(&mut out, "h ago");
    } else {
        push_decimal(&mut out, delta / 86_400);
        push_str(&mut out, "d ago");
    }
    out
}

fn take_bytes_exec(v: &[char], b: usize) -> (r: Vec<char>)
    ensures
        r@ == take_bytes(v@, b as int),
{
    let mut out: Vec<char> = Vec::new();
    let mut i: usize = 0;
    let mut left: usize = b;
    assert(v@.skip(0) =~= v@);
    assert(out@ + take_bytes(v@, b as int) =~= take_bytes(v@, b as int));
    loop
        invariant
            i <= v.len(),
            left <= b,
            take_bytes(v@, b as int) == out@ + take_bytes(v@.skip(i as int), left as int),
        ensures
            take_bytes(v@, b as int) == out@,
        decreases v.len() - i,
    {
        if i >= v.len() {
            assert(v@.skip(i as int).len() == 0);
            assert(out@ + Seq::<char>::empty() =~= out@);
            break;
        }
        let c = v[i];
        let code: u32 = c as u32;
        let w: usize = if code < 0x80 {
            1
        } else if code < 0x800 {
            2
        } else if code < 0x10000 {
            3
        } else {
            4
        };
        assert(w == utf8_width(c));
        assert(v@.skip(i as int)[0] == c);
        if w > left {
            assert(out@ + Seq::<char>::empty() =~= out@);
            break;
        }
        assert(v@.skip(i as int).drop_first() =~= v@.skip(i + 1));
        assert(out@.push(c) + take_bytes(v@.skip(i + 1), (left - w) as int) =~= out@ + (seq![c]
            + take_bytes(v@.skip(i + 1), (left - w) as int)));
        out.push(c);
        left = left - w;
        i = i + 1;
    }
    out
}

/// A session key as shown in the history: `global` as it is, otherwise
/// `source:value`, a value longer than 16 bytes cut to 16 bytes and `...`.
pub fn display_session_key(session_key: &str) -> (r: String)
    requires
        displayable_key(session_key@),
    ensures
        r@ == shown_key(session_key@),
{
    if str_eq(session_key, "global") {
        return owned("global");
    }
    let cs = chars_of(session_key);
    let colon = vec![':'];
    assert(colon@ =~= ":"@) by {
        reveal_strlit(":");
    }
    match find_exec(cs.as_slice(), colon.as_slice(), 0) {
        Some(i) => {
            proof {
                crate::text::lemma_find_from_some(cs@, ":"@, 0);
                reveal_strlit(":");
                assert(i + 1 <= cs.len());
            }
            let source = slice_of(cs.as_slice(), 0, i);
            let value = slice_of(cs.as_slice(), i + 1, cs.len());
            assert(source@ =~= cs@.take(i as int));
            assert(value@ =~= cs@.skip(i + 1));
            let mut out = string_of(source.as_slice());
            push_str(&mut out, ":");
            let n = utf8_len_of(value.as_slice());
            if n > 16 {
                let head = take_bytes_exec(value.as_slice(), 16);
                push_chars(&mut out, head.as_slice());
                push_str(&mut out, "...");
            } else {
                push_chars(&mut out, value.as_slice());
            }
            out
        },
        None => owned(session_key),
    }
}

/// The UTF-8 length, capped just above 16: only whether it exceeds 16 matters.
fn utf8_len_of(v: &[char]) -> (r: usize)
    ensures
        (r > 16) == (utf8_len(v@) > 16),
        r <= 16 ==> r == utf8_len(v@),
{
    let mut total: usize = 0;
    let mut i: usize = 0;
    while i < v.len()
        invariant
            i <= v.len(),
            total == utf8_len(v@.take(i as int)),
            total <= 16,
        decreases v.len() - i,
    {
        let code: u32 = v[i] as u32;
        let w: usize = if code < 0x80 {
            1
        } else if code < 0x800 {
            2
        } else if code < 0x10000 {
            3
        } else {
            4
        };
        assert(w == utf8_width(v@[i as int]));
        assert(v@.take(i + 1).drop_last() =~= v@.take(i as int));
        if total + w > 16 {
            proof {
                lemma_utf8_len_prefix(v@, i + 1);
            }
            return 17;
        }
        total = total + w;
        i = i + 1;
    }
    assert(v@.take(i as int) =~= v@);
    total
}

proof fn lemma_utf8_len_prefix(v: Seq<char>, k: int)
    requires
        0 <= k <= v.len(),
    ensures
        utf8_len(v.take(k)) <= utf8_len(v),
    decreases v.len(),
{
    if k < v.len() {
        assert(v.drop_last().take(k) =~= v.take(k));
        lemma_utf8_len_prefix(v.drop_last(), k);
    } else {
        assert(v.take(k) =~= v);
    }
}

// ---------------------------------------------------------------------------
// Laws
// ---------------------------------------------------------------------------
/// A session key whose value fits in 16 bytes is shown as it is.
pub proof fn lemma_short_key_shown_whole(key: Seq<char>)
    requires
        split_colon(key) matches Some((_, value)) && utf8_len(value) <= 16,
    ensures
        shown_key(key) == key,
{
    if key != global_key() {
        let i = find_from(key, ":"@, 0)->0;
        crate::text::lemma_find_from_some(key, ":"@, 0);
        reveal_strlit(":");
        assert(key.subrange(i, i + 1) == ":"@);
        assert(key.take(i) + ":"@ + key.skip(i + 1) =~= key);
    }
}

} // verus!
