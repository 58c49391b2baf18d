//! Reading the output of `git status --porcelain=v1 -z`.
use vstd::prelude::*;
use vstd::utf8::{decode_utf8, valid_utf8};

use super::classify::{normalized, normalized_chars};
use crate::order::{insert_sorted_unique, strictly_sorted, views};
use crate::text::{chars_of, starts_with, starts_with_exec, slice_eq, string_of};

verus! {

/// The text that `String::from_utf8_lossy` decodes from `bytes`.
pub uninterp spec fn utf8_lossy(bytes: Seq<u8>) -> Seq<char>;

/// `String::from_utf8_lossy`, owned. It decodes UTF-8 and replaces each
/// invalid sequence by U+FFFD. The contract names its result and states what
/// std documents for valid input: the decoded characters themselves.
#[verifier::external_body]
fn from_utf8_lossy(bytes: &[u8]) -> (r: String)
    ensures
        r@ == utf8_lossy(bytes@),
        valid_utf8(bytes@) ==> r@ == decode_utf8(bytes@),
{
    String::from_utf8_lossy(bytes).into_owned()
}

/// The text decoded from `bytes` as `String::from_utf8_lossy` does: the
/// characters themselves when the bytes are valid UTF-8.
pub open spec fn lossy_text(bytes: Seq<u8>) -> Seq<char> {
    if valid_utf8(bytes) {
        decode_utf8(bytes)
    } else {
        utf8_lossy(bytes)
    }
}

/// The first position at or after `start` that holds a NUL byte.
pub open spec fn nul_from(s: Seq<u8>, start: int) -> Option<int>
    decreases s.len() - start,
{
    if start < 0 || start >= s.len() {
        None
    } else if s[start] == 0 {
        Some(start)
    } else {
        nul_from(s, start + 1)
    }
}

pub open spec fn rename_or_copy(x: u8, y: u8) -> bool {
    x == 82 || x == 67 || y == 82 || y == 67
}

/// Paths inside `.link` or `.git`.
pub open spec fn internal_path(path: Seq<char>) -> bool {
    path == ".link"@ || starts_with(path, ".link/"@) || path == ".git"@ || starts_with(
        path,
        ".git/"@,
    )
}

/// A path worth reporting: not empty and not internal once normalized.
pub open spec fn reported_path(path: Seq<char>) -> bool {
    normalized(path).len() > 0 && !internal_path(normalized(path))
}

/// The paths of the status records from `cursor` on. Each record is two
/// status bytes, a space, a NUL-terminated path and, for renames and copies,
/// a second NUL-terminated path (where the file came from) that is skipped.
pub open spec fn status_paths(s: Seq<u8>, cursor: int) -> Seq<Seq<char>>
    decreases s.len() - cursor,
{
    if cursor < 0 || cursor + 3 > s.len() || s[cursor + 2] != 32 {
        Seq::empty()
    } else {
        match nul_from(s, cursor + 3) {
            None => Seq::empty(),
            Some(end) => {
                let path = lossy_text(s.subrange(cursor + 3, end));
                let head = if reported_path(path) {
                    seq![path]
                } else {
                    Seq::empty()
                };
                if rename_or_copy(s[cursor], s[cursor + 1]) {
                    match nul_from(s, end + 1) {
                        None => head,
                        Some(orig_end) => if cursor < orig_end < s.len() {
                            head + status_paths(s, orig_end + 1)
                        } else {
                            head
                        },
                    }
                } else if cursor < end < s.len() {
                    head + status_paths(s, end + 1)
                } else {
                    head
                }
            },
        }
    }
}

pub proof fn lemma_nul_from(s: Seq<u8>, start: int)
    ensures
        nul_from(s, start) matches Some(i) ==> start <= i < s.len() && s[i] == 0,
    decreases s.len() - start,
{
    if 0 <= start < s.len() && s[start] != 0 {
        lemma_nul_from(s, start + 1);
    }
}

/// The first NUL byte at or after `start`.
pub fn find_nul(bytes: &[u8], start: usize) -> (r: Option<usize>)
    requires
        start <= bytes.len(),
    ensures
        r matches Some(i) ==> nul_from(bytes@, start as int) == Some(i as int),
        r is None ==> nul_from(bytes@, start as int) is None,
{
    let mut i = start;
    while i < bytes.len()
        invariant
            start <= i <= bytes.len(),
            nul_from(bytes@, start as int) == nul_from(bytes@, i as int),
        decreases bytes.len() - i,
    {
        if bytes[i] == 0 {
            return Some(i);
        }
        i = i + 1;
    }
    None
}

/// A rename (`R`) or copy (`C`) record, which carries a second path.
pub fn is_rename_or_copy_status(status_x: u8, status_y: u8) -> (r: bool)
    ensures
        r == rename_or_copy(status_x, status_y),
{
    status_x == 82 || status_x == 67 || status_y == 82 || status_y == 67
}

/// A path inside `.link` or `.git`.
pub fn is_internal_path(path: &str) -> (r: bool)
    ensures
        r == internal_path(path@),
{
    let p = chars_of(path);
    internal_chars(p.as_slice())
}

fn internal_chars(p: &[char]) -> (r: bool)
    ensures
        r == internal_path(p@),
{
    let link = chars_of(".link");
    let link_dir = chars_of(".link/");
    let git = chars_of(".git");
    let git_dir = chars_of(".git/");
    slice_eq(p, link.as_slice()) || starts_with_exec(p, link_dir.as_slice()) || slice_eq(
        p,
        git.as_slice(),
    ) || starts_with_exec(p, git_dir.as_slice())
}

/// The paths listed by `git status --porcelain=v1 -z`, leaving out the
/// former path of renames and copies, and paths inside `.link` and `.git`.
/// Each path is its bytes decoded as UTF-8, invalid sequences replaced.
/// Reading stops at the first malformed record.
pub fn parse_git_status_output(stdout: &[u8]) -> (r: Vec<String>)
    ensures
        views(r@) == status_paths(stdout@, 0),
{
    let mut paths: Vec<String> = Vec::new();
    let mut cursor: usize = 0;
    let ghost s = stdout@;
    loop
        invariant
            cursor <= stdout.len(),
            s == stdout@,
            views(paths@) + status_paths(s, cursor as int) == status_paths(s, 0),
        decreases stdout.len() - cursor,
    {
        if cursor > stdout.len() || 3 > stdout.len() - cursor {
            assert(status_paths(s, cursor as int) =~= Seq::<Seq<char>>::empty());
            assert(views(paths@) + Seq::<Seq<char>>::empty() =~= views(paths@));
            return paths;
        }
        let status_x = stdout[cursor];
        let status_y = stdout[cursor + 1];
        if stdout[cursor + 2] != 32 {
            assert(views(paths@) + Seq::<Seq<char>>::empty() =~= views(paths@));
            return paths;
        }
        let start = cursor + 3;
        let path_end = match find_nul(stdout, start) {
            Some(e) => e,
            None => {
                assert(views(paths@) + Seq::<Seq<char>>::empty() =~= views(paths@));
                return paths;
            },
        };
        proof {
            lemma_nul_from(s, start as int);
        }
        let path = from_utf8_lossy(&stdout[start..path_end]);
        let ghost old_paths = views(paths@);
        let ghost head = if reported_path(path@) {
            seq![path@]
        } else {
            Seq::<Seq<char>>::empty()
        };
        let next = path_end + 1;
        let n = normalized_chars(path.as_str());
        let keep = n.len() > 0 && !internal_chars(n.as_slice());
        if keep {
            paths.push(path);
        }
        assert(views(paths@) =~= old_paths + head);
        if is_rename_or_copy_status(status_x, status_y) {
            let source_end = match find_nul(stdout, next) {
                Some(e) => e,
                None => {
                    assert(views(paths@) + Seq::<Seq<char>>::empty() =~= views(paths@));
                    return paths;
                },
            };
            proof {
                lemma_nul_from(s, next as int);
                assert(old_paths + head + status_paths(s, source_end + 1) =~= old_paths + (head
                    + status_paths(s, source_end + 1)));
            }
            cursor = source_end + 1;
        } else {
            proof {
                assert(old_paths + head + status_paths(s, next as int) =~= old_paths + (head
                    + status_paths(s, next as int)));
            }
            cursor = next;
        }
    }
}

/// The distinct normalized forms of the paths reported by git, sorted.
pub fn changed_files(raw_paths: &Vec<String>) -> (r: Vec<String>)
    ensures
        strictly_sorted::<String>(views(r@)),
        views(r@).to_set() == views(raw_paths@).map_values(|p: Seq<char>| normalized(p)).to_set(),
{
    let mut r: Vec<String> = Vec::new();
    let ghost src = views(raw_paths@).map_values(|p: Seq<char>| normalized(p));
    let mut i: usize = 0;
    while i < raw_paths.len()
        invariant
            i <= raw_paths.len(),
            src == views(raw_paths@).map_values(|p: Seq<char>| normalized(p)),
            strictly_sorted::<String>(views(r@)),
            views(r@).to_set() == src.take(i as int).to_set(),
        decreases raw_paths.len() - i,
    {
        let n = normalized_chars(raw_paths[i].as_str());
        let ns = string_of(n.as_slice());
        proof {
            assert(src.take(i + 1) =~= src.take(i as int).push(ns@));
            assert(src.take(i + 1).to_set() =~= src.take(i as int).to_set().insert(ns@)) by {
                let a = src.take(i as int);
                assert forall|e: Seq<char>| a.push(ns@).to_set().contains(e) implies a.to_set().insert(
                    ns@,
                ).contains(e) by {
                    let k = choose|k: int| 0 <= k < a.push(ns@).len() && a.push(ns@)[k] == e;
                    if k < a.len() {
                        assert(a[k] == e);
                    }
                }
                assert forall|e: Seq<char>| a.to_set().insert(ns@).contains(e) implies a.push(
                    ns@,
                ).to_set().contains(e) by {
                    if e == ns@ {
                        assert(a.push(ns@)[a.len() as int] == e);
                    } else {
                        let k = choose|k: int| 0 <= k < a.len() && a[k] == e;
                        assert(a.push(ns@)[k] == e);
                    }
                }
            }
        }
        insert_sorted_unique(&mut r, ns);
        i = i + 1;
    }
    assert(src.take(raw_paths.len() as int) =~= src);
    r
}

/// Git status never reports the index's own files: every path is non-empty
/// and outside `.link` and `.git` once normalized.
pub proof fn lemma_status_paths_reported(s: Seq<u8>, cursor: int)
    ensures
        forall|i: int|
            0 <= i < status_paths(s, cursor).len() ==> reported_path(#[trigger] status_paths(s, cursor)[i]),
    decreases s.len() - cursor,
{
    if !(cursor < 0 || cursor + 3 > s.len() || s[cursor + 2] != 32) {
        match nul_from(s, cursor + 3) {
            None => {},
            Some(end) => {
                let path = lossy_text(s.subrange(cursor + 3, end));
                let head = if reported_path(path) {
                    seq![path]
                } else {
                    Seq::empty()
                };
                let r = status_paths(s, cursor);
                if rename_or_copy(s[cursor], s[cursor + 1]) {
                    match nul_from(s, end + 1) {
                        None => {},
                        Some(orig_end) => if cursor < orig_end < s.len() {
                            lemma_status_paths_reported(s, orig_end + 1);
                            let rest = status_paths(s, orig_end + 1);
                            assert forall|i: int| 0 <= i < r.len() implies reported_path(#[trigger] r[i]) by {
                                if i >= head.len() {
                                    assert(r[i] == rest[i - head.len()]);
                                }
                            }
                        },
                    }
                } else if cursor < end < s.len() {
                    lemma_status_paths_reported(s, end + 1);
                    let rest = status_paths(s, end + 1);
                    assert forall|i: int| 0 <= i < r.len() implies reported_path(#[trigger] r[i]) by {
                        if i >= head.len() {
                            assert(r[i] == rest[i - head.len()]);
                        }
                    }
                }
            },
        }
    }
}

} // verus!
