//! Relative paths as sequences of `/`-separated components.
//!
//! A path's components are the pieces between `/` separators, leaving out empty
//! pieces and `.`; this is how `Path::components` reads a relative path
//! on Unix (the root and `.` carry no name).
use vstd::prelude::*;

use crate::order::views;
use crate::text::{slice_eq, rfind_char, rfind_char_exec, slice_of};

verus! {

/// The pieces of `s` between occurrences of `c` (always at least one piece).
pub open spec fn split_on(s: Seq<char>, c: char) -> Seq<Seq<char>>
    decreases s.len(),
{
    if s.len() == 0 {
        seq![Seq::empty()]
    } else {
        let rest = split_on(s.drop_last(), c);
        if s.last() == c {
            rest.push(Seq::empty())
        } else {
            rest.update(rest.len() - 1, rest.last().push(s.last()))
        }
    }
}

pub open spec fn dot() -> Seq<char> {
    seq!['.']
}

pub open spec fn dot_dot() -> Seq<char> {
    seq!['.', '.']
}

/// A piece that names something: neither empty nor `.`.
pub open spec fn is_named(p: Seq<char>) -> bool {
    p.len() > 0 && p != dot()
}

pub open spec fn keep_named(ps: Seq<Seq<char>>) -> Seq<Seq<char>>
    decreases ps.len(),
{
    if ps.len() == 0 {
        ps
    } else if is_named(ps.last()) {
        keep_named(ps.drop_last()).push(ps.last())
    } else {
        keep_named(ps.drop_last())
    }
}

/// The components of a path.
pub open spec fn components(s: Seq<char>) -> Seq<Seq<char>> {
    keep_named(split_on(s, '/'))
}

/// Resolves `..` against the components before it, never going above the
/// start.
pub open spec fn resolve_parents(ps: Seq<Seq<char>>) -> Seq<Seq<char>>
    decreases ps.len(),
{
    if ps.len() == 0 {
        ps
    } else {
        let acc = resolve_parents(ps.drop_last());
        if ps.last() == dot_dot() {
            if acc.len() > 0 {
                acc.drop_last()
            } else {
                acc
            }
        } else {
            acc.push(ps.last())
        }
    }
}

/// Components joined with `/`.
pub open spec fn join_parts(ps: Seq<Seq<char>>) -> Seq<char>
    decreases ps.len(),
{
    if ps.len() == 0 {
        Seq::empty()
    } else if ps.len() == 1 {
        ps[0]
    } else {
        join_parts(ps.drop_last()) + seq!['/'] + ps.last()
    }
}

/// `Path::file_name`: the last component, unless it is `..`.
pub open spec fn file_name(s: Seq<char>) -> Option<Seq<char>> {
    let cs = components(s);
    if cs.len() == 0 || cs.last() == dot_dot() {
        None
    } else {
        Some(cs.last())
    }
}

/// `Path::extension`: what follows the last `.` of the file name, when that
/// `.` is not its first character.
pub open spec fn extension(s: Seq<char>) -> Option<Seq<char>> {
    match file_name(s) {
        None => None,
        Some(name) => match rfind_char(name, '.') {
            None => None,
            Some(i) => if i == 0 {
                None
            } else {
                Some(name.subrange(i + 1, name.len() as int))
            },
        },
    }
}

pub proof fn lemma_split_on_nonempty(s: Seq<char>, c: char)
    ensures
        split_on(s, c).len() >= 1,
    decreases s.len(),
{
    if s.len() > 0 {
        lemma_split_on_nonempty(s.drop_last(), c);
    }
}

/// The pieces of `s` between occurrences of `c`.
pub fn split_exec(s: &[char], c: char) -> (r: Vec<Vec<char>>)
    ensures
        views(r@) == split_on(s@, c),
{
    let mut r: Vec<Vec<char>> = Vec::new();
    let mut cur: Vec<char> = Vec::new();
    let mut i: usize = 0;
    while i < s.len()
        invariant
            i <= s.len(),
            views(r@).push(cur@) == split_on(s@.take(i as int), c),
        decreases s.len() - i,
    {
        proof {
            lemma_split_on_nonempty(s@.take(i as int), c);
            assert(s@.take(i + 1).drop_last() =~= s@.take(i as int));
        }
        if s[i] == c {
            let done = cur;
            r.push(done);
            cur = Vec::new();
            assert(views(r@).push(cur@) =~= split_on(s@.take(i + 1), c));
        } else {
            let ghost before = views(r@).push(cur@);
            cur.push(s[i]);
            assert(views(r@).push(cur@) =~= before.update(before.len() - 1, before.last().push(
                s@[i as int],
            )));
        }
        i = i + 1;
    }
    r.push(cur);
    assert(s@.take(s.len() as int) =~= s@);
    assert(views(r@) =~= split_on(s@, c));
    r
}

fn is_named_exec(p: &[char]) -> (r: bool)
    ensures
        r == is_named(p@),
{
    if p.len() == 0 {
        return false;
    }
    if p.len() == 1 && p[0] == '.' {
        assert(p@ =~= dot());
        return false;
    }
    assert(p@ != dot()) by {
        if p@ == dot() {
            assert(p@[0] == '.');
        }
    }
    true
}

/// The components of a path.
pub fn components_exec(s: &[char]) -> (r: Vec<Vec<char>>)
    ensures
        views(r@) == components(s@),
{
    let pieces = split_exec(s, '/');
    let mut r: Vec<Vec<char>> = Vec::new();
    let mut i: usize = 0;
    while i < pieces.len()
        invariant
            i <= pieces.len(),
            views(pieces@) == split_on(s@, '/'),
            views(r@) == keep_named(views(pieces@).take(i as int)),
        decreases pieces.len() - i,
    {
        let ghost t = views(pieces@).take(i + 1);
        assert(t.drop_last() =~= views(pieces@).take(i as int));
        assert(t.last() == pieces@[i as int]@);
        if is_named_exec(pieces[i].as_slice()) {
            let p = slice_of(pieces[i].as_slice(), 0, pieces[i].len());
            assert(p@ =~= pieces@[i as int]@);
            r.push(p);
            assert(views(r@) =~= keep_named(t));
        }
        i = i + 1;
    }
    assert(views(pieces@).take(pieces.len() as int) =~= views(pieces@));
    r
}

/// Resolves `..` components.
pub fn resolve_parents_exec(ps: &Vec<Vec<char>>) -> (r: Vec<Vec<char>>)
    ensures
        views(r@) == resolve_parents(views(ps@)),
{
    let mut r: Vec<Vec<char>> = Vec::new();
    let mut i: usize = 0;
    let dd = vec!['.', '.'];
    assert(dd@ =~= dot_dot());
    while i < ps.len()
        invariant
            i <= ps.len(),
            dd@ == dot_dot(),
            views(r@) == resolve_parents(views(ps@).take(i as int)),
        decreases ps.len() - i,
    {
        let ghost t = views(ps@).take(i + 1);
        assert(t.drop_last() =~= views(ps@).take(i as int));
        assert(t.last() == ps@[i as int]@);
        if slice_eq(ps[i].as_slice(), dd.as_slice()) {
            if r.len() > 0 {
                let _ = r.pop();
                assert(views(r@) =~= resolve_parents(t));
            }
        } else {
            let p = slice_of(ps[i].as_slice(), 0, ps[i].len());
            assert(p@ =~= ps@[i as int]@);
            r.push(p);
            assert(views(r@) =~= resolve_parents(t));
        }
        i = i + 1;
    }
    assert(views(ps@).take(ps.len() as int) =~= views(ps@));
    r
}

/// Components joined with `/`.
pub fn join_parts_exec(ps: &Vec<Vec<char>>) -> (r: Vec<char>)
    ensures
        r@ == join_parts(views(ps@)),
{
    let mut r: Vec<char> = Vec::new();
    let mut i: usize = 0;
    while i < ps.len()
        invariant
            i <= ps.len(),
            r@ == join_parts(views(ps@).take(i as int)),
        decreases ps.len() - i,
    {
        let ghost t = views(ps@).take(i + 1);
        assert(t.drop_last() =~= views(ps@).take(i as int));
        assert(t.last() == ps@[i as int]@);
        if i > 0 {
            r.push('/');
        }
        let mut j: usize = 0;
        let ghost before = r@;
        while j < ps[i].len()
            invariant
                i < ps.len(),
                j <= ps@[i as int]@.len(),
                r@ == before + ps@[i as int]@.take(j as int),
            decreases ps@[i as int]@.len() - j,
        {
            r.push(ps[i][j]);
            assert(ps@[i as int]@.take(j + 1) =~= ps@[i as int]@.take(j as int).push(
                ps@[i as int]@[j as int],
            ));
            j = j + 1;
        }
        assert(ps@[i as int]@.take(ps@[i as int]@.len() as int) =~= ps@[i as int]@);
        if i == 0 {
            assert(r@ =~= join_parts(t));
        } else {
            assert(r@ =~= join_parts(t));
        }
        i = i + 1;
    }
    assert(views(ps@).take(ps.len() as int) =~= views(ps@));
    r
}

/// A copy of a character vector.
pub fn copy_chars(v: &Vec<char>) -> (r: Vec<char>)
    ensures
        r@ == v@,
{
    let r = slice_of(v.as_slice(), 0, v.len());
    assert(v@.subrange(0, v@.len() as int) =~= v@);
    r
}

/// The components of `a` followed by those of `b`.
pub fn concat_parts(a: &Vec<Vec<char>>, b: &Vec<Vec<char>>) -> (r: Vec<Vec<char>>)
    ensures
        views(r@) == views(a@) + views(b@),
{
    let mut r: Vec<Vec<char>> = Vec::new();
    let mut i: usize = 0;
    while i < a.len()
        invariant
            i <= a.len(),
            r.len() == i,
            views(r@) == views(a@).take(i as int),
        decreases a.len() - i,
    {
        let p = copy_chars(&a[i]);
        assert(views(a@)[i as int] == a@[i as int]@);
        let ghost old_r = r@;
        r.push(p);
        assert(views(r@).take(i as int) =~= views(old_r));
        assert(views(r@) =~= views(a@).take(i + 1));
        i = i + 1;
    }
    assert(views(a@).take(a.len() as int) =~= views(a@));
    let mut j: usize = 0;
    while j < b.len()
        invariant
            j <= b.len(),
            r.len() == a.len() + j,
            views(r@) == views(a@) + views(b@).take(j as int),
        decreases b.len() - j,
    {
        let p = copy_chars(&b[j]);
        assert(views(b@)[j as int] == b@[j as int]@);
        let ghost old_r = r@;
        r.push(p);
        assert(views(r@).take(r.len() - 1) =~= views(old_r));
        assert forall|k: int| 0 <= k < r.len() implies views(r@)[k] == (views(a@) + views(b@).take(j + 1))[k] by {
            if k < r.len() - 1 {
                assert(views(r@)[k] == views(old_r)[k]);
            }
        }
        assert(views(r@) =~= views(a@) + views(b@).take(j + 1));
        j = j + 1;
    }
    assert(views(b@).take(b.len() as int) =~= views(b@));
    r
}

/// `Path::file_name`.
pub fn file_name_exec(s: &[char]) -> (r: Option<Vec<char>>)
    ensures
        r matches Some(v) ==> file_name(s@) == Some(v@),
        r is None ==> file_name(s@) is None,
{
    let mut cs = components_exec(s);
    if cs.len() == 0 {
        return None;
    }
    let ghost all = views(cs@);
    let last = cs.pop().unwrap();
    assert(last@ == all.last());
    let dd = vec!['.', '.'];
    assert(dd@ =~= dot_dot());
    if slice_eq(last.as_slice(), dd.as_slice()) {
        None
    } else {
        Some(last)
    }
}

/// `Path::extension`.
pub fn extension_exec(s: &[char]) -> (r: Option<Vec<char>>)
    ensures
        r matches Some(v) ==> extension(s@) == Some(v@),
        r is None ==> extension(s@) is None,
{
    match file_name_exec(s) {
        None => None,
        Some(name) => match rfind_char_exec(name.as_slice(), '.') {
            None => None,
            Some(i) => if i == 0 {
                None
            } else {
                proof {
                    lemma_rfind_char_bound(name@, '.', i as int);
                }
                assert(i < name.len());
                Some(slice_of(name.as_slice(), i + 1, name.len()))
            },
        },
    }
}

pub proof fn lemma_rfind_char_bound(s: Seq<char>, c: char, i: int)
    requires
        rfind_char(s, c) == Some(i),
    ensures
        0 <= i < s.len(),
        s[i] == c,
    decreases s.len(),
{
    if s.len() > 0 && s.last() != c {
        lemma_rfind_char_bound(s.drop_last(), c, i);
    }
}

} // verus!
