//! Order-preserving selection and counting over sequences.
use vstd::prelude::*;

verus! {

/// The elements of `s` that satisfy `p`, in order.
pub open spec fn select<A>(s: Seq<A>, p: spec_fn(A) -> bool) -> Seq<A>
    decreases s.len(),
{
    if s.len() == 0 {
        Seq::empty()
    } else if p(s.last()) {
        select(s.drop_last(), p).push(s.last())
    } else {
        select(s.drop_last(), p)
    }
}

/// The number of elements of `s` that satisfy `p`.
pub open spec fn count<A>(s: Seq<A>, p: spec_fn(A) -> bool) -> nat
    decreases s.len(),
{
    if s.len() == 0 {
        0
    } else if p(s.last()) {
        count(s.drop_last(), p) + 1
    } else {
        count(s.drop_last(), p)
    }
}

/// The values that `f` gives for the elements of `s`, skipping `None`.
pub open spec fn gather<A, B>(s: Seq<A>, f: spec_fn(A) -> Option<B>) -> Seq<B>
    decreases s.len(),
{
    if s.len() == 0 {
        Seq::empty()
    } else {
        match f(s.last()) {
            Some(b) => gather(s.drop_last(), f).push(b),
            None => gather(s.drop_last(), f),
        }
    }
}

pub proof fn lemma_select_len<A>(s: Seq<A>, p: spec_fn(A) -> bool)
    ensures
        select(s, p).len() <= s.len(),
    decreases s.len(),
{
    if s.len() > 0 {
        lemma_select_len(s.drop_last(), p);
    }
}

pub proof fn lemma_count_le<A>(s: Seq<A>, p: spec_fn(A) -> bool)
    ensures
        count(s, p) <= s.len(),
    decreases s.len(),
{
    if s.len() > 0 {
        lemma_count_le(s.drop_last(), p);
    }
}

/// Every selected element satisfies the predicate and comes from `s`.
pub proof fn lemma_select_member<A>(s: Seq<A>, p: spec_fn(A) -> bool, i: int)
    requires
        0 <= i < select(s, p).len(),
    ensures
        p(select(s, p)[i]),
        s.contains(select(s, p)[i]),
    decreases s.len(),
{
    if s.len() > 0 {
        lemma_select_len(s.drop_last(), p);
        if p(s.last()) && i == select(s, p).len() - 1 {
            assert(s[s.len() - 1] == s.last());
        } else {
            lemma_select_member(s.drop_last(), p, i);
            let x = select(s, p)[i];
            assert(select(s.drop_last(), p)[i] == x);
            let k = choose|k: int| 0 <= k < s.drop_last().len() && s.drop_last()[k] == x;
            assert(s[k] == x);
        }
    }
}


/// Nothing is selected when no element satisfies the predicate.
pub proof fn lemma_select_none<A>(s: Seq<A>, p: spec_fn(A) -> bool)
    requires
        forall|k: int| 0 <= k < s.len() ==> !p(#[trigger] s[k]),
    ensures
        select(s, p) =~= Seq::<A>::empty(),
    decreases s.len(),
{
    if s.len() > 0 {
        assert(!p(s[s.len() - 1]));
        lemma_select_none(s.drop_last(), p);
    }
}

/// When exactly the `j`-th element satisfies the predicate, it alone is
/// selected.
pub proof fn lemma_select_single<A>(s: Seq<A>, p: spec_fn(A) -> bool, j: int)
    requires
        0 <= j < s.len(),
        p(s[j]),
        forall|k: int| 0 <= k < s.len() && k != j ==> !p(#[trigger] s[k]),
    ensures
        select(s, p) =~= seq![s[j]],
    decreases s.len(),
{
    let t = s.drop_last();
    if j == s.len() - 1 {
        lemma_select_none(t, p);
    } else {
        assert(!p(s[s.len() - 1]));
        lemma_select_single(t, p, j);
    }
}

/// Selecting twice selects by both predicates.
pub proof fn lemma_select_select<A>(s: Seq<A>, p: spec_fn(A) -> bool, q: spec_fn(A) -> bool)
    ensures
        select(select(s, p), q) =~= select(s, |x: A| p(x) && q(x)),
    decreases s.len(),
{
    if s.len() > 0 {
        let t = s.drop_last();
        let x = s.last();
        lemma_select_select(t, p, q);
        if p(x) {
            let sp = select(s, p);
            assert(sp == select(t, p).push(x));
            assert(sp.drop_last() =~= select(t, p));
            assert(sp.last() == x);
        }
    }
}

/// A value that `f` gives for an element of `s` is among those gathered.
pub proof fn lemma_gather_contains<A, B>(s: Seq<A>, f: spec_fn(A) -> Option<B>, i: int)
    requires
        0 <= i < s.len(),
        f(s[i]) is Some,
    ensures
        gather(s, f).contains(f(s[i])->0),
    decreases s.len(),
{
    if i == s.len() - 1 {
        assert(gather(s, f)[gather(s, f).len() - 1] == f(s[i])->0);
    } else {
        lemma_gather_contains(s.drop_last(), f, i);
        let g = gather(s.drop_last(), f);
        let k = choose|k: int| 0 <= k < g.len() && g[k] == f(s[i])->0;
        match f(s.last()) {
            Some(b) => {
                assert(gather(s, f)[k] == g[k]);
            },
            None => {},
        }
    }
}

} // verus!
