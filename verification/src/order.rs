//! Strict total orders on the views of values, and sorted collections of
//! distinct values built from them.
use vstd::prelude::*;

use crate::text::{
    lemma_seq_lt_irreflexive, lemma_seq_lt_total, lemma_seq_lt_transitive, seq_lt, str_lt,
};

verus! {

/// A strict total order on the views of a type, with an exec comparison.
pub trait Ordered: View + Sized {
    spec fn view_lt(a: Self::V, b: Self::V) -> bool;

    proof fn lemma_irreflexive(a: Self::V)
        ensures
            !Self::view_lt(a, a),
    ;

    proof fn lemma_transitive(a: Self::V, b: Self::V, c: Self::V)
        requires
            Self::view_lt(a, b),
            Self::view_lt(b, c),
        ensures
            Self::view_lt(a, c),
    ;

    proof fn lemma_total(a: Self::V, b: Self::V)
        requires
            a != b,
        ensures
            Self::view_lt(a, b) || Self::view_lt(b, a),
    ;

    fn less(&self, other: &Self) -> (r: bool)
        ensures
            r == Self::view_lt(self@, other@),
    ;

    fn duplicate(&self) -> (r: Self)
        ensures
            r@ == self@,
    ;
}

/// The views of the elements of a sequence.
pub open spec fn views<T: View>(s: Seq<T>) -> Seq<T::V> {
    s.map_values(|x: T| x@)
}

pub proof fn lemma_views_add<T: View>(a: Seq<T>, b: Seq<T>)
    ensures
        views(a + b) == views(a) + views(b),
{
    assert(views(a + b) =~= views(a) + views(b));
}

pub proof fn lemma_views_push<T: View>(s: Seq<T>, x: T)
    ensures
        views(s.push(x)) == views(s).push(x@),
{
    assert(views(s.push(x)) =~= views(s).push(x@));
}

/// Mapping one more element of a prefix appends its image.
pub proof fn lemma_map_take_push<A, B>(s: Seq<A>, f: spec_fn(A) -> B, i: int)
    requires
        0 <= i < s.len(),
    ensures
        s.take(i + 1).map_values(f) == s.take(i).map_values(f).push(f(s[i])),
{
    assert(s.take(i + 1).map_values(f) =~= s.take(i).map_values(f).push(f(s[i])));
}

/// Strictly increasing, hence without repeated views.
pub open spec fn strictly_sorted<T: Ordered>(s: Seq<T::V>) -> bool {
    forall|i: int, j: int| 0 <= i < j < s.len() ==> T::view_lt(s[i], s[j])
}

impl Ordered for String {
    open spec fn view_lt(a: Seq<char>, b: Seq<char>) -> bool {
        seq_lt(a, b)
    }

    proof fn lemma_irreflexive(a: Seq<char>) {
        lemma_seq_lt_irreflexive(a);
    }

    proof fn lemma_transitive(a: Seq<char>, b: Seq<char>, c: Seq<char>) {
        lemma_seq_lt_transitive(a, b, c);
    }

    proof fn lemma_total(a: Seq<char>, b: Seq<char>) {
        lemma_seq_lt_total(a, b);
    }

    fn less(&self, other: &Self) -> (r: bool) {
        str_lt(self.as_str(), other.as_str())
    }

    fn duplicate(&self) -> (r: Self) {
        self.clone()
    }
}

/// Whether two values have the same view.
pub fn same_view<T: Ordered>(a: &T, b: &T) -> (r: bool)
    ensures
        r == (a@ == b@),
{
    let lt = a.less(b);
    let gt = b.less(a);
    proof {
        if a@ == b@ {
            T::lemma_irreflexive(a@);
        } else {
            T::lemma_total(a@, b@);
        }
    }
    !lt && !gt
}

/// Whether some element of `v` has the view of `x`.
pub fn contains_view<T: Ordered>(v: &Vec<T>, x: &T) -> (r: bool)
    ensures
        r == views(v@).contains(x@),
{
    let mut i: usize = 0;
    while i < v.len()
        invariant
            i <= v.len(),
            forall|j: int| 0 <= j < i ==> v@[j]@ != x@,
        decreases v.len() - i,
    {
        if same_view(&v[i], x) {
            assert(views(v@)[i as int] == x@);
            return true;
        }
        i = i + 1;
    }
    assert(!views(v@).contains(x@)) by {
        if views(v@).contains(x@) {
            let k = choose|k: int| 0 <= k < views(v@).len() && views(v@)[k] == x@;
            assert(v@[k]@ == x@);
        }
    }
    false
}

/// The distinct views of `a` that are not views of `b`, strictly sorted.
pub fn sorted_difference<T: Ordered>(a: &Vec<T>, b: &Vec<T>) -> (r: Vec<T>)
    ensures
        strictly_sorted::<T>(views(r@)),
        views(r@).to_set() == views(a@).to_set().difference(views(b@).to_set()),
{
    let mut r: Vec<T> = Vec::new();
    let mut i: usize = 0;
    while i < a.len()
        invariant
            i <= a.len(),
            strictly_sorted::<T>(views(r@)),
            views(r@).to_set() == views(a@).take(i as int).to_set().difference(views(b@).to_set()),
        decreases a.len() - i,
    {
        let ghost before = views(r@);
        let ghost pre = views(a@).take(i as int);
        let ghost x = a@[i as int]@;
        proof {
            assert(views(a@).take(i + 1) =~= pre.push(x));
            lemma_push_to_set(pre, x);
        }
        if !contains_view(b, &a[i]) {
            insert_sorted_unique(&mut r, a[i].duplicate());
            assert(views(r@).to_set() =~= views(a@).take(i + 1).to_set().difference(
                views(b@).to_set(),
            ));
        } else {
            assert(views(r@).to_set() =~= views(a@).take(i + 1).to_set().difference(
                views(b@).to_set(),
            ));
        }
        i = i + 1;
    }
    assert(views(a@).take(a.len() as int) =~= views(a@));
    r
}

pub proof fn lemma_push_to_set<A>(s: Seq<A>, x: A)
    ensures
        s.push(x).to_set() == s.to_set().insert(x),
{
    assert forall|e: A| s.push(x).to_set().contains(e) implies s.to_set().insert(x).contains(e) by {
        let k = choose|k: int| 0 <= k < s.push(x).len() && s.push(x)[k] == e;
        if k < s.len() {
            assert(s[k] == e);
        }
    }
    assert forall|e: A| s.to_set().insert(x).contains(e) implies s.push(x).to_set().contains(e) by {
        if e == x {
            assert(s.push(x)[s.len() as int] == e);
        } else {
            let k = choose|k: int| 0 <= k < s.len() && s[k] == e;
            assert(s.push(x)[k] == e);
        }
    }
    assert(s.push(x).to_set() =~= s.to_set().insert(x));
}

/// Inserts `x` into a strictly sorted vector unless an element with the same
/// view is already there.
pub fn insert_sorted_unique<T: Ordered>(v: &mut Vec<T>, x: T)
    requires
        strictly_sorted::<T>(views(old(v)@)),
    ensures
        strictly_sorted::<T>(views(final(v)@)),
        views(final(v)@).to_set() == views(old(v)@).to_set().insert(x@),
{
    let ghost old_views = views(v@);
    let mut i: usize = 0;
    while i < v.len() && v[i].less(&x)
        invariant
            i <= v.len(),
            v@ == old(v)@,
            old_views == views(v@),
            strictly_sorted::<T>(old_views),
            forall|j: int| 0 <= j < i ==> T::view_lt(#[trigger] old_views[j], x@),
        decreases v.len() - i,
    {
        i = i + 1;
    }
    if i < v.len() && !x.less(&v[i]) {
        // an element with the same view is already present
        proof {
            let y = old_views[i as int];
            if y != x@ {
                T::lemma_total(y, x@);
            }
            assert(old_views.to_set().insert(x@) =~= old_views.to_set()) by {
                assert(old_views.contains(y));
            }
        }
        return ;
    }
    v.insert(i, x);
    proof {
        let nv = views(v@);
        assert(nv =~= old_views.insert(i as int, x@));
        assert forall|a: int, b: int| 0 <= a < b < nv.len() implies T::view_lt(nv[a], nv[b]) by {
            if b < i {
            } else if a < i && b == i {
            } else if a < i && b > i {
                assert(nv[b] == old_views[b - 1]);
                if i < old_views.len() {
                    T::lemma_total(x@, old_views[i as int]);
                    if b - 1 > i {
                        T::lemma_transitive(old_views[a], x@, old_views[i as int]);
                        T::lemma_transitive(old_views[a], old_views[i as int], old_views[b - 1]);
                    } else {
                        T::lemma_transitive(old_views[a], x@, old_views[i as int]);
                    }
                }
            } else if a == i {
                assert(nv[b] == old_views[b - 1]);
                T::lemma_total(x@, old_views[i as int]);
                if x@ == old_views[i as int] {
                } else if b - 1 > i {
                    T::lemma_transitive(x@, old_views[i as int], old_views[b - 1]);
                }
            } else {
                assert(nv[a] == old_views[a - 1]);
                assert(nv[b] == old_views[b - 1]);
            }
        }
        assert(nv.to_set() =~= old_views.to_set().insert(x@)) by {
            assert forall|e: T::V| nv.to_set().contains(e) implies old_views.to_set().insert(
                x@,
            ).contains(e) by {
                let k = choose|k: int| 0 <= k < nv.len() && nv[k] == e;
                if k < i {
                    assert(old_views[k] == e);
                } else if k > i {
                    assert(old_views[k - 1] == e);
                }
            }
            assert forall|e: T::V| old_views.to_set().insert(x@).contains(e) implies nv.to_set().contains(
                e,
            ) by {
                if e == x@ {
                    assert(nv[i as int] == e);
                } else {
                    let k = choose|k: int| 0 <= k < old_views.len() && old_views[k] == e;
                    if k < i {
                        assert(nv[k] == e);
                    } else {
                        assert(nv[k + 1] == e);
                    }
                }
            }
        }
    }
}

/// The distinct views of `items`, as a strictly sorted vector.
pub fn sort_unique<T: Ordered>(items: Vec<T>) -> (r: Vec<T>)
    ensures
        strictly_sorted::<T>(views(r@)),
        views(r@).to_set() == views(items@).to_set(),
{
    let mut r: Vec<T> = Vec::new();
    let mut rest = items;
    let ghost all = views(rest@);
    // consume from the back so that each step is constant time
    while rest.len() > 0
        invariant
            strictly_sorted::<T>(views(r@)),
            all.len() >= rest.len(),
            views(rest@) == all.subrange(0, rest.len() as int),
            views(r@).to_set() == all.subrange(rest.len() as int, all.len() as int).to_set(),
        decreases rest.len(),
    {
        let ghost n = rest.len();
        let ghost old_rest = rest@;
        proof {
            assert(views(old_rest)[n - 1] == all.subrange(0, n as int)[n - 1]);
        }
        let x = rest.pop().unwrap();
        proof {
            assert(x == old_rest[n - 1]);
            assert(views(rest@) =~= all.subrange(0, rest.len() as int));
            assert(x@ == all[n - 1]);
            assert(all.subrange(n - 1, all.len() as int) =~= all.subrange(
                n as int,
                all.len() as int,
            ).insert(0, x@));
            assert(all.subrange(n - 1, all.len() as int).to_set() =~= all.subrange(
                n as int,
                all.len() as int,
            ).to_set().insert(x@)) by {
                let s = all.subrange(n as int, all.len() as int);
                let t = all.subrange(n - 1, all.len() as int);
                assert forall|e: T::V| t.to_set().contains(e) implies s.to_set().insert(
                    x@,
                ).contains(e) by {
                    let q = choose|q: int| 0 <= q < t.len() && t[q] == e;
                    if q > 0 {
                        assert(s[q - 1] == e);
                    }
                }
                assert forall|e: T::V| s.to_set().insert(x@).contains(e) implies t.to_set().contains(
                    e,
                ) by {
                    if e == x@ {
                        assert(t[0] == e);
                    } else {
                        let q = choose|q: int| 0 <= q < s.len() && s[q] == e;
                        assert(t[q + 1] == e);
                    }
                }
            }
        }
        insert_sorted_unique(&mut r, x);
    }
    proof {
        assert(all.subrange(0, all.len() as int) =~= all);
    }
    r
}


/// Two strictly sorted sequences with the same elements are the same
/// sequence.
pub proof fn lemma_sorted_same_set<T: Ordered>(a: Seq<T::V>, b: Seq<T::V>)
    requires
        strictly_sorted::<T>(a),
        strictly_sorted::<T>(b),
        a.to_set() == b.to_set(),
    ensures
        a == b,
    decreases a.len(),
{
    if a.len() == 0 {
        if b.len() > 0 {
            assert(b.to_set().contains(b[0]));
            assert(a.to_set().contains(b[0]));
        }
        assert(a =~= b);
    } else {
        assert(a.to_set().contains(a[0]));
        assert(b.to_set().contains(a[0]));
        let j = choose|j: int| 0 <= j < b.len() && b[j] == a[0];
        let i = choose|i: int| 0 <= i < a.len() && a[i] == b[0];
        assert(a.to_set().contains(b[0])) by {
            assert(b.to_set().contains(b[0]));
        }
        // both first elements are the least
        if a[0] != b[0] {
            assert(j > 0 && i > 0);
            assert(T::view_lt(b[0], b[j]));
            assert(T::view_lt(a[0], a[i]));
            T::lemma_transitive(a[0], b[0], a[0]);
            T::lemma_irreflexive(a[0]);
        }
        let a1 = a.drop_first();
        let b1 = b.drop_first();
        assert forall|x: T::V| a1.to_set().contains(x) implies b1.to_set().contains(x) by {
            let k = choose|k: int| 0 <= k < a1.len() && a1[k] == x;
            assert(a[k + 1] == x);
            assert(T::view_lt(a[0], a[k + 1]));
            T::lemma_irreflexive(x);
            assert(a.to_set().contains(x));
            assert(b.to_set().contains(x));
            let m = choose|m: int| 0 <= m < b.len() && b[m] == x;
            assert(m != 0);
            assert(b1[m - 1] == x);
        }
        assert forall|x: T::V| b1.to_set().contains(x) implies a1.to_set().contains(x) by {
            let k = choose|k: int| 0 <= k < b1.len() && b1[k] == x;
            assert(b[k + 1] == x);
            assert(T::view_lt(b[0], b[k + 1]));
            T::lemma_irreflexive(x);
            assert(b.to_set().contains(x));
            assert(a.to_set().contains(x));
            let m = choose|m: int| 0 <= m < a.len() && a[m] == x;
            assert(m != 0);
            assert(a1[m - 1] == x);
        }
        assert(a1.to_set() =~= b1.to_set());
        lemma_sorted_same_set::<T>(a1, b1);
        assert(a =~= seq![a[0]] + a1);
        assert(b =~= seq![b[0]] + b1);
    }
}

} // verus!
