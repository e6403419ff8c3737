//! The order strings sort in, and a stable sort by name.
//!
//! Strings compare character by character by code point, a proper prefix
//! before any extension of it; for UTF-8 text this is the order `str`'s own
//! comparison gives.

use vstd::prelude::*;

use crate::text::chars_of;

verus! {

broadcast use vstd::seq_lib::group_to_multiset_ensures;

/// `a` sorts strictly before `b`.
pub open spec fn lex_lt(a: Seq<char>, b: Seq<char>) -> bool
    decreases a.len(),
{
    if b.len() == 0 {
        false
    } else if a.len() == 0 {
        true
    } else if a[0] != b[0] {
        (a[0] as int) < (b[0] as int)
    } else {
        lex_lt(a.drop_first(), b.drop_first())
    }
}

/// `a` sorts before `b` or equals it.
pub open spec fn lex_le(a: Seq<char>, b: Seq<char>) -> bool {
    a == b || lex_lt(a, b)
}

/// No string sorts before itself.
pub proof fn lemma_lex_irreflexive(a: Seq<char>)
    ensures
        !lex_lt(a, a),
    decreases a.len(),
{
    if a.len() > 0 {
        lemma_lex_irreflexive(a.drop_first());
    }
}

/// Of two different strings exactly one sorts first.
pub proof fn lemma_lex_total(a: Seq<char>, b: Seq<char>)
    ensures
        a != b ==> (lex_lt(a, b) || lex_lt(b, a)),
        !(lex_lt(a, b) && lex_lt(b, a)),
    decreases a.len(),
{
    if a.len() > 0 && b.len() > 0 {
        if a[0] == b[0] {
            lemma_lex_total(a.drop_first(), b.drop_first());
            if a != b {
                assert(a =~= seq![a[0]] + a.drop_first());
                assert(b =~= seq![b[0]] + b.drop_first());
            }
        } else {
        }
    } else if a.len() == 0 && b.len() == 0 {
        assert(a =~= b);
    }
}

/// Sorting first is transitive.
pub proof fn lemma_lex_transitive(a: Seq<char>, b: Seq<char>, c: Seq<char>)
    requires
        lex_lt(a, b),
        lex_lt(b, c),
    ensures
        lex_lt(a, c),
    decreases a.len(),
{
    if a.len() > 0 && a[0] == b[0] && b[0] == c[0] {
        lemma_lex_transitive(a.drop_first(), b.drop_first(), c.drop_first());
    }
}

/// Whether `a` sorts strictly before `b`.
pub fn str_lt(a: &str, b: &str) -> (r: bool)
    ensures
        r == lex_lt(a@, b@),
{
    let x = chars_of(a);
    let y = chars_of(b);
    let mut i: usize = 0;
    assert(x@.skip(0) =~= x@);
    assert(y@.skip(0) =~= y@);
    while i < x.len() && i < y.len() && x[i] == y[i]
        invariant
            i <= x@.len(),
            i <= y@.len(),
            x@ == a@,
            y@ == b@,
            lex_lt(a@, b@) == lex_lt(x@.skip(i as int), y@.skip(i as int)),
        decreases x@.len() - i,
    {
        assert(x@.skip(i as int).drop_first() =~= x@.skip(i + 1));
        assert(y@.skip(i as int).drop_first() =~= y@.skip(i + 1));
        i = i + 1;
    }
    if i == y.len() {
        false
    } else if i == x.len() {
        true
    } else {
        x[i] < y[i]
    }
}

/// Values that carry a name to sort by.
pub trait Named {
    spec fn name_view(&self) -> Seq<char>;

    fn name_str(&self) -> (r: &str)
        ensures
            r@ == self.name_view();
}

/// The names never decrease along `s`.
pub open spec fn sorted_by_name<T: Named>(s: Seq<T>) -> bool {
    forall|i: int, j: int| 0 <= i < j < s.len() ==> lex_le(#[trigger] s[i].name_view(), #[trigger] s[j].name_view())
}

/// Sorts by name; values with equal names keep their order.
pub fn sort_by_name<T: Named>(v: Vec<T>) -> (r: Vec<T>)
    ensures
        r@.to_multiset() == v@.to_multiset(),
        sorted_by_name(r@),
{
    let ghost all = v@;
    let mut out: Vec<T> = Vec::new();
    let mut rest: Vec<T> = v;
    while rest.len() > 0
        invariant
            out@.to_multiset().add(rest@.to_multiset()) == all.to_multiset(),
            sorted_by_name(out@),
        decreases rest@.len(),
    {
        let ghost before_rest = rest@;
        let x = rest.remove(0);
        assert(before_rest.remove(0) == rest@);
        let mut p: usize = out.len();
        while p > 0 && str_lt(x.name_str(), out[p - 1].name_str())
            invariant
                p <= out@.len(),
                forall|k: int| p <= k < out@.len() ==> lex_lt(x.name_view(), #[trigger] out@[k].name_view()),
            decreases p,
        {
            p = p - 1;
        }
        proof {
            if p > 0 {
                lemma_lex_total(x.name_view(), out@[p - 1].name_view());
            }
            assert forall|i: int, j: int| 0 <= i < j < out@.insert(p as int, x).len() implies lex_le(
                #[trigger] out@.insert(p as int, x)[i].name_view(),
                #[trigger] out@.insert(p as int, x)[j].name_view(),
            ) by {
                let s = out@.insert(p as int, x);
                if i < p && j == p {
                    if i < p - 1 {
                        assert(lex_le(out@[i].name_view(), out@[p - 1].name_view()));
                        if lex_lt(out@[i].name_view(), out@[p - 1].name_view()) && lex_lt(out@[p - 1].name_view(), x.name_view()) {
                            lemma_lex_transitive(out@[i].name_view(), out@[p - 1].name_view(), x.name_view());
                        }
                    }
                } else if i == p && j > p {
                    assert(s[j] == out@[j - 1]);
                } else if i < p && j > p {
                    assert(s[j] == out@[j - 1]);
                    assert(lex_le(out@[i].name_view(), out@[j - 1].name_view()));
                } else if i > p {
                    assert(s[i] == out@[i - 1]);
                    assert(s[j] == out@[j - 1]);
                }
            }
        }
        out.insert(p, x);
    }
    out
}

} // verus!

verus! {

/// Values that sort by a key of their own.
pub trait SortKey {
    /// `self` sorts strictly before `other`.
    spec fn key_lt(&self, other: &Self) -> bool;

    fn less_than(&self, other: &Self) -> (r: bool)
        ensures
            r == self.key_lt(other);
}

/// `s` with `x` put after every element it does not sort before.
pub open spec fn insert_sorted<T: SortKey>(s: Seq<T>, x: T) -> Seq<T>
    decreases s.len(),
{
    if s.len() == 0 || !x.key_lt(&s.last()) {
        s.push(x)
    } else {
        insert_sorted(s.drop_last(), x).push(s.last())
    }
}

/// The stable sort of `s`: its elements inserted one by one, in order.
pub open spec fn stable_sorted<T: SortKey>(s: Seq<T>) -> Seq<T>
    decreases s.len(),
{
    if s.len() == 0 {
        Seq::empty()
    } else {
        insert_sorted(stable_sorted(s.drop_last()), s.last())
    }
}

/// Later elements never sort before earlier ones.
pub open spec fn key_sorted<T: SortKey>(s: Seq<T>) -> bool {
    forall|i: int, j: int| #![trigger s[i], s[j]] 0 <= i < j < s.len() ==> !s[j].key_lt(&s[i])
}

/// `key_lt` is asymmetric and its complement transitive: a strict weak order.
pub open spec fn strict_weak_order<T: SortKey>() -> bool {
    &&& forall|a: T, b: T| #![trigger a.key_lt(&b)] a.key_lt(&b) ==> !b.key_lt(&a)
    &&& forall|a: T, b: T, c: T| #![trigger a.key_lt(&b), b.key_lt(&c)] !a.key_lt(&b) && !b.key_lt(&c) ==> !a.key_lt(&c)
}

proof fn lemma_insert_at<T: SortKey>(s: Seq<T>, x: T, p: int)
    requires
        0 <= p <= s.len(),
        forall|q: int| #![trigger s[q]] p <= q < s.len() ==> x.key_lt(&s[q]),
        p == 0 || !x.key_lt(&s[p - 1]),
    ensures
        s.insert(p, x) == insert_sorted(s, x),
    decreases s.len(),
{
    if p == s.len() {
        assert(s.insert(p, x) =~= s.push(x));
    } else {
        let init = s.drop_last();
        assert(x.key_lt(&s[s.len() - 1]));
        assert forall|q: int| #![trigger init[q]] p <= q < init.len() implies x.key_lt(&init[q]) by {
            assert(init[q] == s[q]);
        }
        if p > 0 {
            assert(init[p - 1] == s[p - 1]);
        }
        lemma_insert_at(init, x, p);
        assert(s.insert(p, x) =~= init.insert(p, x).push(s.last()));
    }
}

/// Insertion keeps a sequence sorted under a strict weak order.
pub proof fn lemma_insert_sorted<T: SortKey>(s: Seq<T>, x: T)
    requires
        strict_weak_order::<T>(),
        key_sorted(s),
    ensures
        key_sorted(insert_sorted(s, x)),
        insert_sorted(s, x).len() == s.len() + 1,
    decreases s.len(),
{
    if s.len() == 0 || !x.key_lt(&s.last()) {
        let r = s.push(x);
        assert forall|i: int, j: int| #![trigger r[i], r[j]] 0 <= i < j < r.len() implies !r[j].key_lt(&r[i]) by {
            if j == s.len() {
                if i < s.len() - 1 {
                    assert(!s[s.len() - 1].key_lt(&s[i]));
                }
            }
        }
    } else {
        let init = s.drop_last();
        assert forall|i: int, j: int| #![trigger init[i], init[j]] 0 <= i < j < init.len() implies !init[j].key_lt(&init[i]) by {
            assert(init[i] == s[i] && init[j] == s[j]);
        }
        lemma_insert_sorted(init, x);
        let m = insert_sorted(init, x);
        let r = m.push(s.last());
        lemma_insert_sorted_members(init, x);
        assert forall|i: int, j: int| #![trigger r[i], r[j]] 0 <= i < j < r.len() implies !r[j].key_lt(&r[i]) by {
            if j == m.len() {
                assert(r[i] == m[i]);
                if m[i] == x {
                } else {
                    let k = choose|k: int| 0 <= k < init.len() && init[k] == m[i];
                    assert(init[k] == s[k]);
                    assert(!s[s.len() - 1].key_lt(&s[k]));
                }
            }
        }
    }
}

/// Insertion adds `x` and keeps the rest.
pub proof fn lemma_insert_sorted_members<T: SortKey>(s: Seq<T>, x: T)
    ensures
        forall|i: int| 0 <= i < insert_sorted(s, x).len() ==> (#[trigger] insert_sorted(s, x)[i] == x
            || exists|k: int| 0 <= k < s.len() && s[k] == insert_sorted(s, x)[i]),
    decreases s.len(),
{
    if s.len() == 0 || !x.key_lt(&s.last()) {
        let r = s.push(x);
        assert forall|i: int| 0 <= i < r.len() implies (#[trigger] r[i] == x || exists|k: int| 0 <= k < s.len() && s[k] == r[i]) by {
            if i < s.len() {
                assert(s[i] == r[i]);
            }
        }
    } else {
        let init = s.drop_last();
        lemma_insert_sorted_members(init, x);
        let m = insert_sorted(init, x);
        let r = m.push(s.last());
        assert forall|i: int| 0 <= i < r.len() implies (#[trigger] r[i] == x || exists|k: int| 0 <= k < s.len() && s[k] == r[i]) by {
            if i < m.len() {
                assert(r[i] == m[i]);
                if m[i] != x {
                    let k = choose|k: int| 0 <= k < init.len() && init[k] == m[i];
                    assert(s[k] == init[k]);
                }
            } else {
                assert(s[s.len() - 1] == r[i]);
            }
        }
    }
}

/// The stable sort is sorted under a strict weak order.
pub proof fn lemma_stable_sorted<T: SortKey>(s: Seq<T>)
    requires
        strict_weak_order::<T>(),
    ensures
        key_sorted(stable_sorted(s)),
        stable_sorted(s).len() == s.len(),
    decreases s.len(),
{
    if s.len() > 0 {
        lemma_stable_sorted(s.drop_last());
        lemma_insert_sorted(stable_sorted(s.drop_last()), s.last());
    }
}

/// Sorts by key, keeping equal keys in their order.
pub fn stable_sort<T: SortKey>(v: Vec<T>) -> (r: Vec<T>)
    ensures
        r@ == stable_sorted(v@),
{
    let ghost all = v@;
    let mut out: Vec<T> = Vec::new();
    let mut rest: Vec<T> = v;
    let mut k: usize = 0;
    let total = rest.len();
    assert(all.skip(0) =~= all);
    assert(all.take(0) =~= Seq::<T>::empty());
    while rest.len() > 0
        invariant
            k <= all.len(),
            total == all.len(),
            rest@ == all.skip(k as int),
            out@ == stable_sorted(all.take(k as int)),
        decreases rest@.len(),
    {
        let x = rest.remove(0);
        assert(x == all[k as int]);
        assert(rest@ =~= all.skip(k + 1));
        assert(all.take(k + 1).drop_last() =~= all.take(k as int));
        assert(all.take(k + 1).last() == x);
        let mut p: usize = out.len();
        while p > 0 && x.less_than(&out[p - 1])
            invariant
                p <= out@.len(),
                forall|q: int| #![trigger out@[q]] p <= q < out@.len() ==> x.key_lt(&out@[q]),
            decreases p,
        {
            p = p - 1;
        }
        proof {
            lemma_insert_at(out@, x, p as int);
        }
        out.insert(p, x);
        k = k + 1;
    }
    assert(all.take(k as int) =~= all);
    out
}

} // verus!

verus! {

/// Not sorting before is transitive.
pub proof fn lemma_lex_not_lt_transitive(a: Seq<char>, b: Seq<char>, c: Seq<char>)
    requires
        !lex_lt(a, b),
        !lex_lt(b, c),
    ensures
        !lex_lt(a, c),
{
    lemma_lex_total(a, b);
    lemma_lex_total(b, c);
    lemma_lex_total(a, c);
    lemma_lex_irreflexive(a);
    if a == b {
    } else if b == c {
    } else {
        // b sorts before a and c before b, so c before a.
        lemma_lex_transitive(c, b, a);
    }
}

/// Every element of a stable sort comes from the input, and every input
/// element is in it.
pub proof fn lemma_stable_sorted_members<T: SortKey>(s: Seq<T>)
    ensures
        stable_sorted(s).len() == s.len(),
        forall|k: int| 0 <= k < stable_sorted(s).len() ==> s.contains(#[trigger] stable_sorted(s)[k]),
        forall|j: int| 0 <= j < s.len() ==> stable_sorted(s).contains(#[trigger] s[j]),
    decreases s.len(),
{
    if s.len() > 0 {
        let init = s.drop_last();
        lemma_stable_sorted_members(init);
        let m = stable_sorted(init);
        let x = s.last();
        lemma_insert_sorted_is_insert(m, x);
        let p = choose|p: int| 0 <= p <= m.len() && insert_sorted(m, x) == m.insert(p, x);
        let r = m.insert(p, x);
        assert forall|k: int| 0 <= k < r.len() implies s.contains(#[trigger] r[k]) by {
            if k < p {
                assert(init.contains(m[k]));
                let j = choose|j: int| 0 <= j < init.len() && init[j] == m[k];
                assert(s[j] == init[j]);
            } else if k == p {
                assert(s[s.len() - 1] == r[k]);
            } else {
                assert(init.contains(m[k - 1]));
                let j = choose|j: int| 0 <= j < init.len() && init[j] == m[k - 1];
                assert(s[j] == init[j]);
            }
        }
        assert forall|j: int| 0 <= j < s.len() implies r.contains(#[trigger] s[j]) by {
            if j == s.len() - 1 {
                assert(r[p] == s[j]);
            } else {
                assert(init[j] == s[j]);
                assert(m.contains(init[j]));
                let k = choose|k: int| 0 <= k < m.len() && m[k] == init[j];
                if k < p {
                    assert(r[k] == m[k]);
                } else {
                    assert(r[k + 1] == m[k]);
                }
            }
        }
    }
}

/// Inserting in order puts `x` at some position.
pub proof fn lemma_insert_sorted_is_insert<T: SortKey>(s: Seq<T>, x: T)
    ensures
        exists|p: int| 0 <= p <= s.len() && insert_sorted(s, x) == s.insert(p, x),
    decreases s.len(),
{
    if s.len() == 0 || !x.key_lt(&s.last()) {
        assert(insert_sorted(s, x) == s.insert(s.len() as int, x));
    } else {
        let init = s.drop_last();
        lemma_insert_sorted_is_insert(init, x);
        let p = choose|p: int| 0 <= p <= init.len() && insert_sorted(init, x) == init.insert(p, x);
        assert(insert_sorted(s, x) =~= s.insert(p, x));
    }
}


/// Each name sorts strictly before every later one.
pub open spec fn strictly_ascending(s: Seq<Seq<char>>) -> bool {
    forall|i: int, j: int| 0 <= i < j < s.len() ==> lex_lt(#[trigger] s[i], #[trigger] s[j])
}

/// Names each sorting before the next are strictly ascending.
pub proof fn lemma_adjacent_ascending(s: Seq<Seq<char>>)
    requires
        forall|k: int| 0 <= k < s.len() - 1 ==> lex_lt(#[trigger] s[k], s[k + 1]),
    ensures
        strictly_ascending(s),
    decreases s.len(),
{
    if s.len() > 1 {
        let init = s.drop_last();
        assert forall|k: int| 0 <= k < init.len() - 1 implies lex_lt(#[trigger] init[k], init[k + 1]) by {
            assert(init[k] == s[k] && init[k + 1] == s[k + 1]);
        }
        lemma_adjacent_ascending(init);
        assert forall|i: int, j: int| 0 <= i < j < s.len() implies lex_lt(#[trigger] s[i], #[trigger] s[j]) by {
            if j < s.len() - 1 {
                assert(init[i] == s[i] && init[j] == s[j]);
            } else if i < j - 1 {
                assert(init[i] == s[i] && init[j - 1] == s[j - 1]);
                assert(lex_lt(s[j - 1], s[j]));
                lemma_lex_transitive(s[i], s[j - 1], s[j]);
            }
        }
    }
}


/// A string that begins with `f` never sorts before `f`.
pub proof fn lemma_prefix_not_below(m: Seq<char>, f: Seq<char>)
    requires
        crate::text::seq_starts_with(m, f),
    ensures
        !lex_lt(m, f),
    decreases f.len(),
{
    if f.len() > 0 {
        assert(m[0] == m.take(f.len() as int)[0]);
        assert(m.drop_first().take(f.len() - 1) =~= m.take(f.len() as int).drop_first());
        assert(f.drop_first() =~= m.take(f.len() as int).drop_first());
        lemma_prefix_not_below(m.drop_first(), f.drop_first());
    }
}

/// Every string that begins with `f` sorts before a `g` that sorts after
/// `f` without beginning with it.
pub proof fn lemma_prefix_below_bound(m: Seq<char>, f: Seq<char>, g: Seq<char>)
    requires
        lex_lt(f, g),
        !crate::text::seq_starts_with(g, f),
        crate::text::seq_starts_with(m, f),
    ensures
        lex_lt(m, g),
    decreases f.len(),
{
    if f.len() == 0 {
        assert(g.take(0) =~= f);
    } else {
        assert(m[0] == m.take(f.len() as int)[0]);
        assert(m.drop_first().take(f.len() - 1) =~= m.take(f.len() as int).drop_first());
        assert(f.drop_first() =~= m.take(f.len() as int).drop_first());
        if f[0] == g[0] {
            if crate::text::seq_starts_with(g.drop_first(), f.drop_first()) {
                assert(g.take(f.len() as int) =~= seq![g[0]] + g.drop_first().take(f.len() - 1));
                assert(f =~= seq![f[0]] + f.drop_first());
            }
            lemma_prefix_below_bound(m.drop_first(), f.drop_first(), g.drop_first());
        }
    }
}

} // verus!
