//! Stable sorting under a total preorder.  The specification
//! `sort_by_le` pins the sorted sequence down exactly — equal elements
//! keep their original order — and `sort_vec` is an insertion sort
//! proved to produce exactly that sequence.

use vstd::prelude::*;

verus! {

use vstd::multiset::Multiset;
use vstd::seq_lib::lemma_multiset_commutative;

/// A total preorder with an executable test.  `le` need not be
/// antisymmetric: distinct values may sort as equals, and the stable
/// sort keeps such values in their original order.
pub trait SortOrd: Sized {
    /// `self` sorts no later than `other`.
    spec fn le(self, other: Self) -> bool;

    proof fn lemma_le_total(a: Self, b: Self)
        ensures
            a.le(b) || b.le(a),
    ;

    proof fn lemma_le_trans(a: Self, b: Self, c: Self)
        requires
            a.le(b),
            b.le(c),
        ensures
            a.le(c),
    ;

    fn le_exec(&self, other: &Self) -> (r: bool)
        ensures
            r == self.le(*other),
    ;
}

pub open spec fn sorted_by_le<T: SortOrd>(s: Seq<T>) -> bool {
    forall|i: int, j: int| 0 <= i < j < s.len() ==> #[trigger] s[i].le(#[trigger] s[j])
}

/// Where a stable insertion puts `x`: after every element that sorts
/// no later than `x`, before the rest.
pub open spec fn insert_pos<T: SortOrd>(s: Seq<T>, x: T) -> int
    decreases s.len(),
{
    if s.len() == 0 {
        0
    } else if s.last().le(x) {
        s.len() as int
    } else {
        insert_pos(s.drop_last(), x)
    }
}

pub open spec fn insert_sorted<T: SortOrd>(s: Seq<T>, x: T) -> Seq<T>
    decreases s.len(),
{
    if s.len() == 0 {
        seq![x]
    } else if s.last().le(x) {
        s.push(x)
    } else {
        insert_sorted(s.drop_last(), x).push(s.last())
    }
}

/// The stable sort of `s`, defined by inserting its elements from left
/// to right.
pub open spec fn sort_by_le<T: SortOrd>(s: Seq<T>) -> Seq<T>
    decreases s.len(),
{
    if s.len() == 0 {
        Seq::empty()
    } else {
        insert_sorted(sort_by_le(s.drop_last()), s.last())
    }
}

pub proof fn lemma_insert_shape<T: SortOrd>(s: Seq<T>, x: T)
    ensures
        0 <= insert_pos(s, x) <= s.len(),
        insert_sorted(s, x) == s.take(insert_pos(s, x)) + seq![x] + s.skip(insert_pos(s, x)),
        forall|j: int| insert_pos(s, x) <= j < s.len() ==> !(#[trigger] s[j].le(x)),
        insert_pos(s, x) > 0 ==> s[insert_pos(s, x) - 1].le(x),
    decreases s.len(),
{
    let p = insert_pos(s, x);
    if s.len() == 0 {
        assert(insert_sorted(s, x) =~= s.take(0) + seq![x] + s.skip(0));
    } else if s.last().le(x) {
        assert(insert_sorted(s, x) =~= s.take(p) + seq![x] + s.skip(p));
    } else {
        let t = s.drop_last();
        lemma_insert_shape(t, x);
        assert(s.take(p) =~= t.take(p));
        assert(s.skip(p) =~= t.skip(p).push(s.last()));
        assert(insert_sorted(s, x) =~= s.take(p) + seq![x] + s.skip(p));
        assert(forall|j: int| p <= j < s.len() - 1 ==> s[j] == t[j]);
    }
}

pub proof fn lemma_insert_sorted_keeps_sorted<T: SortOrd>(s: Seq<T>, x: T)
    requires
        sorted_by_le(s),
    ensures
        sorted_by_le(insert_sorted(s, x)),
{
    lemma_insert_shape(s, x);
    let p = insert_pos(s, x);
    let r = insert_sorted(s, x);
    assert forall|i: int, j: int| 0 <= i < j < r.len() implies #[trigger] r[i].le(#[trigger] r[j])
    by {
        if i < p {
            assert(r[i] == s[i]);
        }
        if j < p {
            assert(r[j] == s[j]);
        }
        if i > p {
            assert(r[i] == s[i - 1]);
        }
        if j > p {
            assert(r[j] == s[j - 1]);
        }
        if i == p && j > p {
            // x sorts before everything it displaced.
            T::lemma_le_total(x, s[j - 1]);
        } else if j == p && i < p {
            // everything before the insertion point admits x after it.
            if i == p - 1 {
            } else {
                T::lemma_le_trans(s[i], s[p - 1], x);
            }
        } else if i == p && j == p {
        }
    }
}

proof fn lemma_filter_all_out<T>(s: Seq<T>, q: spec_fn(T) -> bool)
    requires
        forall|i: int| 0 <= i < s.len() ==> !q(s[i]),
    ensures
        s.filter(q) == Seq::<T>::empty(),
    decreases s.len(),
{
    reveal(Seq::filter);
    if s.len() > 0 {
        lemma_filter_all_out(s.drop_last(), q);
    }
}

proof fn lemma_filter_singleton<T>(x: T, q: spec_fn(T) -> bool)
    ensures
        q(x) ==> seq![x].filter(q) == seq![x],
        !q(x) ==> seq![x].filter(q) == Seq::<T>::empty(),
{
    reveal(Seq::filter);
    assert(seq![x].drop_last() =~= Seq::<T>::empty());
    assert(seq![x].last() == x);
    assert(Seq::<T>::empty().filter(q) =~= Seq::<T>::empty());
}

/// A class of mutually equivalent elements: any two of its members
/// sort as equals.  The stable sort keeps each such class in its
/// original order.
pub open spec fn le_class<T: SortOrd>(q: spec_fn(T) -> bool) -> bool {
    forall|a: T, b: T| q(a) && q(b) ==> a.le(b)
}

pub proof fn lemma_insert_sorted_filter<T: SortOrd>(s: Seq<T>, x: T, q: spec_fn(T) -> bool)
    requires
        le_class(q),
    ensures
        q(x) ==> insert_sorted(s, x).filter(q) == s.filter(q).push(x),
        !q(x) ==> insert_sorted(s, x).filter(q) == s.filter(q),
{
    broadcast use vstd::seq_lib::group_filter_ensures;

    lemma_insert_shape(s, x);
    let p = insert_pos(s, x);
    assert(s =~= s.take(p) + s.skip(p));
    Seq::filter_distributes_over_add(s.take(p), s.skip(p), q);
    Seq::filter_distributes_over_add(s.take(p) + seq![x], s.skip(p), q);
    Seq::filter_distributes_over_add(s.take(p), seq![x], q);
    assert(insert_sorted(s, x) =~= (s.take(p) + seq![x]) + s.skip(p));
    lemma_filter_singleton(x, q);
    if q(x) {
        // Nothing the insertion displaced belongs to the class of `x`:
        // a displaced element would otherwise sort no later than `x`.
        assert forall|i: int| 0 <= i < s.skip(p).len() implies !q(s.skip(p)[i]) by {
            assert(s.skip(p)[i] == s[p + i]);
            if q(s[p + i]) {
                assert(s[p + i].le(x));
            }
        }
        lemma_filter_all_out(s.skip(p), q);
        assert(insert_sorted(s, x).filter(q) =~= s.filter(q).push(x));
    } else {
        assert(insert_sorted(s, x).filter(q) =~= s.filter(q));
    }
}

/// The sorted sequence is ordered and a permutation of the input.
pub proof fn lemma_sort_by_le_ensures<T: SortOrd>(s: Seq<T>)
    ensures
        sorted_by_le(sort_by_le(s)),
        sort_by_le(s).to_multiset() == s.to_multiset(),
        sort_by_le(s).len() == s.len(),
    decreases s.len(),
{
    broadcast use vstd::seq_lib::group_to_multiset_ensures;

    if s.len() > 0 {
        let t = s.drop_last();
        let x = s.last();
        lemma_sort_by_le_ensures(t);
        lemma_insert_sorted_keeps_sorted(sort_by_le(t), x);
        lemma_insert_shape(sort_by_le(t), x);
        let st = sort_by_le(t);
        let p = insert_pos(st, x);
        // permutation: the insertion adds exactly x
        assert(st =~= st.take(p) + st.skip(p));
        lemma_multiset_commutative(st.take(p), st.skip(p));
        lemma_multiset_commutative(st.take(p) + seq![x], st.skip(p));
        lemma_multiset_commutative(st.take(p), seq![x]);
        assert(seq![x].to_multiset() =~= Multiset::<T>::empty().insert(x));
        assert(insert_sorted(st, x) =~= (st.take(p) + seq![x]) + st.skip(p));
        assert(sort_by_le(s).to_multiset() =~= s.to_multiset()) by {
            assert(s =~= t.push(x));
        }
    }
}

/// Stability of the sort: the members of any class of mutually
/// equivalent elements come out in exactly the order they went in.
pub proof fn lemma_sort_by_le_stable<T: SortOrd>(s: Seq<T>, q: spec_fn(T) -> bool)
    requires
        le_class(q),
    ensures
        sort_by_le(s).filter(q) == s.filter(q),
    decreases s.len(),
{
    broadcast use vstd::seq_lib::group_filter_ensures;

    if s.len() == 0 {
        reveal(Seq::filter);
    } else {
        let t = s.drop_last();
        let x = s.last();
        lemma_sort_by_le_stable(t, q);
        lemma_insert_sorted_filter(sort_by_le(t), x, q);
        Seq::filter_distributes_over_add(t, seq![x], q);
        lemma_filter_singleton(x, q);
        assert(s =~= t + seq![x]);
        if q(x) {
            assert(s.filter(q) =~= t.filter(q).push(x));
        } else {
            assert(s.filter(q) =~= t.filter(q));
        }
    }
}

// ---------------------------------------------------------------------------
// The sort seen through views
// ---------------------------------------------------------------------------

/// Stable insertion under an explicit order: the image of
/// `insert_sorted` at the level of views.
pub open spec fn insert_by<T>(s: Seq<T>, x: T, leq: spec_fn(T, T) -> bool) -> Seq<T>
    decreases s.len(),
{
    if s.len() == 0 {
        seq![x]
    } else if leq(s.last(), x) {
        s.push(x)
    } else {
        insert_by(s.drop_last(), x, leq).push(s.last())
    }
}

/// The stable sort under an explicit order.
pub open spec fn sort_by<T>(s: Seq<T>, leq: spec_fn(T, T) -> bool) -> Seq<T>
    decreases s.len(),
{
    if s.len() == 0 {
        Seq::empty()
    } else {
        insert_by(sort_by(s.drop_last(), leq), s.last(), leq)
    }
}

/// The element-wise views of a sequence.
pub open spec fn deep_views<T: DeepView>(s: Seq<T>) -> Seq<T::V> {
    Seq::new(s.len(), |i: int| s[i].deep_view())
}

proof fn lemma_insert_views<T: SortOrd + DeepView>(s: Seq<T>, x: T, leq: spec_fn(T::V, T::V) -> bool)
    requires
        forall|a: T, b: T| #[trigger] a.le(b) <==> leq(a.deep_view(), b.deep_view()),
    ensures
        deep_views(insert_sorted(s, x)) == insert_by(deep_views(s), x.deep_view(), leq),
    decreases s.len(),
{
    if s.len() == 0 {
        assert(deep_views(insert_sorted(s, x)) =~= insert_by(deep_views(s), x.deep_view(), leq));
    } else if s.last().le(x) {
        assert(deep_views(s).last() == s.last().deep_view());
        assert(deep_views(s.push(x)) =~= deep_views(s).push(x.deep_view()));
    } else {
        lemma_insert_views(s.drop_last(), x, leq);
        assert(deep_views(s).last() == s.last().deep_view());
        assert(deep_views(s.drop_last()) =~= deep_views(s).drop_last());
        assert(deep_views(insert_sorted(s.drop_last(), x).push(s.last())) =~= deep_views(
            insert_sorted(s.drop_last(), x),
        ).push(s.last().deep_view()));
        assert(deep_views(insert_sorted(s, x)) =~= insert_by(deep_views(s), x.deep_view(), leq));
    }
}

/// Sorting commutes with taking views whenever the executable order
/// agrees with the view-level order.
pub proof fn lemma_sort_by_views<T: SortOrd + DeepView>(s: Seq<T>, leq: spec_fn(T::V, T::V) -> bool)
    requires
        forall|a: T, b: T| #[trigger] a.le(b) <==> leq(a.deep_view(), b.deep_view()),
    ensures
        deep_views(sort_by_le(s)) == sort_by(deep_views(s), leq),
    decreases s.len(),
{
    if s.len() == 0 {
        assert(deep_views(sort_by_le(s)) =~= sort_by(deep_views(s), leq));
    } else {
        lemma_sort_by_views(s.drop_last(), leq);
        lemma_insert_views(sort_by_le(s.drop_last()), s.last(), leq);
        assert(deep_views(s.drop_last()) =~= deep_views(s).drop_last());
        assert(deep_views(s).last() == s.last().deep_view());
    }
}

proof fn lemma_insert_pos_is<T: SortOrd>(s: Seq<T>, x: T, p: int)
    requires
        0 <= p <= s.len(),
        p > 0 ==> s[p - 1].le(x),
        forall|k: int| p <= k < s.len() ==> !(#[trigger] s[k].le(x)),
    ensures
        insert_pos(s, x) == p,
    decreases s.len(),
{
    if s.len() > 0 && !s.last().le(x) {
        lemma_insert_pos_is(s.drop_last(), x, p);
    }
}

/// Stable insertion sort, producing exactly the sequence that
/// `sort_by_le` describes.
pub fn sort_vec<T: SortOrd>(v: &mut Vec<T>)
    ensures
        final(v)@ == sort_by_le(old(v)@),
{
    let ghost orig = v@;
    let mut i: usize = 0;
    while i < v.len()
        invariant
            0 <= i <= v@.len(),
            v@.len() == orig.len(),
            v@.skip(i as int) =~= orig.skip(i as int),
            v@.take(i as int) =~= sort_by_le(orig.take(i as int)),
            sorted_by_le(v@.take(i as int)),
        decreases v@.len() - i,
    {
        let ghost prefix = v@.take(i as int);
        let ghost x = v@[i as int];
        proof {
            assert(orig.skip(i as int)[0] == orig[i as int]);
            assert(x == orig[i as int]);
        }
        let mut j: usize = i;
        while j > 0 && !(v[j - 1].le_exec(&v[i]))
            invariant
                0 <= j <= i < v@.len(),
                forall|k: int| j <= k < i ==> !(#[trigger] v@[k].le(v@[i as int])),
            decreases j,
        {
            j = j - 1;
        }
        proof {
            assert(forall|k: int| j <= k < i ==> prefix[k] == v@[k]);
            lemma_insert_pos_is(prefix, x, j as int);
            lemma_insert_shape(prefix, x);
        }
        let ghost before = v@;
        let moved = v.remove(i);
        let ghost mid = v@;
        v.insert(j, moved);
        proof {
            before.remove_ensures(i as int);
            mid.insert_ensures(j as int, x);
            assert(v@.take(i + 1 as int) =~= prefix.take(j as int) + seq![x] + prefix.skip(
                j as int,
            ));
            assert(v@.take(i + 1 as int) == insert_sorted(prefix, x));
            assert(orig.take(i + 1 as int).drop_last() =~= orig.take(i as int));
            assert(orig.take(i + 1 as int).last() == orig[i as int]);
            assert(v@.take(i + 1 as int) == sort_by_le(orig.take(i + 1 as int)));
            lemma_insert_sorted_keeps_sorted(prefix, x);
            assert forall|k: int| i + 1 <= k < v@.len() implies v@[k] == orig[k] by {
                assert(v@[k] == mid[k - 1]);
                assert(mid[k - 1] == before[k]);
                assert(before[k] == before.skip(i as int)[k - i]);
                assert(orig[k] == orig.skip(i as int)[k - i]);
            }
            assert(v@.skip(i + 1 as int) =~= orig.skip(i + 1 as int));
        }
        i = i + 1;
    }
    proof {
        assert(orig.take(orig.len() as int) =~= orig);
        assert(v@.take(orig.len() as int) =~= v@);
    }
}

} // verus!
