//! Total orders, and what it means for a list to be sorted.
use vstd::prelude::*;

verus! {

/// The views of the items of `s`, in order.
pub open spec fn views<T: View>(s: Seq<T>) -> Seq<T::V> {
    Seq::new(s.len(), |i: int| s[i]@)
}

/// `lt` is a strict total order.
pub open spec fn strict_total<T>(lt: spec_fn(T, T) -> bool) -> bool {
    &&& forall|a: T| !#[trigger] lt(a, a)
    &&& forall|a: T, b: T| #[trigger] lt(a, b) || a == b || lt(b, a)
    &&& forall|a: T, b: T, c: T| #[trigger] lt(a, b) && #[trigger] lt(b, c) ==> lt(a, c)
}

/// Lexicographic order: a proper prefix comes first, and otherwise the first
/// position where the two differ decides.
pub open spec fn lex_le<T>(a: Seq<T>, b: Seq<T>, lt: spec_fn(T, T) -> bool) -> bool
    decreases a.len(),
{
    if a.len() == 0 {
        true
    } else if b.len() == 0 {
        false
    } else {
        lt(a[0], b[0]) || (a[0] == b[0] && lex_le(a.drop_first(), b.drop_first(), lt))
    }
}

pub proof fn lex_total<T>(a: Seq<T>, b: Seq<T>, lt: spec_fn(T, T) -> bool)
    requires
        strict_total(lt),
    ensures
        lex_le(a, b, lt) || lex_le(b, a, lt),
    decreases a.len(),
{
    if a.len() > 0 && b.len() > 0 {
        assert(lt(a[0], b[0]) || a[0] == b[0] || lt(b[0], a[0]));
        lex_total(a.drop_first(), b.drop_first(), lt);
    }
}

pub proof fn lex_transitive<T>(a: Seq<T>, b: Seq<T>, c: Seq<T>, lt: spec_fn(T, T) -> bool)
    requires
        strict_total(lt),
        lex_le(a, b, lt),
        lex_le(b, c, lt),
    ensures
        lex_le(a, c, lt),
    decreases a.len(),
{
    if a.len() > 0 {
        if a[0] == b[0] && b[0] == c[0] && !lt(a[0], b[0]) && !lt(b[0], c[0]) {
            lex_transitive(a.drop_first(), b.drop_first(), c.drop_first(), lt);
        } else {
            assert(lt(a[0], b[0]) || lt(b[0], c[0]));
        }
    }
}

pub proof fn lex_antisymmetric<T>(a: Seq<T>, b: Seq<T>, lt: spec_fn(T, T) -> bool)
    requires
        strict_total(lt),
        lex_le(a, b, lt),
        lex_le(b, a, lt),
    ensures
        a == b,
    decreases a.len(),
{
    if a.len() > 0 && b.len() > 0 {
        if lt(a[0], b[0]) && lt(b[0], a[0]) {
            assert(lt(a[0], a[0]));
        }
        lex_antisymmetric(a.drop_first(), b.drop_first(), lt);
        assert(a == seq![a[0]] + a.drop_first());
        assert(b == seq![b[0]] + b.drop_first());
    } else {
        assert(a == b);
    }
}

/// A type whose views carry a total preorder.
pub trait Ranked: View + Sized {
    /// `a` may stand before `b`.
    spec fn le(a: Self::V, b: Self::V) -> bool;

    proof fn le_total(a: Self::V, b: Self::V)
        ensures
            Self::le(a, b) || Self::le(b, a),
    ;

    proof fn le_transitive(a: Self::V, b: Self::V, c: Self::V)
        requires
            Self::le(a, b),
            Self::le(b, c),
        ensures
            Self::le(a, c),
    ;

    fn leq(&self, other: &Self) -> (r: bool)
        ensures
            r == Self::le(self@, other@),
    ;
}

/// A preorder in which only equal views stand level: a total order.
pub trait Key: Ranked {
    proof fn le_antisymmetric(a: Self::V, b: Self::V)
        requires
            Self::le(a, b),
            Self::le(b, a),
        ensures
            a == b,
    ;
}

/// Every item may stand before all that follow it.
pub open spec fn sorted<T: Ranked>(s: Seq<T::V>) -> bool {
    forall|i: int, j: int| 0 <= i <= j < s.len() ==> T::le(#[trigger] s[i], #[trigger] s[j])
}

/// `a` and `b` stand level.
pub open spec fn level<T: Ranked>(a: T::V, b: T::V) -> bool {
    T::le(a, b) && T::le(b, a)
}

/// Among the items that stand level with `x`, those of `s` and those of `t`
/// are the same in the same order.
pub open spec fn same_level_run<T: Ranked>(s: Seq<T::V>, t: Seq<T::V>, x: T::V) -> bool {
    s.filter(|y: T::V| level::<T>(x, y)) == t.filter(|y: T::V| level::<T>(x, y))
}

/// `t` is `s` sorted, with level items kept in their order.
pub open spec fn stably_sorted<T: Ranked>(s: Seq<T::V>, t: Seq<T::V>) -> bool {
    &&& sorted::<T>(t)
    &&& t.to_multiset() == s.to_multiset()
    &&& forall|x: T::V| #[trigger] same_level_run::<T>(s, t, x)
}

/// There is only one way to sort given items by a total order.
pub proof fn lemma_sorted_unique<K: Key>(a: Seq<K::V>, b: Seq<K::V>)
    requires
        sorted::<K>(a),
        sorted::<K>(b),
        a.to_multiset() == b.to_multiset(),
    ensures
        a == b,
{
    let leq = |x: K::V, y: K::V| K::le(x, y);
    assert forall|x: K::V, y: K::V| #[trigger] leq(x, y) || #[trigger] leq(y, x) by {
        K::le_total(x, y);
    }
    assert forall|x: K::V| #[trigger] leq(x, x) by {
        K::le_total(x, x);
    }
    assert forall|x: K::V, y: K::V| #[trigger] leq(x, y) && #[trigger] leq(y, x) implies x == y by {
        K::le_antisymmetric(x, y);
    }
    assert forall|x: K::V, y: K::V, z: K::V| #[trigger] leq(x, y) && #[trigger] leq(y, z) implies leq(
        x,
        z,
    ) by {
        K::le_transitive(x, y, z);
    }
    vstd::seq_lib::lemma_sorted_unique(a, b, leq);
}

/// How often an item is left when a list is filtered.
pub proof fn lemma_filter_count<T>(s: Seq<T>, p: spec_fn(T) -> bool, x: T)
    ensures
        s.filter(p).to_multiset().count(x) == if p(x) {
            s.to_multiset().count(x)
        } else {
            0
        },
    decreases s.len(),
{
    broadcast use vstd::multiset::group_multiset_axioms;

    reveal(Seq::filter);
    s.to_multiset_ensures();
    if s.len() > 0 {
        let front = s.drop_last();
        lemma_filter_count(front, p, x);
        front.to_multiset_ensures();
        front.filter(p).to_multiset_ensures();
        assert(s =~= front.push(s.last()));
    } else {
        s.filter(p).to_multiset_ensures();
        assert(s =~= Seq::<T>::empty());
    }
}

/// Filtering a list of different items leaves different items.
pub proof fn lemma_filter_distinct<T>(s: Seq<T>, p: spec_fn(T) -> bool)
    requires
        s.no_duplicates(),
    ensures
        s.filter(p).no_duplicates(),
    decreases s.len(),
{
    reveal(Seq::filter);
    if s.len() > 0 {
        let front = s.drop_last();
        assert forall|i: int, j: int|
            0 <= i < front.len() && 0 <= j < front.len() && i != j implies front[i] != front[j] by {
            assert(s[i] != s[j]);
        }
        lemma_filter_distinct(front, p);
        let kept = front.filter(p);
        if kept.contains(s.last()) {
            front.lemma_filter_contains_rev(p, s.last());
            let i = front.index_of(s.last());
            assert(s[i] != s[s.len() - 1]);
        }
        assert forall|i: int, j: int|
            0 <= i < s.filter(p).len() && 0 <= j < s.filter(p).len() && i != j implies s.filter(
            p,
        )[i] != s.filter(p)[j] by {
            if i < kept.len() {
                assert(kept.contains(kept[i]));
            }
            if j < kept.len() {
                assert(kept.contains(kept[j]));
            }
        }
    }
}

/// Whether `a` and `b` first differ at `k`, where that of `a` is the smaller.
pub open spec fn differs_at<T>(a: Seq<T>, b: Seq<T>, lt: spec_fn(T, T) -> bool, k: int) -> bool {
    0 <= k < a.len() && k < b.len() && a.take(k) == b.take(k) && lt(a[k], b[k])
}

/// Lexicographic order: what begins another list comes before it, and
/// otherwise the first place where two lists differ decides.
pub proof fn law_lexicographic_order<T>(a: Seq<T>, b: Seq<T>, lt: spec_fn(T, T) -> bool)
    ensures
        lex_le(a, b, lt) <==> a.is_prefix_of(b) || exists|k: int| differs_at(a, b, lt, k),
    decreases a.len(),
{
    if a.len() == 0 {
        assert(b.take(0) =~= a);
    } else if b.len() > 0 {
        let x = a.drop_first();
        let y = b.drop_first();
        law_lexicographic_order(x, y, lt);
        if a[0] == b[0] && x.is_prefix_of(y) {
            assert forall|i: int| 0 <= i < a.len() implies a[i] == b[i] by {
                if i > 0 {
                    assert(x[i - 1] == y[i - 1]);
                }
            }
            assert(a =~= b.take(a.len() as int));
        }
        if a.is_prefix_of(b) {
            assert(a[0] == b[0]);
            assert forall|i: int| 0 <= i < x.len() implies x[i] == y[i] by {
                assert(a[i + 1] == b[i + 1]);
            }
            assert(x =~= y.take(x.len() as int));
        }
        if a[0] == b[0] && exists|k: int| differs_at(x, y, lt, k) {
            let k = choose|k: int| differs_at(x, y, lt, k);
            assert forall|i: int| 0 <= i < k + 1 implies a[i] == b[i] by {
                if i > 0 {
                    assert(x.take(k)[i - 1] == y.take(k)[i - 1]);
                }
            }
            assert(a.take(k + 1) =~= b.take(k + 1));
            assert(differs_at(a, b, lt, k + 1));
        }
        if lt(a[0], b[0]) {
            assert(a.take(0) =~= b.take(0));
            assert(differs_at(a, b, lt, 0));
        }
        if exists|k: int| differs_at(a, b, lt, k) {
            let k = choose|k: int| differs_at(a, b, lt, k);
            if k > 0 {
                assert(a.take(k)[0] == b.take(k)[0]);
                assert forall|i: int| 0 <= i < k - 1 implies x[i] == y[i] by {
                    assert(a.take(k)[i + 1] == b.take(k)[i + 1]);
                }
                assert(x.take(k - 1) =~= y.take(k - 1));
                assert(differs_at(x, y, lt, k - 1));
            }
        }
    }
}

/// A value occurs among the images of a list as often as the list holds items
/// with that image.
pub proof fn lemma_map_count<T, U>(s: Seq<T>, f: spec_fn(T) -> U, y: U, p: spec_fn(T) -> bool)
    requires
        forall|x: T| #[trigger] p(x) <==> f(x) == y,
    ensures
        s.map_values(f).to_multiset().count(y) == s.filter(p).len(),
    decreases s.len(),
{
    broadcast use vstd::multiset::group_multiset_axioms;

    reveal(Seq::filter);
    let images = s.map_values(f);
    images.to_multiset_ensures();
    if s.len() > 0 {
        let front = s.drop_last();
        lemma_map_count(front, f, y, p);
        assert(images =~= front.map_values(f).push(f(s.last())));
        assert(p(s.last()) <==> f(s.last()) == y);
        front.map_values(f).to_multiset_ensures();
    } else if images.to_multiset().count(y) > 0 {
        assert(images.contains(y));
    }
}

}
