//! A stable merge sort.
use vstd::prelude::*;
use crate::order::{level, same_level_run, sorted, stably_sorted, views, Ranked};

verus! {

/// Moving the last item of `a` behind `b` changes no run of level items when
/// that item stands strictly after everything in `b`.
proof fn lemma_move_last<T: Ranked>(a: Seq<T::V>, b: Seq<T::V>, tail: Seq<T::V>)
    requires
        a.len() > 0,
        forall|i: int| 0 <= i < b.len() ==> !T::le(a.last(), #[trigger] b[i]),
    ensures
        (a + b + tail).to_multiset() == (a.drop_last() + b + (seq![a.last()] + tail)).to_multiset(),
        forall|x: T::V| #[trigger] same_level_run::<T>(
            a + b + tail,
            a.drop_last() + b + (seq![a.last()] + tail),
            x,
        ),
{
    let one = seq![a.last()];
    let front = a.drop_last();
    assert(a + b + tail =~= front + (one + b) + tail);
    assert(front + b + (one + tail) =~= front + (b + one) + tail);
    vstd::seq_lib::lemma_multiset_commutative(one, b);
    vstd::seq_lib::lemma_multiset_commutative(b, one);
    vstd::seq_lib::lemma_multiset_commutative(front, one + b);
    vstd::seq_lib::lemma_multiset_commutative(front, b + one);
    vstd::seq_lib::lemma_multiset_commutative(front + (one + b), tail);
    vstd::seq_lib::lemma_multiset_commutative(front + (b + one), tail);
    assert((one + b).to_multiset() =~= (b + one).to_multiset());
    assert forall|x: T::V| #[trigger] same_level_run::<T>(
        a + b + tail,
        front + b + (one + tail),
        x,
    ) by {
        let p = |y: T::V| level::<T>(x, y);
        Seq::filter_distributes_over_add(front + (one + b), tail, p);
        Seq::filter_distributes_over_add(front + (b + one), tail, p);
        Seq::filter_distributes_over_add(front, one + b, p);
        Seq::filter_distributes_over_add(front, b + one, p);
        Seq::filter_distributes_over_add(one, b, p);
        Seq::filter_distributes_over_add(b, one, p);
        reveal_with_fuel(Seq::filter, 2);
        assert(one.drop_last() =~= Seq::<T::V>::empty());
        if p(a.last()) {
            lemma_filter_none::<T>(b, p, a.last(), x);
            assert(b.filter(p) =~= Seq::<T::V>::empty());
        } else {
            assert(one.filter(p) =~= Seq::<T::V>::empty());
        }
        assert((one + b).filter(p) =~= (b + one).filter(p));
    }
}

proof fn lemma_filter_none<T: Ranked>(b: Seq<T::V>, p: spec_fn(T::V) -> bool, last: T::V, x: T::V)
    requires
        forall|y: T::V| #[trigger] p(y) <==> level::<T>(x, y),
        p(last),
        forall|i: int| 0 <= i < b.len() ==> !T::le(last, #[trigger] b[i]),
    ensures
        b.filter(p).len() == 0,
    decreases b.len(),
{
    reveal(Seq::filter);
    if b.len() > 0 {
        lemma_filter_none::<T>(b.drop_last(), p, last, x);
        if p(b.last()) {
            T::le_transitive(last, x, b.last());
            assert(b.last() == b[b.len() - 1]);
        }
    }
}

/// The items of `v` in the opposite order.
pub fn reversed<T: View>(v: Vec<T>) -> (r: Vec<T>)
    ensures
        views(r@) == views(v@).reverse(),
{
    let mut rest: Vec<T> = v;
    let mut r: Vec<T> = Vec::new();
    while rest.len() > 0
        invariant
            views(v@).reverse() == views(r@) + views(rest@).reverse(),
        decreases rest.len(),
    {
        let ghost before = rest@;
        if let Some(x) = rest.pop() {
            let ghost done = r@;
            r.push(x);
            assert(views(before).reverse() =~= seq![x@] + views(rest@).reverse());
            assert(views(r@) =~= views(done) + seq![x@]);
        }
    }
    r
}

/// Every item of `front` may stand before every item of `tail`.
spec fn all_before<T: Ranked>(front: Seq<T::V>, tail: Seq<T::V>) -> bool {
    forall|i: int, j: int|
        0 <= i < front.len() && 0 <= j < tail.len() ==> T::le(#[trigger] front[i], #[trigger] tail[j])
}

/// Where the merge stands: `a` and `b` are still to be merged, `tail` is done.
spec fn merging<T: Ranked>(all: Seq<T::V>, a: Seq<T::V>, b: Seq<T::V>, tail: Seq<T::V>) -> bool {
    &&& sorted::<T>(a)
    &&& sorted::<T>(b)
    &&& sorted::<T>(tail)
    &&& all_before::<T>(a, tail)
    &&& all_before::<T>(b, tail)
    &&& (a + b + tail).to_multiset() == all.to_multiset()
    &&& forall|x: T::V| #[trigger] same_level_run::<T>(all, a + b + tail, x)
}

proof fn lemma_take_b<T: Ranked>(all: Seq<T::V>, a: Seq<T::V>, b: Seq<T::V>, tail: Seq<T::V>)
    requires
        merging::<T>(all, a, b, tail),
        b.len() > 0,
        a.len() > 0 ==> T::le(a.last(), b.last()),
    ensures
        merging::<T>(all, a, b.drop_last(), seq![b.last()] + tail),
{
    let t = seq![b.last()] + tail;
    assert(a + b.drop_last() + t =~= a + b + tail);
    assert forall|i: int, j: int| 0 <= i < a.len() && 0 <= j < t.len() implies T::le(
        #[trigger] a[i],
        #[trigger] t[j],
    ) by {
        if j == 0 {
            T::le_transitive(a[i], a[a.len() - 1], b.last());
        } else {
            assert(t[j] == tail[j - 1]);
        }
    }
    let c = b.drop_last();
    assert forall|i: int, j: int| 0 <= i < c.len() && 0 <= j < t.len() implies T::le(
        #[trigger] c[i],
        #[trigger] t[j],
    ) by {
        assert(c[i] == b[i]);
        if j > 0 {
            assert(t[j] == tail[j - 1]);
        } else {
            assert(T::le(b[i], b[b.len() - 1]));
        }
    }
    lemma_sorted_cons::<T>(b, tail);
}

proof fn lemma_take_a<T: Ranked>(all: Seq<T::V>, a: Seq<T::V>, b: Seq<T::V>, tail: Seq<T::V>)
    requires
        merging::<T>(all, a, b, tail),
        a.len() > 0,
        b.len() > 0 ==> !T::le(a.last(), b.last()),
    ensures
        merging::<T>(all, a.drop_last(), b, seq![a.last()] + tail),
{
    let t = seq![a.last()] + tail;
    let c = a.drop_last();
    assert forall|i: int| 0 <= i < b.len() implies !T::le(a.last(), #[trigger] b[i]) by {
        if T::le(a.last(), b[i]) {
            T::le_transitive(a.last(), b[i], b[b.len() - 1]);
        }
    }
    lemma_move_last::<T>(a, b, tail);
    assert forall|i: int, j: int| 0 <= i < b.len() && 0 <= j < t.len() implies T::le(
        #[trigger] b[i],
        #[trigger] t[j],
    ) by {
        if j == 0 {
            T::le_total(b[i], a.last());
        } else {
            assert(t[j] == tail[j - 1]);
        }
    }
    assert forall|i: int, j: int| 0 <= i < c.len() && 0 <= j < t.len() implies T::le(
        #[trigger] c[i],
        #[trigger] t[j],
    ) by {
        assert(c[i] == a[i]);
        if j > 0 {
            assert(t[j] == tail[j - 1]);
        } else {
            assert(T::le(a[i], a[a.len() - 1]));
        }
    }
    lemma_sorted_cons::<T>(a, tail);
    assert forall|x: T::V| #[trigger] same_level_run::<T>(all, c + b + t, x) by {
        assert(same_level_run::<T>(all, a + b + tail, x));
        assert(same_level_run::<T>(a + b + tail, c + b + t, x));
    }
}

proof fn lemma_sorted_cons<T: Ranked>(a: Seq<T::V>, tail: Seq<T::V>)
    requires
        sorted::<T>(a),
        sorted::<T>(tail),
        a.len() > 0,
        all_before::<T>(a, tail),
    ensures
        sorted::<T>(a.drop_last()),
        sorted::<T>(seq![a.last()] + tail),
{
    let t = seq![a.last()] + tail;
    assert forall|i: int, j: int| 0 <= i <= j < t.len() implies T::le(
        #[trigger] t[i],
        #[trigger] t[j],
    ) by {
        if i == 0 && j == 0 {
            T::le_total(a.last(), a.last());
        } else if i == 0 {
            assert(t[0] == a[a.len() - 1]);
            assert(t[j] == tail[j - 1]);
        } else {
            assert(t[i] == tail[i - 1] && t[j] == tail[j - 1]);
        }
    }
}

/// Merges two sorted lists; among level items those of `a` come first.
fn merge<T: Ranked>(a: Vec<T>, b: Vec<T>) -> (r: Vec<T>)
    requires
        sorted::<T>(views(a@)),
        sorted::<T>(views(b@)),
    ensures
        stably_sorted::<T>(views(a@) + views(b@), views(r@)),
{
    let ghost all = views(a@) + views(b@);
    let mut a: Vec<T> = a;
    let mut b: Vec<T> = b;
    let mut out: Vec<T> = Vec::new();
    assert(views(a@) + views(b@) + views(out@).reverse() =~= all);
    while a.len() > 0 || b.len() > 0
        invariant
            merging::<T>(all, views(a@), views(b@), views(out@).reverse()),
        decreases a.len() + b.len(),
    {
        let ghost va = views(a@);
        let ghost vb = views(b@);
        let ghost vo = views(out@);
        let from_b = if a.len() == 0 {
            true
        } else if b.len() == 0 {
            false
        } else {
            a[a.len() - 1].leq(&b[b.len() - 1])
        };
        if from_b {
            proof {
                lemma_take_b::<T>(all, va, vb, vo.reverse());
            }
            if let Some(x) = b.pop() {
                out.push(x);
                assert(views(b@) =~= vb.drop_last());
                assert(views(out@).reverse() =~= seq![vb.last()] + vo.reverse());
            }
        } else {
            proof {
                lemma_take_a::<T>(all, va, vb, vo.reverse());
            }
            if let Some(x) = a.pop() {
                out.push(x);
                assert(views(a@) =~= va.drop_last());
                assert(views(out@).reverse() =~= seq![va.last()] + vo.reverse());
            }
        }
    }
    assert(views(a@) + views(b@) + views(out@).reverse() =~= views(out@).reverse());
    reversed(out)
}

proof fn lemma_stable_parts<T: Ranked>(
    a: Seq<T::V>,
    b: Seq<T::V>,
    sa: Seq<T::V>,
    sb: Seq<T::V>,
    r: Seq<T::V>,
)
    requires
        stably_sorted::<T>(a, sa),
        stably_sorted::<T>(b, sb),
        stably_sorted::<T>(sa + sb, r),
    ensures
        stably_sorted::<T>(a + b, r),
{
    vstd::seq_lib::lemma_multiset_commutative(a, b);
    vstd::seq_lib::lemma_multiset_commutative(sa, sb);
    assert forall|x: T::V| #[trigger] same_level_run::<T>(a + b, r, x) by {
        let p = |y: T::V| level::<T>(x, y);
        assert(same_level_run::<T>(a, sa, x));
        assert(same_level_run::<T>(b, sb, x));
        assert(same_level_run::<T>(sa + sb, r, x));
        Seq::filter_distributes_over_add(a, b, p);
        Seq::filter_distributes_over_add(sa, sb, p);
    }
}

/// Sorts `v`, keeping items that stand level in the order they came in.
pub fn stable_sort<T: Ranked>(v: Vec<T>) -> (r: Vec<T>)
    ensures
        stably_sorted::<T>(views(v@), views(r@)),
    decreases v.len(),
{
    let n: usize = v.len();
    if n < 2 {
        proof {
            assert forall|i: int, j: int| 0 <= i <= j < views(v@).len() implies T::le(
                #[trigger] views(v@)[i],
                #[trigger] views(v@)[j],
            ) by {
                T::le_total(views(v@)[i], views(v@)[j]);
            }
        }
        return v;
    }
    let ghost whole = views(v@);
    let mut left: Vec<T> = v;
    let right: Vec<T> = left.split_off(n / 2);
    let ghost vl = views(left@);
    let ghost vr = views(right@);
    assert(whole =~= vl + vr);
    let a: Vec<T> = stable_sort(left);
    let b: Vec<T> = stable_sort(right);
    let ghost sa = views(a@);
    let ghost sb = views(b@);
    let r: Vec<T> = merge(a, b);
    proof {
        lemma_stable_parts::<T>(vl, vr, sa, sb, views(r@));
    }
    r
}

}
