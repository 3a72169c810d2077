//! Counting how often each string occurs.
use vstd::prelude::*;
use vstd::multiset::Multiset;
use crate::assoc::SortedMap;
use crate::order::{sorted, views, Ranked};
use crate::sort::stable_sort;
use crate::strings::text_le;

verus! {

/// How often each string has been counted.
pub struct Tally {
    counts: SortedMap<String, usize>,
    keys: Ghost<Multiset<Seq<char>>>,
}

impl View for Tally {
    type V = Multiset<Seq<char>>;

    closed spec fn view(&self) -> Multiset<Seq<char>> {
        self.keys@
    }
}

/// The rows hold each string of `m` once, with the number of times it occurs.
pub open spec fn lists(rows: Seq<(Seq<char>, usize)>, m: Multiset<Seq<char>>) -> bool {
    &&& forall|i: int, j: int|
        0 <= i < j < rows.len() ==> (#[trigger] rows[i]).0 != (#[trigger] rows[j]).0
    &&& forall|i: int|
        0 <= i < rows.len() ==> (#[trigger] rows[i]).1 > 0 && rows[i].1 == m.count(rows[i].0)
    &&& forall|k: Seq<char>|
        #[trigger] m.count(k) > 0 ==> exists|i: int| 0 <= i < rows.len() && (#[trigger] rows[i]).0 == k
}

/// The rows stand in ascending order of their strings.
pub open spec fn keys_ascend(rows: Seq<(Seq<char>, usize)>) -> bool {
    forall|i: int, j: int|
        0 <= i < j < rows.len() ==> text_le((#[trigger] rows[i]).0, (#[trigger] rows[j]).0)
}

/// The counts of all rows taken together.
pub open spec fn sum_counts(rows: Seq<(Seq<char>, usize)>) -> nat
    decreases rows.len(),
{
    if rows.len() == 0 {
        0
    } else {
        sum_counts(rows.drop_last()) + rows.last().1 as nat
    }
}

/// The rows of a tally add up to the number of strings counted.
pub proof fn law_rows_add_up(rows: Seq<(Seq<char>, usize)>, m: Multiset<Seq<char>>)
    requires
        lists(rows, m),
    ensures
        sum_counts(rows) == m.len(),
{
    assert forall|k: Seq<char>| #[trigger] m.count(k) > 0 implies exists|i: int|
        0 <= i < rows.len() && (#[trigger] rows[i]).0 == k by {}
    lemma_sum(rows, m);
}

proof fn lemma_sum(rows: Seq<(Seq<char>, usize)>, m: Multiset<Seq<char>>)
    requires
        forall|i: int, j: int|
            0 <= i < j < rows.len() ==> (#[trigger] rows[i]).0 != (#[trigger] rows[j]).0,
        forall|i: int| 0 <= i < rows.len() ==> (#[trigger] rows[i]).1 == m.count(rows[i].0),
        forall|k: Seq<char>|
            #[trigger] m.count(k) > 0 ==> exists|i: int|
                0 <= i < rows.len() && (#[trigger] rows[i]).0 == k,
    ensures
        sum_counts(rows) == m.len(),
    decreases rows.len(), m.len(),
{
    broadcast use vstd::multiset::group_multiset_axioms;

    if rows.len() == 0 {
        if m.len() > 0 {
            let k = m.choose();
            assert(m.count(k) > 0);
        }
    } else {
        let front = rows.drop_last();
        let (k, c) = rows.last();
        assert(rows[rows.len() - 1].0 == k);
        if c == 0 {
            assert forall|q: Seq<char>| #[trigger] m.count(q) > 0 implies exists|i: int|
                0 <= i < front.len() && (#[trigger] front[i]).0 == q by {
                let i = choose|i: int| 0 <= i < rows.len() && (#[trigger] rows[i]).0 == q;
                assert(front[i].0 == q);
            }
            lemma_sum(front, m);
        } else {
            let less = m.remove(k);
            let next = front.push((k, (c - 1) as usize));
            assert forall|i: int, j: int| 0 <= i < j < next.len() implies (#[trigger] next[i]).0 != (
            #[trigger] next[j]).0 by {
                assert(next[i].0 == rows[i].0 && next[j].0 == rows[j].0);
            }
            assert forall|i: int| 0 <= i < next.len() implies (#[trigger] next[i]).1 == less.count(
                next[i].0,
            ) by {
                if i < front.len() {
                    assert(next[i] == rows[i]);
                    assert(rows[i].0 != rows[rows.len() - 1].0);
                }
            }
            assert forall|q: Seq<char>| #[trigger] less.count(q) > 0 implies exists|i: int|
                0 <= i < next.len() && (#[trigger] next[i]).0 == q by {
                assert(m.count(q) > 0);
                let i = choose|i: int| 0 <= i < rows.len() && (#[trigger] rows[i]).0 == q;
                assert(next[i].0 == q);
            }
            lemma_sum(next, less);
            assert(next.drop_last() =~= front);
        }
    }
}

/// Part of the rows add up to no more than all of them.
proof fn lemma_sum_take(rows: Seq<(Seq<char>, usize)>, n: int)
    requires
        0 <= n <= rows.len(),
    ensures
        sum_counts(rows.take(n)) <= sum_counts(rows),
    decreases rows.len(),
{
    if n < rows.len() {
        lemma_sum_take(rows.drop_last(), n);
        assert(rows.drop_last().take(n) =~= rows.take(n));
    } else {
        assert(rows.take(n) =~= rows);
    }
}

/// The counts of all rows taken together.
pub fn total(rows: &Vec<(String, usize)>) -> (n: usize)
    requires
        sum_counts(views(rows@)) <= usize::MAX,
    ensures
        n == sum_counts(views(rows@)),
{
    let mut n: usize = 0;
    for i in 0..rows.len()
        invariant
            sum_counts(views(rows@)) <= usize::MAX,
            n == sum_counts(views(rows@).take(i as int)),
    {
        proof {
            lemma_sum_take(views(rows@), i as int + 1);
            assert(views(rows@).take(i as int + 1).drop_last() =~= views(rows@).take(i as int));
        }
        n = n + rows[i].1;
    }
    assert(views(rows@).take(rows@.len() as int) =~= views(rows@));
    n
}

impl Tally {
    /// What is stored is what has been counted.
    #[verifier::type_invariant]
    closed spec fn wf(self) -> bool {
        &&& forall|k: Seq<char>| #[trigger] self.counts@.contains_key(k) <==> self.keys@.count(k) > 0
        &&& forall|k: Seq<char>| #[trigger]
            self.counts@.contains_key(k) ==> self.counts@[k] == self.keys@.count(k)
    }

    /// A tally in which nothing has been counted.
    pub fn new() -> (r: Tally)
        ensures
            r@ == Multiset::<Seq<char>>::empty(),
    {
        broadcast use vstd::multiset::group_multiset_axioms;

        Tally { counts: SortedMap::new(), keys: Ghost(Multiset::empty()) }
    }

    /// Counts one more `key`.
    pub fn add(&mut self, key: &str)
        requires
            old(self)@.count(key@) < usize::MAX,
        ensures
            final(self)@ == old(self)@.insert(key@),
    {
        broadcast use vstd::multiset::group_multiset_axioms;

        let mut before: Tally = Tally::new();
        std::mem::swap(&mut before, self);
        proof {
            use_type_invariant(&before);
        }
        let ghost was = before;
        let mut counts: SortedMap<String, usize> = before.counts;
        let k: String = key.to_owned();
        let n: usize = match counts.get(&k) {
            Some(c) => *c,
            None => 0,
        };
        assert(n == was@.count(key@));
        counts.set(k, n + 1);
        let ghost keys = was.keys@.insert(key@);
        proof {
            assert forall|q: Seq<char>| #[trigger] counts@.contains_key(q) <==> keys.count(q)
                > 0 by {
                assert(was.counts@.contains_key(q) <==> was.keys@.count(q) > 0);
            }
        }
        *self = Tally { counts, keys: Ghost(keys) };
    }

    /// The strings in ascending order, each with its count.
    pub fn rows(&self) -> (r: Vec<(String, usize)>)
        ensures
            lists(views(r@), self@),
            keys_ascend(views(r@)),
    {
        proof {
            use_type_invariant(self);
            use_type_invariant(&self.counts);
        }
        let mut r: Vec<(String, usize)> = Vec::new();
        let n: usize = self.counts.len();
        for i in 0..n
            invariant
                self.wf(),
                n == self.counts.keys().len(),
                r@.len() == i,
                forall|j: int|
                    0 <= j < i ==> (#[trigger] views(r@)[j]).0 == self.counts.keys()[j] && views(
                        r@,
                    )[j].1 == self@.count(views(r@)[j].0) && views(r@)[j].1 > 0,
        {
            let (k, c) = self.counts.entry(i);
            let ghost was = views(r@);
            r.push((k.clone(), *c));
            assert(views(r@) =~= was.push((k@, *c)));
        }
        proof {
            self.counts.lemma_keys();
            let rows = views(r@);
            assert forall|i: int, j: int| 0 <= i < j < rows.len() implies text_le(
                (#[trigger] rows[i]).0,
                (#[trigger] rows[j]).0,
            ) && rows[i].0 != rows[j].0 by {
                assert(self.counts.keys()[i] != self.counts.keys()[j]);
            }
            assert forall|k: Seq<char>| #[trigger] self@.count(k) > 0 implies exists|i: int|
                0 <= i < rows.len() && (#[trigger] rows[i]).0 == k by {
                assert(self.counts@.contains_key(k));
                let i = self.counts.keys().index_of(k);
                assert(rows[i].0 == k);
            }
        }
        r
    }
}

/// Rows are listed by falling count, and by their strings where the counts agree.
pub open spec fn row_le(a: (Seq<char>, usize), b: (Seq<char>, usize)) -> bool {
    a.1 > b.1 || (a.1 == b.1 && text_le(a.0, b.0))
}

impl Ranked for (String, usize) {
    open spec fn le(a: (Seq<char>, usize), b: (Seq<char>, usize)) -> bool {
        row_le(a, b)
    }

    proof fn le_total(a: (Seq<char>, usize), b: (Seq<char>, usize)) {
        String::le_total(a.0, b.0);
    }

    proof fn le_transitive(
        a: (Seq<char>, usize),
        b: (Seq<char>, usize),
        c: (Seq<char>, usize),
    ) {
        if a.1 == b.1 && b.1 == c.1 {
            String::le_transitive(a.0, b.0, c.0);
        }
    }

    fn leq(&self, other: &Self) -> bool {
        self.1 > other.1 || (self.1 == other.1 && self.0.leq(&other.0))
    }
}

/// The rows stand by falling count, and by their strings where the counts agree.
pub open spec fn counts_fall(rows: Seq<(Seq<char>, usize)>) -> bool {
    forall|i: int, j: int|
        0 <= i < j < rows.len() ==> row_le(#[trigger] rows[i], #[trigger] rows[j])
}

/// The display rows of a table: the biggest count first, and the strings in
/// ascending order where counts agree.
pub fn rows_count_desc(t: &Tally) -> (r: Vec<(String, usize)>)
    ensures
        lists(views(r@), t@),
        counts_fall(views(r@)),
{
    let rows: Vec<(String, usize)> = t.rows();
    let ghost before = views(rows@);
    let r: Vec<(String, usize)> = stable_sort(rows);
    proof {
        lemma_lists_sorted(before, views(r@), t@);
    }
    r
}

pub proof fn lemma_lists_sorted(
    a: Seq<(Seq<char>, usize)>,
    b: Seq<(Seq<char>, usize)>,
    m: Multiset<Seq<char>>,
)
    requires
        lists(a, m),
        sorted::<(String, usize)>(b),
        a.to_multiset() == b.to_multiset(),
    ensures
        lists(b, m),
        counts_fall(b),
{
    a.to_multiset_ensures();
    b.to_multiset_ensures();
    assert(a.len() == b.len());
    assert forall|i: int| 0 <= i < b.len() implies (#[trigger] b[i]).1 > 0 && b[i].1 == m.count(
        b[i].0,
    ) by {
        assert(b.contains(b[i]));
        assert(a.to_multiset().count(b[i]) > 0);
        assert(a.contains(b[i]));
        let j = a.index_of(b[i]);
        assert(a[j] == b[i]);
    }
    assert forall|k: Seq<char>| #[trigger] m.count(k) > 0 implies exists|i: int|
        0 <= i < b.len() && (#[trigger] b[i]).0 == k by {
        let j = choose|j: int| 0 <= j < a.len() && (#[trigger] a[j]).0 == k;
        assert(a.contains(a[j]));
        assert(b.to_multiset().count(a[j]) > 0);
        assert(b.contains(a[j]));
        let i = b.index_of(a[j]);
        assert(b[i].0 == k);
    }
    assert(a.no_duplicates()) by {
        assert forall|i: int, j: int| 0 <= i < a.len() && 0 <= j < a.len() && i != j implies a[i]
            != a[j] by {
            if i < j {
                assert(a[i].0 != a[j].0);
            } else {
                assert(a[j].0 != a[i].0);
            }
        }
    }
    a.lemma_multiset_has_no_duplicates();
    b.lemma_multiset_has_no_duplicates_conv();
    assert forall|i: int, j: int| 0 <= i < j < b.len() implies (#[trigger] b[i]).0 != (
    #[trigger] b[j]).0 by {
        if b[i].0 == b[j].0 {
            assert(b[i] == b[j]);
        }
    }
    assert forall|i: int, j: int| 0 <= i < j < b.len() implies row_le(
        #[trigger] b[i],
        #[trigger] b[j],
    ) by {
        assert(<(String, usize) as Ranked>::le(b[i], b[j]));
    }
}

/// Of two rows the one with the bigger count comes first; where the counts
/// agree, the strings decide.
pub proof fn law_row_order(a: (Seq<char>, usize), b: (Seq<char>, usize))
    ensures
        a.1 > b.1 ==> row_le(a, b) && !row_le(b, a),
        a.1 == b.1 ==> (row_le(a, b) <==> text_le(a.0, b.0)),
{
}

/// The rows of a tally tell of every string how often it was counted: once
/// for each string, and none for one that was not counted.
pub proof fn law_rows_tell_every_count(
    rows: Seq<(Seq<char>, usize)>,
    m: Multiset<Seq<char>>,
    k: Seq<char>,
    i: int,
    j: int,
)
    requires
        lists(rows, m),
        0 <= i < rows.len(),
        0 <= j < rows.len(),
    ensures
        rows[i].0 == rows[j].0 ==> i == j,
        rows[i].1 == m.count(rows[i].0),
        rows[i].1 > 0,
        m.count(k) > 0 ==> rows.contains((k, m.count(k) as usize)),
{
    if rows[i].0 == rows[j].0 && i != j {
        if i < j {
            assert(rows[i].0 != rows[j].0);
        } else {
            assert(rows[j].0 != rows[i].0);
        }
    }
    if m.count(k) > 0 {
        let n = choose|n: int| 0 <= n < rows.len() && (#[trigger] rows[n]).0 == k;
        assert(rows[n] == (k, m.count(k) as usize));
    }
}

}
