//! Chronological sorting of trades.
//!
//! The engine requires its input sorted by timestamp. The sort is a
//! stable insertion sort whose executable code mirrors the spec-level
//! recursion exactly, so the engine's result is a deterministic
//! function of the input sequence. The lemmas here give the classical
//! facts: the sort produces a time-sorted permutation, and a time-sorted
//! permutation of a sequence with pairwise-distinct timestamps is
//! unique — which is what makes the engine order-independent.

use vstd::prelude::*;
use vstd::seq_lib::group_to_multiset_ensures;

use crate::trade::Trade;

verus! {

/// The sequence is ordered by ascending timestamp.
pub open spec fn time_sorted(s: Seq<Trade>) -> bool {
    forall|i: int, j: int|
        0 <= i <= j < s.len() ==> s[i].date_time.spec_key() <= s[j].date_time.spec_key()
}

/// No two trades in the sequence share a timestamp.
pub open spec fn distinct_times(s: Seq<Trade>) -> bool {
    forall|i: int, j: int|
        0 <= i < j < s.len() ==> s[i].date_time.spec_key() != s[j].date_time.spec_key()
}

/// `t` inserted into `s` after every element whose timestamp is at most
/// `t`'s (the stable insertion position).
pub open spec fn insert_by_time(s: Seq<Trade>, t: Trade) -> Seq<Trade>
    decreases s.len(),
{
    if s.len() > 0 && s.last().date_time.spec_key() > t.date_time.spec_key() {
        insert_by_time(s.drop_last(), t).push(s.last())
    } else {
        s.push(t)
    }
}

/// `s` stably sorted by ascending timestamp.
pub open spec fn sort_by_time(s: Seq<Trade>) -> Seq<Trade>
    decreases s.len(),
{
    if s.len() == 0 {
        Seq::empty()
    } else {
        insert_by_time(sort_by_time(s.drop_last()), s.last())
    }
}

/// Inserting preserves sortedness and adds exactly `t` to the contents.
pub proof fn lemma_insert_by_time(s: Seq<Trade>, t: Trade)
    requires
        time_sorted(s),
    ensures
        time_sorted(insert_by_time(s, t)),
        insert_by_time(s, t).to_multiset() == s.to_multiset().insert(t),
        insert_by_time(s, t).len() == s.len() + 1,
    decreases s.len(),
{
    broadcast use group_to_multiset_ensures;

    let r = insert_by_time(s, t);
    if s.len() > 0 && s.last().date_time.spec_key() > t.date_time.spec_key() {
        let butlast = s.drop_last();
        assert(time_sorted(butlast));
        lemma_insert_by_time(butlast, t);
        let r0 = insert_by_time(butlast, t);
        // every element of r0 is either t or an element of s's prefix,
        // so its timestamp is at most the last element's
        assert forall|i: int| 0 <= i < r0.len() implies r0[i].date_time.spec_key()
            <= s.last().date_time.spec_key() by {
            assert(r0.contains(r0[i]));
            assert(r0.to_multiset().count(r0[i]) > 0);
            if r0[i] != t {
                assert(butlast.to_multiset().count(r0[i]) > 0);
                assert(butlast.contains(r0[i]));
                let j = choose|j: int| 0 <= j < butlast.len() && butlast[j] == r0[i];
                assert(s[j] == r0[i]);
            }
        }
        assert(r =~= r0.push(s.last()));
        assert(butlast.push(s.last()) =~= s);
        assert(s.to_multiset() == butlast.to_multiset().insert(s.last()));
        assert(r.to_multiset() =~= s.to_multiset().insert(t)) by {
            assert(r.to_multiset() == r0.to_multiset().insert(s.last()));
            assert(r0.to_multiset() == butlast.to_multiset().insert(t));
        }
    } else {
        assert(r =~= s.push(t));
        if s.len() > 0 {
            assert forall|i: int| 0 <= i < s.len() implies s[i].date_time.spec_key()
                <= t.date_time.spec_key() by {
                assert(s[i].date_time.spec_key() <= s.last().date_time.spec_key());
            }
        }
    }
}

/// The sort returns a time-sorted permutation of its input.
pub proof fn lemma_sort_by_time(s: Seq<Trade>)
    ensures
        time_sorted(sort_by_time(s)),
        sort_by_time(s).to_multiset() == s.to_multiset(),
        sort_by_time(s).len() == s.len(),
    decreases s.len(),
{
    broadcast use group_to_multiset_ensures;

    if s.len() == 0 {
        assert(sort_by_time(s).to_multiset() =~= s.to_multiset());
    } else {
        let butlast = s.drop_last();
        lemma_sort_by_time(butlast);
        lemma_insert_by_time(sort_by_time(butlast), s.last());
        assert(butlast.push(s.last()) =~= s);
        assert(s.to_multiset() == butlast.to_multiset().insert(s.last()));
    }
}

/// A sequence with the same contents as one with pairwise-distinct
/// timestamps has pairwise-distinct timestamps itself.
pub proof fn lemma_distinct_times_permuted(a: Seq<Trade>, b: Seq<Trade>)
    requires
        distinct_times(a),
        a.to_multiset() == b.to_multiset(),
    ensures
        distinct_times(b),
{
    broadcast use group_to_multiset_ensures;

    assert forall|i: int, j: int| 0 <= i < j < b.len() implies b[i].date_time.spec_key()
        != b[j].date_time.spec_key() by {
        if b[i].date_time.spec_key() == b[j].date_time.spec_key() {
            if b[i] == b[j] {
                // the value occurs twice in b, hence twice in a, hence
                // at two positions of a with the same timestamp
                assert(b.remove(i).to_multiset() == b.to_multiset().remove(b[i]));
                assert(b.remove(i)[j - 1] == b[j]);
                assert(b.remove(i).contains(b[j]));
                assert(b.remove(i).to_multiset().count(b[j]) > 0);
                assert(b.to_multiset().count(b[i]) >= 2);
                assert(a.to_multiset().count(b[i]) > 0);
                assert(a.contains(b[i]));
                let p = choose|p: int| 0 <= p < a.len() && a[p] == b[i];
                assert(a.remove(p).to_multiset() == a.to_multiset().remove(a[p]));
                assert(a.remove(p).to_multiset().count(b[i]) > 0);
                assert(a.remove(p).contains(b[i]));
                let q0 = choose|q: int| 0 <= q < a.remove(p).len() && a.remove(p)[q] == b[i];
                let q = if q0 < p {
                    q0
                } else {
                    q0 + 1
                };
                assert(a[q] == b[i]);
                assert(p != q);
                assert(false);
            } else {
                // two different values with one timestamp, both in a
                assert(b.contains(b[i]) && b.contains(b[j]));
                assert(a.to_multiset().count(b[i]) > 0 && a.to_multiset().count(b[j]) > 0);
                assert(a.contains(b[i]) && a.contains(b[j]));
                let p = choose|p: int| 0 <= p < a.len() && a[p] == b[i];
                let q = choose|q: int| 0 <= q < a.len() && a[q] == b[j];
                assert(p != q);
                assert(false);
            }
        }
    }
}

/// A time-sorted sequence over pairwise-distinct timestamps is the only
/// time-sorted arrangement of its contents.
pub proof fn lemma_sorted_permutation_unique(s1: Seq<Trade>, s2: Seq<Trade>)
    requires
        time_sorted(s1),
        time_sorted(s2),
        distinct_times(s1),
        s1.to_multiset() == s2.to_multiset(),
    ensures
        s1 == s2,
    decreases s1.len(),
{
    broadcast use group_to_multiset_ensures;

    s1.to_multiset_ensures();
    s2.to_multiset_ensures();
    assert(s1.to_multiset().len() == s2.to_multiset().len());
    assert(s1.len() == s2.len());
    if s1.len() == 0 {
        assert(s1 =~= s2);
    } else {
        let a = s1.last();
        let b = s2.last();
        assert(s1.contains(a) && s2.contains(b));
        assert(s1.to_multiset().count(b) > 0);
        assert(s1.contains(b));
        assert(s2.to_multiset().count(a) > 0);
        assert(s2.contains(a));
        let ib = choose|i: int| 0 <= i < s1.len() && s1[i] == b;
        let ia = choose|i: int| 0 <= i < s2.len() && s2[i] == a;
        assert(b.date_time.spec_key() <= a.date_time.spec_key());
        assert(a.date_time.spec_key() <= b.date_time.spec_key());
        if ib < s1.len() - 1 {
            assert(s1[ib].date_time.spec_key() != s1[s1.len() - 1].date_time.spec_key());
            assert(false);
        }
        assert(a == b);
        let t1 = s1.drop_last();
        let t2 = s2.drop_last();
        assert(t1.push(a) =~= s1);
        assert(t2.push(a) =~= s2);
        assert(s1.to_multiset() == t1.to_multiset().insert(a));
        assert(s2.to_multiset() == t2.to_multiset().insert(a));
        assert(t1.to_multiset() =~= t2.to_multiset()) by {
            assert(forall|x: Trade|
                #[trigger] t1.to_multiset().count(x) == if x == a {
                    s1.to_multiset().count(x) - 1
                } else {
                    s1.to_multiset().count(x) as int
                });
            assert(forall|x: Trade|
                #[trigger] t2.to_multiset().count(x) == if x == a {
                    s2.to_multiset().count(x) - 1
                } else {
                    s2.to_multiset().count(x) as int
                });
        }
        assert(time_sorted(t1) && time_sorted(t2) && distinct_times(t1));
        lemma_sorted_permutation_unique(t1, t2);
        assert(s1 =~= s2);
    }
}

/// Inserts `t` into the time-sorted `sorted`, after every element whose
/// timestamp is at most `t`'s.
pub fn insert_trade(sorted: Vec<Trade>, t: Trade) -> (r: Vec<Trade>)
    requires
        forall|i: int| 0 <= i < sorted@.len() ==> (#[trigger] sorted@[i]).wf(),
        t.wf(),
    ensures
        r@ == insert_by_time(sorted@, t),
    decreases sorted@.len(),
{
    let n = sorted.len();
    let mut sorted = sorted;
    let ghost orig = sorted@;
    if n > 0 {
        let last = sorted[n - 1];
        if last.date_time.key() > t.date_time.key() {
            sorted.pop();
            proof {
                assert(sorted@ =~= orig.drop_last());
            }
            let mut r = insert_trade(sorted, t);
            r.push(last);
            return r;
        }
    }
    sorted.push(t);
    sorted
}

/// Stably sorts trades by ascending timestamp.
pub fn sort_trades(trades: Vec<Trade>) -> (r: Vec<Trade>)
    requires
        forall|i: int| 0 <= i < trades@.len() ==> (#[trigger] trades@[i]).wf(),
    ensures
        r@ == sort_by_time(trades@),
        forall|i: int| 0 <= i < r@.len() ==> (#[trigger] r@[i]).wf(),
    decreases trades@.len(),
{
    let mut trades = trades;
    let ghost orig = trades@;
    if trades.len() == 0 {
        proof {
            assert(trades@ =~= Seq::<Trade>::empty());
        }
        trades
    } else {
        let last = match trades.pop() {
            Some(x) => x,
            None => { return trades; },
        };
        proof {
            assert(trades@ =~= orig.drop_last());
        }
        let sorted = sort_trades(trades);
        proof {
            lemma_sort_by_time(orig.drop_last());
            broadcast use group_to_multiset_ensures;

            assert forall|i: int| 0 <= i < sorted@.len() implies (#[trigger] sorted@[i]).wf() by {
                assert(sorted@.contains(sorted@[i]));
                assert(sorted@.to_multiset().count(sorted@[i]) > 0);
                assert(orig.drop_last().contains(sorted@[i]));
                let j = choose|j: int|
                    0 <= j < orig.drop_last().len() && orig.drop_last()[j] == sorted@[i];
                assert(orig[j] == sorted@[i]);
            }
        }
        let r = insert_trade(sorted, last);
        proof {
            lemma_sort_by_time(orig);
            broadcast use group_to_multiset_ensures;

            assert forall|i: int| 0 <= i < r@.len() implies (#[trigger] r@[i]).wf() by {
                assert(r@.contains(r@[i]));
                assert(r@.to_multiset().count(r@[i]) > 0);
                assert(orig.contains(r@[i]));
                let j = choose|j: int| 0 <= j < orig.len() && orig[j] == r@[i];
            }
        }
        r
    }
}

} // verus!
