//! Stable ordering by time: trades by their time, candles by their open
//! time.

use vstd::prelude::*;
use crate::parser::{Trade, TradeView, trades_view};
use crate::candle::{Candle, sorted_by_time};

verus! {

/// The trades of `s` at time `k`, in their order in `s`.
pub open spec fn at_time(s: Seq<TradeView>, k: nat) -> Seq<TradeView>
    decreases s.len(),
{
    if s.len() == 0 {
        seq![]
    } else if s.last().time_ms == k {
        at_time(s.drop_last(), k).push(s.last())
    } else {
        at_time(s.drop_last(), k)
    }
}

/// `r` is `s` stably sorted by time: ordered by time, and at every time
/// the same trades in the same order.
pub open spec fn stably_sorted(r: Seq<TradeView>, s: Seq<TradeView>) -> bool {
    &&& sorted_by_time(r)
    &&& forall|k: nat| #[trigger] at_time(r, k) == at_time(s, k)
}

/// Values ordered by a time key: trades by their time, candles by their
/// open time.
pub trait TimeKeyed {
    /// The key, in epoch milliseconds.
    spec fn time_key(&self) -> nat;

    /// The key of a value.
    fn time(&self) -> (r: u64)
        ensures
            r == self.time_key(),
    ;
}

impl TimeKeyed for Trade {
    open spec fn time_key(&self) -> nat {
        self.time_ms as nat
    }

    fn time(&self) -> (r: u64) {
        self.time_ms
    }
}

impl TimeKeyed for Candle {
    open spec fn time_key(&self) -> nat {
        self.open_time as nat
    }

    fn time(&self) -> (r: u64) {
        self.open_time
    }
}

/// `s` is ordered by key.
pub open spec fn sorted_by_key<T: TimeKeyed>(s: Seq<T>) -> bool {
    forall|i: int, j: int| 0 <= i <= j < s.len() ==> s[i].time_key() <= s[j].time_key()
}

/// The values of `s` with key `k`, in their order in `s`.
pub open spec fn at_key<T: TimeKeyed>(s: Seq<T>, k: nat) -> Seq<T>
    decreases s.len(),
{
    if s.len() == 0 {
        seq![]
    } else if s.last().time_key() == k {
        at_key(s.drop_last(), k).push(s.last())
    } else {
        at_key(s.drop_last(), k)
    }
}

/// `r` is `s` stably sorted by key: ordered by key, and at every key the
/// same values in the same order.
pub open spec fn stably_sorted_by_key<T: TimeKeyed>(r: Seq<T>, s: Seq<T>) -> bool {
    &&& sorted_by_key(r)
    &&& forall|k: nat| #[trigger] at_key(r, k) == at_key(s, k)
}

proof fn lemma_at_key_concat<T: TimeKeyed>(a: Seq<T>, b: Seq<T>, k: nat)
    ensures
        at_key(a + b, k) == at_key(a, k) + at_key(b, k),
    decreases b.len(),
{
    if b.len() == 0 {
        assert(a + b =~= a);
        assert(at_key(b, k) =~= seq![]);
        assert(at_key(a, k) + at_key(b, k) =~= at_key(a, k));
    } else {
        assert((a + b).drop_last() =~= a + b.drop_last());
        assert((a + b).last() == b.last());
        lemma_at_key_concat(a, b.drop_last(), k);
        if b.last().time_key() == k {
            assert(at_key(a, k) + at_key(b.drop_last(), k).push(b.last())
                =~= (at_key(a, k) + at_key(b.drop_last(), k)).push(b.last()));
        }
    }
}

proof fn lemma_at_key_none<T: TimeKeyed>(s: Seq<T>, k: nat)
    requires
        forall|i: int| 0 <= i < s.len() ==> #[trigger] s[i].time_key() != k,
    ensures
        at_key(s, k) == Seq::<T>::empty(),
    decreases s.len(),
{
    if s.len() > 0 {
        let s0 = s.drop_last();
        assert forall|i: int| 0 <= i < s0.len() implies #[trigger] s0[i].time_key() != k by {
            assert(s0[i] == s[i]);
        }
        lemma_at_key_none(s0, k);
        assert(s[s.len() - 1].time_key() != k);
    }
}

/// Merges two ordered runs; on equal keys the value of `a` comes first.
fn merge<T: TimeKeyed + Copy>(a: &Vec<T>, b: &Vec<T>) -> (r: Vec<T>)
    requires
        sorted_by_key(a@),
        sorted_by_key(b@),
    ensures
        sorted_by_key(r@),
        forall|k: nat| #[trigger] at_key(r@, k) == at_key(a@, k) + at_key(b@, k),
{
    let mut r: Vec<T> = Vec::new();
    let mut i: usize = 0;
    let mut j: usize = 0;
    while i < a.len() || j < b.len()
        invariant
            sorted_by_key(a@),
            sorted_by_key(b@),
            i <= a.len(),
            j <= b.len(),
            r@.len() == i + j,
            sorted_by_key(r@),
            forall|k: nat| #[trigger] at_key(r@, k) == at_key(a@.take(i as int), k) + at_key(b@.take(j as int), k),
            // The last placed value is no later than what remains.
            r@.len() > 0 && i < a.len() ==> r@.last().time_key() <= a@[i as int].time_key(),
            r@.len() > 0 && j < b.len() ==> r@.last().time_key() <= b@[j as int].time_key(),
            // Values taken from `b` are strictly earlier than what remains of `a`.
            i < a.len() ==> forall|q: int| 0 <= q < j ==> #[trigger] b@[q].time_key() < a@[i as int].time_key(),
        decreases a.len() + b.len() - i - j,
    {
        let ghost r_old = r@;
        let take_a = if j >= b.len() {
            true
        } else if i < a.len() {
            a[i].time() <= b[j].time()
        } else {
            false
        };
        if take_a {
            let x = a[i];
            r.push(x);
            proof {
                assert(a@.take(i + 1) =~= a@.take(i as int).push(x));
                assert forall|k: nat| #[trigger] at_key(r@, k)
                    == at_key(a@.take(i + 1), k) + at_key(b@.take(j as int), k) by {
                    assert(r@ =~= r_old.push(x));
                    assert(r@.drop_last() =~= r_old);
                    assert(r@.last() == x);
                    assert(a@.take(i + 1).last() == x);
                    assert(at_key(r_old, k) == at_key(a@.take(i as int), k) + at_key(b@.take(j as int), k));
                    assert(a@.take(i + 1).drop_last() =~= a@.take(i as int));
                    if x.time_key() == k {
                        assert forall|q: int| 0 <= q < b@.take(j as int).len()
                            implies #[trigger] b@.take(j as int)[q].time_key() != k by {
                            assert(b@[q].time_key() < a@[i as int].time_key());
                        }
                        lemma_at_key_none(b@.take(j as int), k);
                        assert(at_key(a@.take(i as int), k).push(x) + at_key(b@.take(j as int), k)
                            =~= (at_key(a@.take(i as int), k) + at_key(b@.take(j as int), k)).push(x));
                    }
                }
                assert forall|p: int, q: int| 0 <= p <= q < r@.len()
                    implies r@[p].time_key() <= r@[q].time_key() by {
                    if q == r@.len() - 1 && p < q {
                        assert(r_old[p].time_key() <= r_old[r_old.len() - 1].time_key());
                    }
                }
                if i + 1 < a.len() {
                    assert(a@[i as int].time_key() <= a@[i + 1].time_key());
                    assert forall|q: int| 0 <= q < j implies #[trigger] b@[q].time_key() < a@[i + 1].time_key() by {
                        assert(b@[q].time_key() < a@[i as int].time_key());
                    }
                }
            }
            i = i + 1;
        } else {
            let x = b[j];
            r.push(x);
            proof {
                assert(b@.take(j + 1) =~= b@.take(j as int).push(x));
                assert forall|k: nat| #[trigger] at_key(r@, k)
                    == at_key(a@.take(i as int), k) + at_key(b@.take(j + 1), k) by {
                    assert(r@ =~= r_old.push(x));
                    assert(r@.drop_last() =~= r_old);
                    assert(r@.last() == x);
                    assert(b@.take(j + 1).last() == x);
                    assert(at_key(r_old, k) == at_key(a@.take(i as int), k) + at_key(b@.take(j as int), k));
                    assert(b@.take(j + 1).drop_last() =~= b@.take(j as int));
                    if x.time_key() == k {
                        assert(at_key(a@.take(i as int), k) + at_key(b@.take(j as int), k).push(x)
                            =~= (at_key(a@.take(i as int), k) + at_key(b@.take(j as int), k)).push(x));
                    }
                }
                assert forall|p: int, q: int| 0 <= p <= q < r@.len()
                    implies r@[p].time_key() <= r@[q].time_key() by {
                    if q == r@.len() - 1 && p < q {
                        assert(r_old[p].time_key() <= r_old[r_old.len() - 1].time_key());
                    }
                }
                if j + 1 < b.len() {
                    assert(b@[j as int].time_key() <= b@[j + 1].time_key());
                }
            }
            j = j + 1;
        }
    }
    proof {
        assert(a@.take(a.len() as int) =~= a@);
        assert(b@.take(b.len() as int) =~= b@);
    }
    r
}

fn sort_range<T: TimeKeyed + Copy>(v: &Vec<T>, lo: usize, hi: usize) -> (r: Vec<T>)
    requires
        lo <= hi <= v@.len(),
    ensures
        stably_sorted_by_key(r@, v@.subrange(lo as int, hi as int)),
    decreases hi - lo,
{
    if hi - lo <= 1 {
        let mut r: Vec<T> = Vec::new();
        if hi > lo {
            r.push(v[lo]);
        }
        proof {
            assert(r@ =~= v@.subrange(lo as int, hi as int));
        }
        r
    } else {
        let mid = lo + (hi - lo) / 2;
        let a = sort_range(v, lo, mid);
        let b = sort_range(v, mid, hi);
        let r = merge(&a, &b);
        proof {
            assert(v@.subrange(lo as int, hi as int) =~= v@.subrange(lo as int, mid as int) + v@.subrange(mid as int, hi as int));
            assert forall|k: nat| #[trigger] at_key(r@, k) == at_key(v@.subrange(lo as int, hi as int), k) by {
                lemma_at_key_concat(v@.subrange(lo as int, mid as int), v@.subrange(mid as int, hi as int), k);
                assert(at_key(a@, k) == at_key(v@.subrange(lo as int, mid as int), k));
                assert(at_key(b@, k) == at_key(v@.subrange(mid as int, hi as int), k));
            }
        }
        r
    }
}

/// Sorts by key, keeping the order of values with equal keys (a stable
/// sort, as `sort_by_key` is).
pub fn stable_sort<T: TimeKeyed + Copy>(v: &mut Vec<T>)
    ensures
        stably_sorted_by_key(final(v)@, old(v)@),
{
    let n = v.len();
    let sorted = sort_range(v, 0, n);
    proof {
        assert(v@.subrange(0, n as int) =~= v@);
    }
    *v = sorted;
}

proof fn lemma_at_key_nonempty_has<T: TimeKeyed>(s: Seq<T>, k: nat)
    requires
        at_key(s, k).len() > 0,
    ensures
        exists|i: int| 0 <= i < s.len() && #[trigger] s[i].time_key() == k,
    decreases s.len(),
{
    if s.last().time_key() == k {
        assert(s[s.len() - 1].time_key() == k);
    } else {
        lemma_at_key_nonempty_has(s.drop_last(), k);
        let i = choose|i: int| 0 <= i < s.drop_last().len() && #[trigger] s.drop_last()[i].time_key() == k;
        assert(s[i].time_key() == k);
    }
}

proof fn lemma_sorted_by_key_drop_last<T: TimeKeyed>(s: Seq<T>)
    requires
        sorted_by_key(s),
        s.len() > 0,
    ensures
        sorted_by_key(s.drop_last()),
{
    assert forall|i: int, j: int| 0 <= i <= j < s.drop_last().len()
        implies s.drop_last()[i].time_key() <= s.drop_last()[j].time_key() by {
        assert(s.drop_last()[i] == s[i] && s.drop_last()[j] == s[j]);
    }
}

/// A stable sort by key has one result: two ordered sequences with the
/// same values at every key are equal. So sorting is deterministic, and
/// sorting an ordered sequence leaves it as it is.
pub proof fn law_stable_sort_by_key_unique<T: TimeKeyed>(r1: Seq<T>, r2: Seq<T>)
    requires
        sorted_by_key(r1),
        sorted_by_key(r2),
        forall|k: nat| #[trigger] at_key(r1, k) == at_key(r2, k),
    ensures
        r1 == r2,
    decreases r1.len() + r2.len(),
{
    if r1.len() == 0 && r2.len() == 0 {
        assert(r1 =~= r2);
    } else if r1.len() == 0 {
        let k = r2.last().time_key();
        assert(at_key(r2, k).len() > 0);
        assert(at_key(r1, k) =~= seq![]);
    } else if r2.len() == 0 {
        let k = r1.last().time_key();
        assert(at_key(r1, k).len() > 0);
        assert(at_key(r2, k) =~= seq![]);
    } else {
        let x1 = r1.last();
        let x2 = r2.last();
        assert(at_key(r1, x1.time_key()).len() > 0);
        lemma_at_key_nonempty_has(r2, x1.time_key());
        let i2 = choose|i: int| 0 <= i < r2.len() && #[trigger] r2[i].time_key() == x1.time_key();
        assert(r2[i2].time_key() <= r2[r2.len() - 1].time_key());
        assert(at_key(r2, x2.time_key()).len() > 0);
        lemma_at_key_nonempty_has(r1, x2.time_key());
        let i1 = choose|i: int| 0 <= i < r1.len() && #[trigger] r1[i].time_key() == x2.time_key();
        assert(r1[i1].time_key() <= r1[r1.len() - 1].time_key());
        assert(x1.time_key() == x2.time_key());
        let k0 = x1.time_key();
        assert(at_key(r1, k0).last() == x1);
        assert(at_key(r2, k0).last() == x2);
        assert(x1 == x2);
        lemma_sorted_by_key_drop_last(r1);
        lemma_sorted_by_key_drop_last(r2);
        assert forall|k: nat| #[trigger] at_key(r1.drop_last(), k) == at_key(r2.drop_last(), k) by {
            if k == k0 {
                assert(at_key(r1, k0).drop_last() =~= at_key(r1.drop_last(), k0));
                assert(at_key(r2, k0).drop_last() =~= at_key(r2.drop_last(), k0));
                assert(at_key(r1, k0) == at_key(r2, k0));
            } else {
                assert(at_key(r1, k) == at_key(r2, k));
            }
        }
        law_stable_sort_by_key_unique(r1.drop_last(), r2.drop_last());
        assert(r1 =~= r1.drop_last().push(x1));
        assert(r2 =~= r2.drop_last().push(x2));
    }
}

proof fn lemma_at_time_of_view(s: Seq<Trade>, k: nat)
    ensures
        at_time(trades_view(s), k) == trades_view(at_key(s, k)),
    decreases s.len(),
{
    if s.len() > 0 {
        lemma_at_time_of_view(s.drop_last(), k);
        assert(trades_view(s).drop_last() =~= trades_view(s.drop_last()));
        if s.last().time_ms == k {
            assert(trades_view(at_key(s, k)) =~= trades_view(at_key(s.drop_last(), k)).push(s.last()@));
        }
    } else {
        assert(trades_view(s) =~= seq![]);
        assert(trades_view(at_key(s, k)) =~= seq![]);
    }
}

/// Sorts trades by time, keeping the order of trades with equal times
/// (a stable sort, as `sort_by_key` is).
pub fn sort_by_time(trades: &mut Vec<Trade>)
    ensures
        stably_sorted(trades_view(final(trades)@), trades_view(old(trades)@)),
{
    let ghost before = trades@;
    stable_sort(trades);
    proof {
        assert forall|k: nat| #[trigger] at_time(trades_view(trades@), k) == at_time(trades_view(before), k) by {
            lemma_at_time_of_view(trades@, k);
            lemma_at_time_of_view(before, k);
        }
        assert forall|i: int, j: int| 0 <= i <= j < trades_view(trades@).len()
            implies trades_view(trades@)[i].time_ms <= trades_view(trades@)[j].time_ms by {
            assert(trades@[i].time_key() <= trades@[j].time_key());
        }
    }
}

/// Sorts candles by open time, keeping the order of candles with equal
/// open times (a stable sort, as `sort_by_key` is).
pub fn sort_by_open_time(candles: &mut Vec<Candle>)
    ensures
        stably_sorted_by_key(final(candles)@, old(candles)@),
{
    stable_sort(candles);
}

proof fn lemma_at_time_nonempty_has(s: Seq<TradeView>, k: nat)
    requires
        at_time(s, k).len() > 0,
    ensures
        exists|i: int| 0 <= i < s.len() && #[trigger] s[i].time_ms == k,
    decreases s.len(),
{
    if s.last().time_ms == k {
        assert(s[s.len() - 1].time_ms == k);
    } else {
        lemma_at_time_nonempty_has(s.drop_last(), k);
        let i = choose|i: int| 0 <= i < s.drop_last().len() && #[trigger] s.drop_last()[i].time_ms == k;
        assert(s[i].time_ms == k);
    }
}

proof fn lemma_sorted_drop_last(s: Seq<TradeView>)
    requires
        sorted_by_time(s),
        s.len() > 0,
    ensures
        sorted_by_time(s.drop_last()),
{
    assert forall|i: int, j: int| 0 <= i <= j < s.drop_last().len()
        implies s.drop_last()[i].time_ms <= s.drop_last()[j].time_ms by {
        assert(s.drop_last()[i] == s[i] && s.drop_last()[j] == s[j]);
    }
}

/// A stable sort has one result: two time-ordered sequences with the
/// same trades at every time are equal. In particular sorting is
/// deterministic, and sorting a sorted sequence leaves it as it is.
pub proof fn law_stable_sort_unique(r1: Seq<TradeView>, r2: Seq<TradeView>)
    requires
        sorted_by_time(r1),
        sorted_by_time(r2),
        forall|k: nat| #[trigger] at_time(r1, k) == at_time(r2, k),
    ensures
        r1 == r2,
    decreases r1.len() + r2.len(),
{
    if r1.len() == 0 && r2.len() == 0 {
        assert(r1 =~= r2);
    } else if r1.len() == 0 {
        let k = r2.last().time_ms;
        assert(at_time(r2, k).len() > 0);
        assert(at_time(r1, k) =~= seq![]);
    } else if r2.len() == 0 {
        let k = r1.last().time_ms;
        assert(at_time(r1, k).len() > 0);
        assert(at_time(r2, k) =~= seq![]);
    } else {
        let x1 = r1.last();
        let x2 = r2.last();
        assert(at_time(r1, x1.time_ms).len() > 0);
        lemma_at_time_nonempty_has(r2, x1.time_ms);
        let i2 = choose|i: int| 0 <= i < r2.len() && #[trigger] r2[i].time_ms == x1.time_ms;
        assert(r2[i2].time_ms <= r2[r2.len() - 1].time_ms);
        assert(at_time(r2, x2.time_ms).len() > 0);
        lemma_at_time_nonempty_has(r1, x2.time_ms);
        let i1 = choose|i: int| 0 <= i < r1.len() && #[trigger] r1[i].time_ms == x2.time_ms;
        assert(r1[i1].time_ms <= r1[r1.len() - 1].time_ms);
        assert(x1.time_ms == x2.time_ms);
        let k0 = x1.time_ms;
        assert(at_time(r1, k0).last() == x1);
        assert(at_time(r2, k0).last() == x2);
        assert(x1 == x2);
        lemma_sorted_drop_last(r1);
        lemma_sorted_drop_last(r2);
        assert forall|k: nat| #[trigger] at_time(r1.drop_last(), k) == at_time(r2.drop_last(), k) by {
            if k == k0 {
                assert(at_time(r1, k0).drop_last() =~= at_time(r1.drop_last(), k0));
                assert(at_time(r2, k0).drop_last() =~= at_time(r2.drop_last(), k0));
                assert(at_time(r1, k0) == at_time(r2, k0));
            } else {
                assert(at_time(r1, k) == at_time(r2, k));
            }
        }
        law_stable_sort_unique(r1.drop_last(), r2.drop_last());
        assert(r1 =~= r1.drop_last().push(x1));
        assert(r2 =~= r2.drop_last().push(x2));
    }
}

} // verus!
