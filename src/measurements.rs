use vstd::multiset::Multiset;
use vstd::prelude::*;

use crate::scores::Score;
use crate::weights::Weight;

verus! {

/// The scores of one metric on one key matrix: optionally each score, and
/// the two sums.
pub struct Measurement<K> {
    pub opt_details: Option<Vec<Score<K>>>,
    pub sum: u64,
    pub sum_ew: u64,
}

/// The value of a score under a weight.
pub open spec fn weighted_value_of<K>(s: Score<K>, weight: Weight) -> u64 {
    match weight {
        Weight::Effort => s.value_ew,
        Weight::Raw => s.value,
    }
}

/// Each score's value under the weight is at least the next one's.
pub open spec fn descending<K>(s: Seq<Score<K>>, weight: Weight) -> bool {
    forall|i: int, j: int| 0 <= i < j < s.len() ==> weighted_value_of(#[trigger] s[i], weight) >= weighted_value_of(#[trigger] s[j], weight)
}

/// The value of a score under a weight.
pub fn value_under<K>(s: &Score<K>, weight: Weight) -> (v: u64)
    ensures
        v == weighted_value_of(*s, weight),
{
    match weight {
        Weight::Effort => s.value_ew,
        Weight::Raw => s.value,
    }
}

/// Two scores have the same value under the weight.
pub open spec fn same_value<K>(weight: Weight) -> spec_fn(Score<K>, Score<K>) -> bool {
    |a: Score<K>, b: Score<K>| weighted_value_of(a, weight) == weighted_value_of(b, weight)
}

/// `e[k]` is `d[idx[k]]`, each place of `d` used once, and entries that `tie`
/// cannot tell apart keep the order they had in `d`.
pub open spec fn is_stable_arrangement<T>(e: Seq<T>, d: Seq<T>, idx: Seq<int>, tie: spec_fn(T, T) -> bool) -> bool {
    &&& idx.len() == e.len()
    &&& e.len() == d.len()
    &&& idx.no_duplicates()
    &&& forall|k: int| 0 <= k < e.len() ==> 0 <= #[trigger] idx[k] < d.len() && e[k] == d[idx[k]]
    &&& forall|k: int, l: int| 0 <= k < l < e.len() && tie(#[trigger] e[k], #[trigger] e[l]) ==> idx[k] < idx[l]
}

/// `e` is `d` rearranged, entries that `tie` cannot tell apart in their order.
pub open spec fn stably_arranged<T>(e: Seq<T>, d: Seq<T>, tie: spec_fn(T, T) -> bool) -> bool {
    exists|idx: Seq<int>| #[trigger] is_stable_arrangement(e, d, idx, tie)
}

/// Inserting `d[n]` into an arrangement of `d[..n]` at place `p`.
pub proof fn lemma_arrangement_insert<T>(
    e: Seq<T>,
    d: Seq<T>,
    idx: Seq<int>,
    tie: spec_fn(T, T) -> bool,
    n: int,
    p: int,
    x: T,
)
    requires
        0 <= n < d.len(),
        0 <= p <= e.len(),
        d[n] == x,
        is_stable_arrangement(e, d.take(n), idx, tie),
    ensures
        idx.insert(p, n).len() == e.insert(p, x).len(),
        idx.insert(p, n).no_duplicates(),
        forall|k: int| 0 <= k < e.len() + 1 ==> 0 <= #[trigger] idx.insert(p, n)[k] < n + 1 && e.insert(p, x)[k]
            == d.take(n + 1)[idx.insert(p, n)[k]],
        forall|k: int, l: int|
            0 <= k < l < e.len() + 1 && k != p && l != p && tie(#[trigger] e.insert(p, x)[k], #[trigger] e.insert(p, x)[l])
                ==> idx.insert(p, n)[k] < idx.insert(p, n)[l],
        forall|k: int| 0 <= k < p ==> #[trigger] idx.insert(p, n)[k] < n,
{
    let f = e.insert(p, x);
    let j = idx.insert(p, n);
    assert forall|k: int| 0 <= k < e.len() + 1 implies 0 <= #[trigger] j[k] < n + 1 && f[k] == d.take(n + 1)[j[k]] by {
        if k < p {
            assert(j[k] == idx[k] && f[k] == e[k]);
        } else if k > p {
            assert(j[k] == idx[k - 1] && f[k] == e[k - 1]);
        }
    }
    assert forall|a: int, b: int| 0 <= a < b < j.len() implies j[a] != j[b] by {
        let a2 = if a < p { a } else { a - 1 };
        let b2 = if b < p { b } else { b - 1 };
        if a != p && b != p {
            assert(j[a] == idx[a2] && j[b] == idx[b2]);
        } else if a == p {
            assert(j[b] == idx[b2]);
        } else {
            assert(j[a] == idx[a2]);
        }
    }
    assert forall|k: int, l: int|
        0 <= k < l < e.len() + 1 && k != p && l != p && tie(#[trigger] f[k], #[trigger] f[l]) implies j[k] < j[l] by {
        let k2 = if k < p { k } else { k - 1 };
        let l2 = if l < p { l } else { l - 1 };
        assert(f[k] == e[k2] && f[l] == e[l2] && j[k] == idx[k2] && j[l] == idx[l2]);
    }
    assert forall|k: int| 0 <= k < p implies #[trigger] j[k] < n by {
        assert(j[k] == idx[k]);
    }
}

/// The inserted entry, with the greatest number, keeps the arrangement stable
/// when it ties with nothing after it.
pub proof fn lemma_arrangement_extend<T>(f: Seq<T>, d: Seq<T>, j: Seq<int>, tie: spec_fn(T, T) -> bool, n: int, p: int)
    requires
        0 <= n < d.len(),
        0 <= p < f.len(),
        j.len() == f.len(),
        f.len() == n + 1,
        j[p] == n,
        j.no_duplicates(),
        forall|k: int| 0 <= k < f.len() ==> 0 <= #[trigger] j[k] < n + 1 && f[k] == d.take(n + 1)[j[k]],
        forall|k: int, l: int| 0 <= k < l < f.len() && k != p && l != p && tie(#[trigger] f[k], #[trigger] f[l]) ==> j[k] < j[l],
        forall|k: int| 0 <= k < p ==> #[trigger] j[k] < n,
        forall|l: int| p < l < f.len() ==> !tie(f[p], #[trigger] f[l]),
    ensures
        is_stable_arrangement(f, d.take(n + 1), j, tie),
{
}

impl<K> Measurement<K> {
    pub fn new(opt_details: Option<Vec<Score<K>>>, sum: u64, sum_ew: u64) -> (m: Self)
        ensures
            m.opt_details == opt_details,
            m.sum == sum,
            m.sum_ew == sum_ew,
    {
        Measurement { opt_details, sum, sum_ew }
    }

    /// Drops the scores whose two values are both zero, keeping the order of the others.
    pub fn retain_non_zero_details(&mut self)
        ensures
            final(self).sum == old(self).sum,
            final(self).sum_ew == old(self).sum_ew,
            final(self).opt_details is Some <==> old(self).opt_details is Some,
            old(self).opt_details matches Some(d) ==> final(self).opt_details->Some_0@ == d@.filter(
                |s: Score<K>| !(s.value == 0 && s.value_ew == 0),
            ),
    {
        match self.opt_details.take() {
            None => {},
            Some(details) => {
                let ghost p = |s: Score<K>| !(s.value == 0 && s.value_ew == 0);
                let ghost d0 = details@;
                let n = details.len();
                let mut rest = details;
                let mut kept: Vec<Score<K>> = Vec::new();
                let mut i: usize = 0;
                while rest.len() > 0
                    invariant
                        p == (|s: Score<K>| !(s.value == 0 && s.value_ew == 0)),
                        i + rest@.len() == d0.len(),
                        d0.len() <= usize::MAX,
                        rest@ == d0.skip(i as int),
                        kept@ == d0.take(i as int).filter(p),
                    decreases rest.len(),
                {
                    let s = rest.remove(0);
                    proof {
                        assert(d0[i as int] == s);
                        assert(rest@ =~= d0.skip(i + 1));
                        reveal(Seq::filter);
                        assert(d0.take(i + 1).drop_last() =~= d0.take(i as int));
                    }
                    if !(s.value == 0 && s.value_ew == 0) {
                        kept.push(s);
                    }
                    i = i + 1;
                }
                assert(d0.take(d0.len() as int) =~= d0);
                self.opt_details = Some(kept);
            },
        }
    }

    /// Sorts the scores by their value under the weight, largest first, equal
    /// values keeping their order.
    pub fn sort_details(&mut self, weight: Weight)
        ensures
            final(self).sum == old(self).sum,
            final(self).sum_ew == old(self).sum_ew,
            final(self).opt_details is Some <==> old(self).opt_details is Some,
            old(self).opt_details matches Some(d) ==> {
                let e = final(self).opt_details->Some_0@;
                &&& e.to_multiset() == d@.to_multiset()
                &&& descending(e, weight)
                &&& stably_arranged(e, d@, same_value(weight))
            },
    {
        match self.opt_details.take() {
            None => {},
            Some(details) => {
                let ghost d0 = details@;
                let ghost tie = same_value::<K>(weight);
                let mut rest = details;
                let mut sorted: Vec<Score<K>> = Vec::new();
                let ghost mut idx: Seq<int> = Seq::empty();
                let ghost mut done: int = 0;
                broadcast use vstd::seq_lib::group_to_multiset_ensures;
                proof {
                    vstd::seq_lib::to_multiset_len(sorted@);
                    vstd::multiset::lemma_multiset_empty_len(sorted@.to_multiset());
                    broadcast use vstd::multiset::group_multiset_axioms;
                    assert(sorted@.to_multiset().add(rest@.to_multiset()) =~= d0.to_multiset());
                    assert(d0.skip(0) =~= d0);
                }
                while rest.len() > 0
                    invariant
                        sorted@.to_multiset().add(rest@.to_multiset()) == d0.to_multiset(),
                        descending(sorted@, weight),
                        tie == same_value::<K>(weight),
                        0 <= done <= d0.len(),
                        rest@ == d0.skip(done),
                        is_stable_arrangement(sorted@, d0.take(done), idx, tie),
                    decreases rest.len(),
                {
                    let ghost old_rest = rest@;
                    let s = rest.remove(0);
                    assert(s == d0[done]);
                    let v = value_under(&s, weight);
                    // the first place whose value is smaller: after every equal value
                    let mut p: usize = sorted.len();
                    while p > 0 && value_under(&sorted[p - 1], weight) < v
                        invariant
                            p <= sorted@.len(),
                            descending(sorted@, weight),
                            forall|k: int| p <= k < sorted@.len() ==> weighted_value_of(#[trigger] sorted@[k], weight) < v,
                        decreases p,
                    {
                        p = p - 1;
                    }
                    let ghost before = sorted@;
                    let ghost idx0 = idx;
                    sorted.insert(p, s);
                    proof {
                        let f = sorted@;
                        assert(f =~= before.insert(p as int, s));
                        assert forall|i: int, j: int| 0 <= i < j < f.len() implies weighted_value_of(#[trigger] f[i], weight)
                            >= weighted_value_of(#[trigger] f[j], weight) by {
                            if j < p {
                                assert(f[i] == before[i] && f[j] == before[j]);
                            } else if j == p {
                                assert(f[i] == before[i]);
                            } else if i < p {
                                assert(f[i] == before[i] && f[j] == before[j - 1]);
                            } else if i == p {
                                assert(f[j] == before[j - 1]);
                            } else {
                                assert(f[i] == before[i - 1] && f[j] == before[j - 1]);
                            }
                        }
                        vstd::seq_lib::to_multiset_insert(before, p as int, s);
                        broadcast use vstd::multiset::group_multiset_axioms;
                        assert(old_rest =~= seq![s] + rest@);
                        vstd::seq_lib::lemma_multiset_commutative(seq![s], rest@);
                        vstd::seq_lib::to_multiset_len(Seq::<Score<K>>::empty());
                        vstd::multiset::lemma_multiset_empty_len(Seq::<Score<K>>::empty().to_multiset());
                        assert(seq![s] =~= Seq::<Score<K>>::empty().push(s));
                        vstd::seq_lib::to_multiset_build(Seq::<Score<K>>::empty(), s);
                        assert(sorted@.to_multiset().add(rest@.to_multiset()) =~= d0.to_multiset());
                        idx = idx0.insert(p as int, done);
                        lemma_arrangement_insert(before, d0, idx0, tie, done, p as int, s);
                        assert forall|j: int| p < j < f.len() implies !tie(s, #[trigger] f[j]) by {
                            assert(f[j] == before[j - 1]);
                        }
                        lemma_arrangement_extend(f, d0, idx, tie, done, p as int);
                        done = done + 1;
                        assert(rest@ =~= d0.skip(done));
                    }
                }
                proof {
                    assert(d0.take(done) =~= d0);
                }
                self.opt_details = Some(sorted);
            },
        }
    }

    /// The sum under the weight.
    pub fn sum_by_weight(&self, weight: Weight) -> (s: u64)
        ensures
            s == match weight {
                Weight::Effort => self.sum_ew,
                Weight::Raw => self.sum,
            },
    {
        match weight {
            Weight::Effort => self.sum_ew,
            Weight::Raw => self.sum,
        }
    }
}

} // verus!
