use vstd::arithmetic::div_mod::{lemma_div_is_ordered, lemma_div_multiples_vanish};
use vstd::prelude::*;

use crate::goals::Goal;
use crate::math::{checked_factorial, decode, fact, factorial, index_to_permutation, lemma_decode_permutes, lemma_fact_monotonic, lemma_fact_positive};
use crate::scores::Scorer;
use crate::tables::cells_of;
use crate::weights::Weight;

verus! {

/// How far below the best score (above it, when minimising) a candidate may
/// fall and still be kept: the fraction `num / den`, between 0 and 1.
#[derive(Clone, Copy, Debug, PartialEq, Eq, Structural)]
pub struct Tolerance {
    pub num: u64,
    pub den: u64,
}

impl Tolerance {
    pub open spec fn wf(self) -> bool {
        0 < self.den && self.num <= self.den
    }

    /// The fraction `num / den`, brought into `[0, 1]`; `None` where `den` is 0.
    pub fn new(num: u64, den: u64) -> (r: Option<Tolerance>)
        ensures
            r is Some <==> den > 0,
            r matches Some(t) ==> t.wf() && t.den == den && t.num == if num <= den {
                num
            } else {
                den
            },
    {
        if den == 0 {
            None
        } else if num <= den {
            Some(Tolerance { num, den })
        } else {
            Some(Tolerance { num: den, den })
        }
    }
}

/// The score with which a search starts: nothing is worse.
pub open spec fn initial_score(goal: Goal) -> u64 {
    match goal {
        Goal::Max => 0,
        Goal::Min => u64::MAX,
    }
}

/// The bound that a score must reach to be kept, given the best score so far:
/// the best itself at tolerance 1; every score at tolerance 0; otherwise
/// `⌊best · t⌋` when maximising and `⌈best / t⌉` (at most `u64::MAX`) when
/// minimising.
pub open spec fn threshold(goal: Goal, best: u64, t: Tolerance) -> u64 {
    if t.num == t.den {
        best
    } else if t.num == 0 {
        initial_score(goal)
    } else {
        match goal {
            Goal::Max => ((best as int * t.num as int) / t.den as int) as u64,
            Goal::Min => {
                let q = (best as int * t.den as int + t.num as int - 1) / t.num as int;
                if q > u64::MAX {
                    u64::MAX
                } else {
                    q as u64
                }
            },
        }
    }
}

/// `a` is a strictly better score than `b`.
pub open spec fn better(goal: Goal, a: u64, b: u64) -> bool {
    match goal {
        Goal::Max => a > b,
        Goal::Min => a < b,
    }
}

/// `score` lies on the kept side of `bound`.
pub open spec fn admissible(goal: Goal, score: u64, bound: u64) -> bool {
    match goal {
        Goal::Max => score >= bound,
        Goal::Min => score <= bound,
    }
}

/// The threshold for the best score `best`.
pub fn calculate_threshold(goal: Goal, best: u64, tolerance: Tolerance) -> (r: u64)
    requires
        tolerance.wf(),
    ensures
        r == threshold(goal, best, tolerance),
{
    if tolerance.num == tolerance.den {
        best
    } else if tolerance.num == 0 {
        match goal {
            Goal::Max => 0,
            Goal::Min => u64::MAX,
        }
    } else {
        match goal {
            Goal::Max => {
                assert(best as u128 * tolerance.num as u128 <= 0xffff_ffff_ffff_fffe_0000_0000_0000_0001) by (nonlinear_arith)
                    requires best <= 0xffff_ffff_ffff_ffffu64, tolerance.num <= 0xffff_ffff_ffff_ffffu64;
                let p: u128 = best as u128 * tolerance.num as u128;
                let q: u128 = p / tolerance.den as u128;
                proof {
                    assert(p <= best as int * tolerance.den as int) by (nonlinear_arith)
                        requires p == best as int * tolerance.num as int, tolerance.num <= tolerance.den;
                    lemma_div_is_ordered(p as int, best as int * tolerance.den as int, tolerance.den as int);
                    lemma_div_multiples_vanish(best as int, tolerance.den as int);
                }
                q as u64
            },
            Goal::Min => {
                assert(best as u128 * tolerance.den as u128 <= 0xffff_ffff_ffff_fffe_0000_0000_0000_0001) by (nonlinear_arith)
                    requires best <= 0xffff_ffff_ffff_ffffu64, tolerance.den <= 0xffff_ffff_ffff_ffffu64;
                let p: u128 = best as u128 * tolerance.den as u128 + (tolerance.num as u128 - 1);
                let q: u128 = p / tolerance.num as u128;
                if q > u64::MAX as u128 {
                    u64::MAX
                } else {
                    q as u64
                }
            },
        }
    }
}

/// The best score keeps its own threshold.
pub proof fn lemma_best_admissible(goal: Goal, best: u64, t: Tolerance)
    requires
        t.wf(),
    ensures
        admissible(goal, best, threshold(goal, best, t)),
{
    if t.num != t.den && t.num != 0 {
        match goal {
            Goal::Max => {
                let p = best as int * t.num as int;
                assert(p <= best as int * t.den as int) by (nonlinear_arith)
                    requires p == best as int * t.num as int, t.num <= t.den;
                lemma_div_is_ordered(p as int, best as int * t.den as int, t.den as int);
                lemma_div_multiples_vanish(best as int, t.den as int);
            },
            Goal::Min => {
                let p = best as int * t.den as int + t.num as int - 1;
                assert(best as int * t.num as int <= p) by (nonlinear_arith)
                    requires p == best as int * t.den as int + t.num - 1, t.num <= t.den, t.num >= 1;
                lemma_div_is_ordered(best as int * t.num as int, p as int, t.num as int);
                lemma_div_multiples_vanish(best as int, t.num as int);
            },
        }
    }
}

/// A better best score gives a threshold that keeps no more than the old one.
pub proof fn lemma_threshold_tightens(goal: Goal, old_best: u64, new_best: u64, t: Tolerance, s: u64)
    requires
        t.wf(),
        better(goal, new_best, old_best),
        admissible(goal, s, threshold(goal, new_best, t)),
    ensures
        admissible(goal, s, threshold(goal, old_best, t)),
{
    if t.num != t.den && t.num != 0 {
        match goal {
            Goal::Max => {
                assert(old_best as int * t.num as int <= new_best as int * t.num as int) by (nonlinear_arith)
                    requires old_best < new_best, t.num >= 0;
                lemma_div_is_ordered(old_best as int * t.num as int, new_best as int * t.num as int, t.den as int);
                assert(new_best as int * t.num as int <= new_best as int * t.den as int) by (nonlinear_arith)
                    requires t.num <= t.den, new_best >= 0;
                lemma_div_is_ordered(new_best as int * t.num as int, new_best as int * t.den as int, t.den as int);
                lemma_div_multiples_vanish(new_best as int, t.den as int);
                assert(threshold(goal, old_best, t) <= threshold(goal, new_best, t));
            },
            Goal::Min => {
                assert(new_best as int * t.den as int <= old_best as int * t.den as int) by (nonlinear_arith)
                    requires new_best < old_best, t.den >= 0;
                lemma_div_is_ordered(
                    new_best as int * t.den as int + t.num - 1,
                    old_best as int * t.den as int + t.num - 1,
                    t.num as int,
                );
                assert(threshold(goal, new_best, t) <= threshold(goal, old_best, t));
            },
        }
    }
}


/// A candidate kept during a search: its score, its number in the
/// enumeration, and its key matrix.
pub type Entry<const C: usize, const R: usize> = (u64, u64, [[u8; C]; R]);

pub open spec fn key_of<const C: usize, const R: usize>(e: Entry<C, R>) -> (u64, u64) {
    (e.0, e.1)
}

/// The order of a record list: better score first, then lower number first.
pub open spec fn before(goal: Goal, a: (u64, u64), b: (u64, u64)) -> bool {
    better(goal, a.0, b.0) || (a.0 == b.0 && a.1 < b.1)
}

/// Each entry strictly precedes the next.
pub open spec fn ordered<const C: usize, const R: usize>(goal: Goal, s: Seq<Entry<C, R>>) -> bool {
    forall|i: int, j: int| 0 <= i < j < s.len() ==> before(goal, key_of(#[trigger] s[i]), key_of(#[trigger] s[j]))
}

pub open spec fn holds_index<const C: usize, const R: usize>(s: Seq<Entry<C, R>>, j: u64) -> bool {
    exists|k: int| 0 <= k < s.len() && (#[trigger] s[k]).1 == j
}

pub open spec fn all_before<const C: usize, const R: usize>(goal: Goal, s: Seq<Entry<C, R>>, x: (u64, u64)) -> bool {
    forall|k: int| 0 <= k < s.len() ==> before(goal, key_of(#[trigger] s[k]), x)
}

pub open spec fn is_full<const C: usize, const R: usize>(capacity: Option<usize>, s: Seq<Entry<C, R>>) -> bool {
    capacity matches Some(c) && s.len() == c
}

/// Candidate `j`, of score `score`, is in the list, or the list is full of
/// candidates that all come before it.
pub open spec fn covers<const C: usize, const R: usize>(
    goal: Goal,
    capacity: Option<usize>,
    s: Seq<Entry<C, R>>,
    j: u64,
    score: u64,
) -> bool {
    holds_index(s, j) || (is_full(capacity, s) && all_before(goal, s, (score, j)))
}

proof fn lemma_before_transitive(goal: Goal, a: (u64, u64), b: (u64, u64), c: (u64, u64))
    requires
        before(goal, a, b),
        before(goal, b, c),
    ensures
        before(goal, a, c),
{
}

proof fn lemma_before_admissible(goal: Goal, a: (u64, u64), b: (u64, u64), bound: u64)
    requires
        before(goal, a, b) || a == b,
        admissible(goal, b.0, bound),
    ensures
        admissible(goal, a.0, bound),
{
}

/// Whether `score` lies on the kept side of `bound`.
pub fn meets(goal: Goal, score: u64, bound: u64) -> (r: bool)
    ensures
        r == admissible(goal, score, bound),
{
    match goal {
        Goal::Max => score >= bound,
        Goal::Min => score <= bound,
    }
}

/// Whether `a` comes before `b` in a record list.
pub fn precedes(goal: Goal, a: (u64, u64), b: (u64, u64)) -> (r: bool)
    ensures
        r == before(goal, a, b),
{
    match goal {
        Goal::Max => a.0 > b.0 || (a.0 == b.0 && a.1 < b.1),
        Goal::Min => a.0 < b.0 || (a.0 == b.0 && a.1 < b.1),
    }
}

/// Removes entries from the end while they fall on the wrong side of `bound`.
fn drop_inadmissible<const C: usize, const R: usize>(entries: &mut Vec<Entry<C, R>>, goal: Goal, bound: u64)
    requires
        ordered(goal, old(entries)@),
    ensures
        final(entries)@.len() <= old(entries)@.len(),
        final(entries)@ == old(entries)@.take(final(entries)@.len() as int),
        forall|k: int| 0 <= k < final(entries)@.len() ==> admissible(goal, (#[trigger] final(entries)@[k]).0, bound),
        final(entries)@.len() < old(entries)@.len() ==> !admissible(goal, old(entries)@[final(entries)@.len() as int].0, bound),
{
    while entries.len() > 0 && !meets(goal, entries[entries.len() - 1].0, bound)
        invariant
            entries@.len() <= old(entries)@.len(),
            entries@ == old(entries)@.take(entries@.len() as int),
            entries@.len() < old(entries)@.len() ==> !admissible(goal, old(entries)@[entries@.len() as int].0, bound),
        decreases entries.len(),
    {
        entries.pop();
        assert(entries@ =~= old(entries)@.take(entries@.len() as int));
    }
    proof {
        let s = entries@;
        assert forall|k: int| 0 <= k < s.len() implies admissible(goal, (#[trigger] s[k]).0, bound) by {
            let last = s.len() - 1;
            assert(s[k] == old(entries)@[k]);
            assert(s[last] == old(entries)@[last]);
            if k < last {
                lemma_before_admissible(goal, key_of(s[k]), key_of(s[last]), bound);
            }
        }
    }
}

/// Inserts an entry where the order puts it.
fn insert_sorted<const C: usize, const R: usize>(
    entries: &mut Vec<Entry<C, R>>,
    goal: Goal,
    score: u64,
    index: u64,
    matrix: [[u8; C]; R],
)
    requires
        ordered(goal, old(entries)@),
        forall|k: int| 0 <= k < old(entries)@.len() ==> key_of(#[trigger] old(entries)@[k]) != (score, index),
    ensures
        exists|p: int| 0 <= p <= old(entries)@.len() && final(entries)@ == old(entries)@.insert(p, (score, index, matrix)),
        ordered(goal, final(entries)@),
{
    let mut p: usize = 0;
    while p < entries.len() && precedes(goal, (entries[p].0, entries[p].1), (score, index))
        invariant
            p <= entries@.len(),
            entries@ == old(entries)@,
            forall|k: int| 0 <= k < p ==> before(goal, key_of(#[trigger] entries@[k]), (score, index)),
        decreases entries.len() - p,
    {
        p = p + 1;
    }
    let ghost e = entries@;
    let x = (score, index, matrix);
    proof {
        if p < e.len() {
            assert(key_of(e[p as int]) != (score, index));
            assert(before(goal, (score, index), key_of(e[p as int])));
        }
    }
    entries.insert(p, x);
    proof {
        let f = entries@;
        assert(f =~= e.insert(p as int, x));
        assert forall|i: int, j: int| 0 <= i < j < f.len() implies before(goal, key_of(#[trigger] f[i]), key_of(#[trigger] f[j])) by {
            if j < p {
                assert(f[i] == e[i] && f[j] == e[j]);
            } else if j == p {
                assert(f[i] == e[i]);
            } else if i < p {
                assert(f[i] == e[i] && f[j] == e[j - 1]);
                if p < j - 1 {
                    lemma_before_transitive(goal, key_of(e[i]), key_of(e[p as int]), key_of(e[j - 1]));
                }
            } else if i == p {
                assert(f[j] == e[j - 1]);
                if p < j - 1 {
                    lemma_before_transitive(goal, (score, index), key_of(e[p as int]), key_of(e[j - 1]));
                }
            } else {
                assert(f[i] == e[i - 1] && f[j] == e[j - 1]);
            }
        }
    }
}

/// Keeps at most `capacity` entries, the first ones.
fn truncate_to<const C: usize, const R: usize>(entries: &mut Vec<Entry<C, R>>, capacity: Option<usize>)
    ensures
        final(entries)@ == match capacity {
            Some(c) => if old(entries)@.len() > c {
                old(entries)@.take(c as int)
            } else {
                old(entries)@
            },
            None => old(entries)@,
        },
{
    if let Some(c) = capacity {
        if entries.len() > c {
            entries.truncate(c);
        }
    }
}

/// A removal from the end that only took entries off the wrong side of the
/// new bound leaves every candidate that meets it covered.
proof fn lemma_prune_covers<const C: usize, const R: usize>(
    goal: Goal,
    capacity: Option<usize>,
    e: Seq<Entry<C, R>>,
    n: int,
    bound: u64,
    j: u64,
    sj: u64,
)
    requires
        ordered(goal, e),
        0 <= n <= e.len(),
        n < e.len() ==> !admissible(goal, e[n].0, bound),
        covers(goal, capacity, e, j, sj),
        admissible(goal, sj, bound),
        forall|k: int| 0 <= k < e.len() && (#[trigger] e[k]).1 == j ==> e[k].0 == sj,
    ensures
        covers(goal, capacity, e.take(n), j, sj),
{
    let t = e.take(n);
    if holds_index(e, j) {
        let k = choose|k: int| 0 <= k < e.len() && (#[trigger] e[k]).1 == j;
        if k < n {
            assert(t[k] == e[k]);
        } else {
            if k > n {
                lemma_before_admissible(goal, key_of(e[n]), key_of(e[k]), bound);
            }
        }
    } else {
        if n < e.len() {
            lemma_before_admissible(goal, key_of(e[n]), (sj, j), bound);
        } else {
            assert(t =~= e);
        }
    }
}

/// Inserting an entry where the order puts it and cutting the list to its
/// capacity leaves every covered candidate covered, the new one included.
proof fn lemma_insert_covers<const C: usize, const R: usize>(
    goal: Goal,
    capacity: Option<usize>,
    e: Seq<Entry<C, R>>,
    p: int,
    x: Entry<C, R>,
    j: u64,
    sj: u64,
)
    requires
        0 <= p <= e.len(),
        ordered(goal, e.insert(p, x)),
        capacity matches Some(c) ==> e.len() <= c,
        covers(goal, capacity, e, j, sj) || (j == x.1 && sj == x.0),
        forall|k: int| 0 <= k < e.len() && (#[trigger] e[k]).1 == j ==> e[k].0 == sj,
    ensures
        covers(
            goal,
            capacity,
            match capacity {
                Some(c) => if e.insert(p, x).len() > c {
                    e.insert(p, x).take(c as int)
                } else {
                    e.insert(p, x)
                },
                None => e.insert(p, x),
            },
            j,
            sj,
        ),
{
    let f = e.insert(p, x);
    let g = match capacity {
        Some(c) => if f.len() > c {
            f.take(c as int)
        } else {
            f
        },
        None => f,
    };
    assert(forall|m: int| 0 <= m < g.len() ==> g[m] == f[m]);
    // the place of candidate `j` in `f`, if it is there
    if j == x.1 && sj == x.0 {
        if p < g.len() {
            assert(g[p] == x);
        } else {
            assert forall|m: int| 0 <= m < g.len() implies before(goal, key_of(#[trigger] g[m]), (sj, j)) by {
                assert(f[p] == x);
            }
        }
    } else if holds_index(e, j) {
        let k = choose|k: int| 0 <= k < e.len() && (#[trigger] e[k]).1 == j;
        let q = if k < p { k } else { k + 1 };
        assert(f[q] == e[k]);
        if q < g.len() {
            assert(g[q] == e[k]);
        } else {
            assert forall|m: int| 0 <= m < g.len() implies before(goal, key_of(#[trigger] g[m]), (sj, j)) by {
                assert(g[m] == f[m]);
            }
        }
    } else {
        let c = capacity->Some_0;
        assert(g.len() == c);
        assert forall|m: int| 0 <= m < g.len() implies before(goal, key_of(#[trigger] g[m]), (sj, j)) by {
            if m < p {
                assert(f[m] == e[m]);
            } else if m == p {
                assert(f[c as int] == e[c - 1]);
                lemma_before_transitive(goal, key_of(f[m]), key_of(f[c as int]), (sj, j));
            } else {
                assert(f[m] == e[m - 1]);
            }
        }
    }
}

/// The candidates of a search that are still in the running, best first, with
/// the best score met so far.
pub struct RecordSet<const C: usize, const R: usize> {
    pub goal: Goal,
    pub tolerance: Tolerance,
    pub capacity: Option<usize>,
    pub entries: Vec<Entry<C, R>>,
    pub best: u64,
    pub threshold: u64,
    /// The score of every candidate considered, by number.
    pub seen: Ghost<Map<u64, u64>>,
}

impl<const C: usize, const R: usize> RecordSet<C, R> {
    pub open spec fn wf(self) -> bool {
        &&& self.tolerance.wf()
        &&& self.threshold == threshold(self.goal, self.best, self.tolerance)
        &&& ordered(self.goal, self.entries@)
        &&& self.capacity matches Some(c) ==> self.entries@.len() <= c
        &&& forall|k: int|
            0 <= k < self.entries@.len() ==> admissible(
                self.goal,
                (#[trigger] self.entries@[k]).0,
                self.threshold,
            ) && self.seen@.contains_key(self.entries@[k].1) && self.seen@[self.entries@[k].1]
                == self.entries@[k].0
        &&& forall|j: u64| #[trigger] self.seen@.contains_key(j) ==> !better(self.goal, self.seen@[j], self.best)
        &&& self.best == initial_score(self.goal) || exists|j: u64|
            #[trigger] self.seen@.contains_key(j) && self.seen@[j] == self.best
        &&& forall|j: u64|
            #[trigger] self.seen@.contains_key(j) && admissible(self.goal, self.seen@[j], self.threshold)
                ==> covers(self.goal, self.capacity, self.entries@, j, self.seen@[j])
    }

    /// An empty set, before any candidate.
    pub fn new(goal: Goal, tolerance: Tolerance, capacity: Option<usize>) -> (s: Self)
        requires
            tolerance.wf(),
        ensures
            s.wf(),
            s.goal == goal,
            s.tolerance == tolerance,
            s.capacity == capacity,
            s.entries@.len() == 0,
            s.best == initial_score(goal),
            s.seen@ == Map::<u64, u64>::empty(),
    {
        let best = match goal {
            Goal::Max => 0,
            Goal::Min => u64::MAX,
        };
        RecordSet {
            goal,
            tolerance,
            capacity,
            entries: Vec::new(),
            best,
            threshold: calculate_threshold(goal, best, tolerance),
            seen: Ghost(Map::empty()),
        }
    }

    /// Takes candidate `index`, of score `score`, into account: a better score
    /// becomes the best and tightens the threshold, dropping what no longer
    /// meets it; a score that meets the threshold is kept in order, and the
    /// list is cut to its capacity.
    pub fn consider(&mut self, matrix: [[u8; C]; R], score: u64, index: u64)
        requires
            old(self).wf(),
            !old(self).seen@.contains_key(index),
        ensures
            final(self).wf(),
            final(self).goal == old(self).goal,
            final(self).tolerance == old(self).tolerance,
            final(self).capacity == old(self).capacity,
            final(self).seen@ == old(self).seen@.insert(index, score),
            final(self).best == if better(old(self).goal, score, old(self).best) {
                score
            } else {
                old(self).best
            },
            forall|k: int|
                0 <= k < final(self).entries@.len() ==> old(self).entries@.contains(
                    #[trigger] final(self).entries@[k],
                ) || final(self).entries@[k] == (score, index, matrix),
    {
        let ghost e0 = self.entries@;
        let ghost seen0 = self.seen@;
        let improves = match self.goal {
            Goal::Max => score > self.best,
            Goal::Min => score < self.best,
        };
        if improves {
            let ghost best0 = self.best;
            self.best = score;
            self.threshold = calculate_threshold(self.goal, score, self.tolerance);
            drop_inadmissible(&mut self.entries, self.goal, self.threshold);
            proof {
                let e1 = self.entries@;
                assert forall|j: u64|
                    #[trigger] seen0.contains_key(j) && admissible(self.goal, seen0[j], self.threshold)
                        implies covers(self.goal, self.capacity, e1, j, seen0[j]) by {
                    lemma_threshold_tightens(self.goal, best0, score, self.tolerance, seen0[j]);
                    assert forall|k: int| 0 <= k < e0.len() && (#[trigger] e0[k]).1 == j implies e0[k].0 == seen0[j] by {
                    }
                    lemma_prune_covers(self.goal, self.capacity, e0, e1.len() as int, self.threshold, j, seen0[j]);
                }
            }
        }
        let ghost e1 = self.entries@;
        let admits = match self.goal {
            Goal::Max => score >= self.threshold,
            Goal::Min => score <= self.threshold,
        };
        if admits {
            proof {
                assert forall|k: int| 0 <= k < e1.len() implies key_of(#[trigger] e1[k]) != (score, index) by {
                    assert(seen0.contains_key(e1[k].1));
                }
            }
            insert_sorted(&mut self.entries, self.goal, score, index, matrix);
            let ghost e2 = self.entries@;
            let ghost p = choose|p: int| 0 <= p <= e1.len() && e2 == e1.insert(p, (score, index, matrix));
            truncate_to(&mut self.entries, self.capacity);
            proof {
                let e3 = self.entries@;
                let x = (score, index, matrix);
                assert forall|j: u64|
                    #[trigger] seen0.insert(index, score).contains_key(j) && admissible(
                        self.goal,
                        seen0.insert(index, score)[j],
                        self.threshold,
                    ) implies covers(self.goal, self.capacity, e3, j, seen0.insert(index, score)[j]) by {
                    let sj = seen0.insert(index, score)[j];
                    assert forall|k: int| 0 <= k < e1.len() && (#[trigger] e1[k]).1 == j implies e1[k].0 == sj by {
                        assert(seen0.contains_key(e1[k].1));
                    }
                    lemma_insert_covers(self.goal, self.capacity, e1, p, x, j, sj);
                }
                assert forall|k: int| 0 <= k < e3.len() implies admissible(
                    self.goal,
                    (#[trigger] e3[k]).0,
                    self.threshold,
                ) && seen0.insert(index, score).contains_key(e3[k].1) && seen0.insert(index, score)[e3[k].1]
                    == e3[k].0 && (e0.contains(e3[k]) || e3[k] == x) by {
                    assert(e3[k] == e2[k]);
                    if k < p {
                        assert(e2[k] == e1[k]);
                    } else if k > p {
                        assert(e2[k] == e1[k - 1]);
                    }
                    if e3[k] != x {
                        let k1 = if k < p { k } else { k - 1 };
                        assert(e1[k1] == e0[k1]);
                        assert(e0.contains(e3[k]));
                    }
                }
            }
        } else {
            proof {
                assert forall|k: int| 0 <= k < e1.len() implies e0.contains(#[trigger] e1[k]) by {
                    assert(e1[k] == e0[k]);
                }
            }
        }
        self.seen = Ghost(self.seen@.insert(index, score));
        proof {
            if improves {
                assert(self.seen@.contains_key(index) && self.seen@[index] == self.best);
            } else if self.best != initial_score(self.goal) {
                let j = choose|j: u64| #[trigger] seen0.contains_key(j) && seen0[j] == self.best;
                assert(self.seen@.contains_key(j) && self.seen@[j] == self.best);
            }
        }
    }
}


/// One of the three substitution regions: a pool of bytes, and the positions
/// of the key matrix that they are placed at, one byte each.
pub struct Region {
    pub pool: Vec<u8>,
    pub positions: Vec<(usize, usize)>,
}

/// Why a search cannot start.
#[derive(Clone, Copy, Debug, PartialEq, Eq, Structural)]
pub enum SearchError {
    /// Region `region` has `markers` positions but a pool of `pool` bytes.
    PoolLengthMismatch { region: u8, markers: usize, pool: usize },
}

impl Region {
    /// The pool fills the positions; or it is empty and partial permutation
    /// is allowed, and the region is left as it is.
    pub open spec fn fits_pool(&self, permit_partial: bool) -> bool {
        self.pool@.len() == self.positions@.len() || (permit_partial && self.pool@.len() == 0)
    }

    /// Every position lies on a matrix of `rows × columns`.
    pub open spec fn on_matrix(&self, rows: nat, columns: nat) -> bool {
        forall|k: int| 0 <= k < self.positions@.len() ==> (#[trigger] self.positions@[k]).0 < rows
            && self.positions@[k].1 < columns
    }

    /// The number of permutations of the pool.
    pub open spec fn size(&self) -> nat {
        fact(self.pool@.len())
    }
}

/// The number of candidates of a search: the product of the three factorials.
pub open spec fn search_space(r1: &Region, r2: &Region, r3: &Region) -> nat {
    r1.size() * r2.size() * r3.size()
}

/// The matrix with `perm[k]` written at `positions[k]`, for each `k < n`.
pub open spec fn substitute(m: Seq<Seq<u8>>, perm: Seq<u8>, positions: Seq<(usize, usize)>, n: nat) -> Seq<Seq<u8>>
    decreases n,
{
    if n == 0 {
        m
    } else {
        let m1 = substitute(m, perm, positions, (n - 1) as nat);
        let (r, c) = positions[n - 1];
        m1.update(r as int, m1[r as int].update(c as int, perm[n - 1]))
    }
}

/// Candidate `i` of a search: the base matrix with the three regions filled
/// by permutations `i / (N₂·N₃)`, `(i / N₃) mod N₂` and `i mod N₃` of their pools.
pub open spec fn candidate(base: Seq<Seq<u8>>, r1: &Region, r2: &Region, r3: &Region, i: nat) -> Seq<Seq<u8>> {
    let i1 = i / (r2.size() * r3.size());
    let i2 = (i / r3.size()) % r2.size();
    let i3 = i % r3.size();
    let m1 = substitute(base, decode(i1, r1.pool@), r1.positions@, r1.pool@.len());
    let m2 = substitute(m1, decode(i2, r2.pool@), r2.positions@, r2.pool@.len());
    substitute(m2, decode(i3, r3.pool@), r3.positions@, r3.pool@.len())
}

/// The best of the initial score and the scores of the first `n` candidates.
pub open spec fn best_upto(goal: Goal, n: nat, score: spec_fn(nat) -> u64) -> u64
    decreases n,
{
    if n == 0 {
        initial_score(goal)
    } else {
        let b = best_upto(goal, (n - 1) as nat, score);
        if better(goal, score((n - 1) as nat), b) {
            score((n - 1) as nat)
        } else {
            b
        }
    }
}

/// Writes `perm[k]` at `positions[k]` for each `k`.
fn substitute_in<const C: usize, const R: usize>(m: &mut [[u8; C]; R], perm: &Vec<u8>, positions: &Vec<(usize, usize)>)
    requires
        perm@.len() <= positions@.len(),
        forall|k: int| 0 <= k < positions@.len() ==> (#[trigger] positions@[k]).0 < R && positions@[k].1 < C,
    ensures
        cells_of(*final(m)) == substitute(cells_of(*old(m)), perm@, positions@, perm@.len()),
{
    let mut k: usize = 0;
    while k < perm.len()
        invariant
            k <= perm@.len() <= positions@.len(),
            forall|k: int| 0 <= k < positions@.len() ==> (#[trigger] positions@[k]).0 < R && positions@[k].1 < C,
            cells_of(*m) == substitute(cells_of(*old(m)), perm@, positions@, k as nat),
        decreases perm.len() - k,
    {
        let (r, c) = positions[k];
        assert(positions@[k as int].0 < R && positions@[k as int].1 < C);
        let ghost before = cells_of(*m);
        m[r][c] = perm[k];
        k = k + 1;
        assert(cells_of(*m) =~= before.update(r as int, before[r as int].update(c as int, perm@[k - 1])));
    }
}

/// Candidate `index` of a search: see [`candidate`].
pub fn materialize<const C: usize, const R: usize>(
    matrix: &[[u8; C]; R],
    region1: &Region,
    region2: &Region,
    region3: &Region,
    index: u64,
) -> (m: [[u8; C]; R])
    requires
        region1.pool@.len() <= region1.positions@.len(),
        region2.pool@.len() <= region2.positions@.len(),
        region3.pool@.len() <= region3.positions@.len(),
        region1.on_matrix(R as nat, C as nat),
        region2.on_matrix(R as nat, C as nat),
        region3.on_matrix(R as nat, C as nat),
        index < search_space(region1, region2, region3),
    ensures
        cells_of(m) == candidate(cells_of(*matrix), region1, region2, region3, index as nat),
{
    let ghost (n1, n2, n3) = (region1.size(), region2.size(), region3.size());
    proof {
        lemma_fact_positive(region1.pool@.len());
        lemma_fact_positive(region2.pool@.len());
        lemma_fact_positive(region3.pool@.len());
        assert(n2 * n3 >= n2 && n2 * n3 >= n3 && n2 * n3 >= 1) by (nonlinear_arith)
            requires n2 >= 1, n3 >= 1;
    }
    let total2 = checked_factorial(region2.pool.len() as u64);
    let total3 = checked_factorial(region3.pool.len() as u64);
    let total23 = match (total2, total3) {
        (Some(a), Some(b)) => a.checked_mul(b),
        _ => None,
    };
    let index1 = div_mod_capped(index, total23, Ghost(n2 * n3)).0;
    let (q3, index3) = div_mod_capped(index, total3, Ghost(n3));
    let index2 = div_mod_capped(q3, total2, Ghost(n2)).1;
    proof {
        lemma_index_parts(index as nat, n1, n2, n3);
    }
    let p1 = index_to_permutation(index1, region1.pool.as_slice());
    let p2 = index_to_permutation(index2, region2.pool.as_slice());
    let p3 = index_to_permutation(index3, region3.pool.as_slice());
    proof {
        lemma_decode_permutes(index1 as nat, region1.pool@);
        lemma_decode_permutes(index2 as nat, region2.pool@);
        lemma_decode_permutes(index3 as nat, region3.pool@);
    }
    let mut m = *matrix;
    substitute_in(&mut m, &p1, &region1.positions);
    substitute_in(&mut m, &p2, &region2.positions);
    substitute_in(&mut m, &p3, &region3.positions);
    m
}

/// `x / d` and `x % d`, where `d` is given as a `u64` or, as `None`, is
/// beyond `u64` and so above `x`.
fn div_mod_capped(x: u64, d: Option<u64>, Ghost(dv): Ghost<nat>) -> (r: (u64, u64))
    requires
        dv >= 1,
        d matches Some(v) ==> v == dv,
        d is None ==> dv > u64::MAX,
    ensures
        r.0 == (x as nat) / dv,
        r.1 == (x as nat) % dv,
{
    match d {
        Some(v) => (x / v, x % v),
        None => {
            proof {
                vstd::arithmetic::div_mod::lemma_fundamental_div_mod_converse(x as int, dv as int, 0, x as int);
            }
            (0, x)
        },
    }
}

proof fn lemma_index_parts(i: nat, n1: nat, n2: nat, n3: nat)
    requires
        n1 >= 1,
        n2 >= 1,
        n3 >= 1,
        i < n1 * n2 * n3,
    ensures
        i / (n2 * n3) < n1,
        (i / n3) % n2 < n2,
        i % n3 < n3,
{
    assert(n2 * n3 >= 1) by (nonlinear_arith)
        requires n2 >= 1, n3 >= 1;
    if i / (n2 * n3) >= n1 {
        vstd::arithmetic::div_mod::lemma_fundamental_div_mod(i as int, (n2 * n3) as int);
        assert((i / (n2 * n3)) * (n2 * n3) >= n1 * (n2 * n3)) by (nonlinear_arith)
            requires i / (n2 * n3) >= n1, n2 * n3 >= 1;
        assert(n1 * (n2 * n3) == n1 * n2 * n3) by (nonlinear_arith);
    }
}


/// The score of each candidate of a search.
pub open spec fn candidate_score<const C: usize, const R: usize>(
    matrix: [[u8; C]; R],
    r1: &Region,
    r2: &Region,
    r3: &Region,
    scorer: &Scorer,
    weight: Weight,
) -> spec_fn(nat) -> u64 {
    |j: nat| scorer.spec_score(weight, candidate(cells_of(matrix), r1, r2, r3, j))
}

/// `l` is the record list of the first `n` candidates: in order, each a
/// candidate with its score and number, each meeting the threshold of the best
/// score, at most `capacity` long, and holding every candidate that meets the
/// threshold unless it is full of candidates that all come before it.
pub open spec fn is_record_list<const C: usize, const R: usize>(
    goal: Goal,
    tolerance: Tolerance,
    capacity: Option<usize>,
    matrix: [[u8; C]; R],
    r1: &Region,
    r2: &Region,
    r3: &Region,
    score: spec_fn(nat) -> u64,
    n: nat,
    l: Seq<Entry<C, R>>,
) -> bool {
    let t = threshold(goal, best_upto(goal, n, score), tolerance);
    &&& ordered(goal, l)
    &&& capacity matches Some(c) ==> l.len() <= c
    &&& forall|k: int|
        0 <= k < l.len() ==> {
            let e = #[trigger] l[k];
            &&& e.1 < n
            &&& cells_of(e.2) == candidate(cells_of(matrix), r1, r2, r3, e.1 as nat)
            &&& e.0 == score(e.1 as nat)
            &&& admissible(goal, e.0, t)
        }
    &&& forall|j: u64|
        j < n && admissible(goal, #[trigger] score(j as nat), t) ==> covers(goal, capacity, l, j, score(j as nat))
}

/// A region with an empty pool adds a factor of one to the space and leaves
/// its positions as they are; with all three empty the only candidate is the
/// base matrix.
pub proof fn lemma_empty_regions(base: Seq<Seq<u8>>, r1: &Region, r2: &Region, r3: &Region)
    requires
        r1.pool@.len() == 0,
        r2.pool@.len() == 0,
        r3.pool@.len() == 0,
    ensures
        search_space(r1, r2, r3) == 1,
        candidate(base, r1, r2, r3, 0) == base,
{
    assert(fact(0) == 1);
    assert(r1.size() == 1 && r2.size() == 1 && r3.size() == 1);
    let m1 = substitute(base, decode(0, r1.pool@), r1.positions@, 0);
    assert(m1 == base);
    let m2 = substitute(m1, decode(0, r2.pool@), r2.positions@, 0);
    assert(m2 == base);
    assert(substitute(m2, decode(0, r3.pool@), r3.positions@, 0) == base);
}

/// With a single candidate, as when every pool is empty, a record list with
/// room for one entry holds exactly that candidate.
pub proof fn lemma_single_candidate<const C: usize, const R: usize>(
    goal: Goal,
    tolerance: Tolerance,
    capacity: Option<usize>,
    matrix: [[u8; C]; R],
    r1: &Region,
    r2: &Region,
    r3: &Region,
    score: spec_fn(nat) -> u64,
    l: Seq<Entry<C, R>>,
)
    requires
        tolerance.wf(),
        capacity matches Some(c) ==> c >= 1,
        is_record_list(goal, tolerance, capacity, matrix, r1, r2, r3, score, 1, l),
    ensures
        l.len() == 1,
        l[0].1 == 0,
        l[0].0 == score(0),
        cells_of(l[0].2) == candidate(cells_of(matrix), r1, r2, r3, 0),
{
    let s0 = score(0);
    assert(best_upto(goal, 0, score) == initial_score(goal));
    assert(best_upto(goal, 1, score) == s0) by {
        match goal {
            Goal::Max => {},
            Goal::Min => {},
        }
    }
    lemma_best_admissible(goal, s0, tolerance);
    assert(covers(goal, capacity, l, 0, s0));
    if !holds_index(l, 0) {
        assert(l.len() >= 1);
        assert(l[0].1 < 1);
    }
    let k = choose|k: int| 0 <= k < l.len() && (#[trigger] l[k]).1 == 0;
    if l.len() > 1 {
        let other = if k == 0 { 1int } else { 0int };
        assert(l[other].1 < 1);
        assert(key_of(l[other]) == key_of(l[k]));
        if other < k {
            assert(before(goal, key_of(l[other]), key_of(l[k])));
        } else {
            assert(before(goal, key_of(l[k]), key_of(l[other])));
        }
    }
}

/// At tolerance 0 and without a capacity, a record list holds every
/// candidate.
pub proof fn lemma_zero_tolerance_keeps_all<const C: usize, const R: usize>(
    goal: Goal,
    tolerance: Tolerance,
    matrix: [[u8; C]; R],
    r1: &Region,
    r2: &Region,
    r3: &Region,
    score: spec_fn(nat) -> u64,
    n: nat,
    l: Seq<Entry<C, R>>,
    j: u64,
)
    requires
        tolerance.wf(),
        tolerance.num == 0,
        is_record_list(goal, tolerance, None, matrix, r1, r2, r3, score, n, l),
        j < n,
    ensures
        holds_index(l, j),
{
    lemma_zero_tolerance_admits_all(goal, best_upto(goal, n, score), tolerance, score(j as nat));
}

/// The positions lie on the matrix.
pub open spec fn positions_on(m: Seq<Seq<u8>>, positions: Seq<(usize, usize)>, n: nat) -> bool {
    forall|k: int| 0 <= k < n ==> (#[trigger] positions[k]).0 < m.len() && positions[k].1 < m[positions[k].0 as int].len()
}

proof fn lemma_substitute_shape(m: Seq<Seq<u8>>, perm: Seq<u8>, positions: Seq<(usize, usize)>, n: nat)
    requires
        n <= positions.len(),
        positions_on(m, positions, n),
    ensures
        substitute(m, perm, positions, n).len() == m.len(),
        forall|i: int| 0 <= i < m.len() ==> (#[trigger] substitute(m, perm, positions, n)[i]).len() == m[i].len(),
    decreases n,
{
    if n > 0 {
        lemma_substitute_shape(m, perm, positions, (n - 1) as nat);
        let m1 = substitute(m, perm, positions, (n - 1) as nat);
        assert(positions[n - 1].0 < m.len());
        assert forall|i: int| 0 <= i < m.len() implies (#[trigger] substitute(m, perm, positions, n)[i]).len() == m[i].len() by {
            assert(m1[i].len() == m[i].len());
        }
    }
}

/// Writing a permutation at some positions leaves every other cell as it was.
pub proof fn lemma_substitute_elsewhere(m: Seq<Seq<u8>>, perm: Seq<u8>, positions: Seq<(usize, usize)>, n: nat, r: int, c: int)
    requires
        n <= positions.len(),
        positions_on(m, positions, n),
        forall|k: int| 0 <= k < n ==> !((#[trigger] positions[k]).0 == r && positions[k].1 == c),
        0 <= r < m.len(),
        0 <= c < m[r].len(),
    ensures
        substitute(m, perm, positions, n)[r][c] == m[r][c],
    decreases n,
{
    if n > 0 {
        lemma_substitute_elsewhere(m, perm, positions, (n - 1) as nat, r, c);
        lemma_substitute_shape(m, perm, positions, (n - 1) as nat);
        assert(!(positions[n - 1].0 == r && positions[n - 1].1 == c));
    }
}

/// Writing a permutation at distinct positions puts its `k`-th element at
/// the `k`-th position.
pub proof fn lemma_substitute_at(m: Seq<Seq<u8>>, perm: Seq<u8>, positions: Seq<(usize, usize)>, n: nat, k: int)
    requires
        n <= positions.len(),
        0 <= k < n,
        forall|a: int, b: int| 0 <= a < b < n ==> positions[a] != positions[b],
        positions_on(m, positions, n),
    ensures
        substitute(m, perm, positions, n)[positions[k].0 as int][positions[k].1 as int] == perm[k],
    decreases n,
{
    lemma_substitute_shape(m, perm, positions, (n - 1) as nat);
    assert(positions[n - 1].0 < m.len());
    assert(positions[k].0 < m.len());
    if k < n - 1 {
        lemma_substitute_at(m, perm, positions, (n - 1) as nat, k);
        assert(positions[k] != positions[n - 1]);
    }
}

/// No candidate among the first `n` scores better than their best.
pub proof fn lemma_best_upto_is_best(goal: Goal, n: nat, score: spec_fn(nat) -> u64, j: nat)
    requires
        j < n,
    ensures
        !better(goal, score(j), best_upto(goal, n, score)),
    decreases n,
{
    if j < n - 1 {
        lemma_best_upto_is_best(goal, (n - 1) as nat, score, j);
    }
}

/// At tolerance 1 a record list holds only candidates of the best score.
pub proof fn lemma_full_tolerance_keeps_best<const C: usize, const R: usize>(
    goal: Goal,
    tolerance: Tolerance,
    capacity: Option<usize>,
    matrix: [[u8; C]; R],
    r1: &Region,
    r2: &Region,
    r3: &Region,
    score: spec_fn(nat) -> u64,
    n: nat,
    l: Seq<Entry<C, R>>,
)
    requires
        tolerance.wf(),
        tolerance.num == tolerance.den,
        is_record_list(goal, tolerance, capacity, matrix, r1, r2, r3, score, n, l),
    ensures
        forall|k: int| 0 <= k < l.len() ==> (#[trigger] l[k]).0 == best_upto(goal, n, score),
{
    assert forall|k: int| 0 <= k < l.len() implies (#[trigger] l[k]).0 == best_upto(goal, n, score) by {
        lemma_best_upto_is_best(goal, n, score, l[k].1 as nat);
    }
}

/// At tolerance 0 every candidate meets the threshold: when maximising it is
/// 0, when minimising `u64::MAX`.
pub proof fn lemma_zero_tolerance_admits_all(goal: Goal, best: u64, tolerance: Tolerance, s: u64)
    requires
        tolerance.wf(),
        tolerance.num == 0,
    ensures
        threshold(goal, best, tolerance) == initial_score(goal),
        admissible(goal, s, threshold(goal, best, tolerance)),
{
}

/// Two record lists of the same first `n` candidates, under the same goal,
/// tolerance and capacity, are the same list: what a search keeps does not
/// depend on the order in which the work was shared out, so a parallel search
/// that keeps a record list keeps the sequential one.
pub proof fn lemma_record_list_unique<const C: usize, const R: usize>(
    goal: Goal,
    tolerance: Tolerance,
    capacity: Option<usize>,
    matrix: [[u8; C]; R],
    r1: &Region,
    r2: &Region,
    r3: &Region,
    score: spec_fn(nat) -> u64,
    n: nat,
    l1: Seq<Entry<C, R>>,
    l2: Seq<Entry<C, R>>,
)
    requires
        is_record_list(goal, tolerance, capacity, matrix, r1, r2, r3, score, n, l1),
        is_record_list(goal, tolerance, capacity, matrix, r1, r2, r3, score, n, l2),
    ensures
        l1.len() == l2.len(),
        forall|k: int| 0 <= k < l1.len() ==> key_of(#[trigger] l1[k]) == key_of(l2[k]) && cells_of(l1[k].2) == cells_of(l2[k].2),
{
    let m = if l1.len() < l2.len() { l1.len() } else { l2.len() };
    lemma_prefix_agrees(goal, tolerance, capacity, matrix, r1, r2, r3, score, n, l1, l2, m as int);
    lemma_longer_list(goal, tolerance, capacity, matrix, r1, r2, r3, score, n, l1, l2);
    lemma_longer_list(goal, tolerance, capacity, matrix, r1, r2, r3, score, n, l2, l1);
    assert forall|k: int| 0 <= k < l1.len() implies key_of(#[trigger] l1[k]) == key_of(l2[k]) && cells_of(l1[k].2) == cells_of(l2[k].2) by {
        assert(key_of(l1[k]) == key_of(l2[k]));
    }
}

/// Two record lists agree on their first `k` entries.
proof fn lemma_prefix_agrees<const C: usize, const R: usize>(
    goal: Goal,
    tolerance: Tolerance,
    capacity: Option<usize>,
    matrix: [[u8; C]; R],
    r1: &Region,
    r2: &Region,
    r3: &Region,
    score: spec_fn(nat) -> u64,
    n: nat,
    l1: Seq<Entry<C, R>>,
    l2: Seq<Entry<C, R>>,
    k: int,
)
    requires
        is_record_list(goal, tolerance, capacity, matrix, r1, r2, r3, score, n, l1),
        is_record_list(goal, tolerance, capacity, matrix, r1, r2, r3, score, n, l2),
        0 <= k <= l1.len(),
        k <= l2.len(),
    ensures
        forall|q: int| 0 <= q < k ==> key_of(#[trigger] l1[q]) == key_of(l2[q]),
    decreases k,
{
    if k > 0 {
        lemma_prefix_agrees(goal, tolerance, capacity, matrix, r1, r2, r3, score, n, l1, l2, k - 1);
        lemma_first_difference(goal, tolerance, capacity, matrix, r1, r2, r3, score, n, l1, l2, k - 1);
        lemma_first_difference(goal, tolerance, capacity, matrix, r1, r2, r3, score, n, l2, l1, k - 1);
    }
}

/// In a record list, an entry's key is its number's score and number.
proof fn lemma_entry_key<const C: usize, const R: usize>(
    goal: Goal,
    tolerance: Tolerance,
    capacity: Option<usize>,
    matrix: [[u8; C]; R],
    r1: &Region,
    r2: &Region,
    r3: &Region,
    score: spec_fn(nat) -> u64,
    n: nat,
    l: Seq<Entry<C, R>>,
    q: int,
)
    requires
        is_record_list(goal, tolerance, capacity, matrix, r1, r2, r3, score, n, l),
        0 <= q < l.len(),
    ensures
        key_of(l[q]) == (score(l[q].1 as nat), l[q].1),
        l[q].1 < n,
        admissible(goal, score(l[q].1 as nat), threshold(goal, best_upto(goal, n, score), tolerance)),
{
}

/// Two lists that agree before place `k` and differ at `k`, the first one's
/// entry coming first in the order, cannot both be record lists.
proof fn lemma_first_difference<const C: usize, const R: usize>(
    goal: Goal,
    tolerance: Tolerance,
    capacity: Option<usize>,
    matrix: [[u8; C]; R],
    r1: &Region,
    r2: &Region,
    r3: &Region,
    score: spec_fn(nat) -> u64,
    n: nat,
    l1: Seq<Entry<C, R>>,
    l2: Seq<Entry<C, R>>,
    k: int,
)
    requires
        is_record_list(goal, tolerance, capacity, matrix, r1, r2, r3, score, n, l1),
        is_record_list(goal, tolerance, capacity, matrix, r1, r2, r3, score, n, l2),
        0 <= k < l1.len(),
        k < l2.len(),
        forall|q: int| 0 <= q < k ==> key_of(#[trigger] l1[q]) == key_of(l2[q]),
    ensures
        !before(goal, key_of(l1[k]), key_of(l2[k])),
{
    if !before(goal, key_of(l1[k]), key_of(l2[k])) {
        return;
    }
    let a = l1[k];
    let j = a.1;
    lemma_entry_key(goal, tolerance, capacity, matrix, r1, r2, r3, score, n, l1, k);
    let t = threshold(goal, best_upto(goal, n, score), tolerance);
    assert(covers(goal, capacity, l2, j, score(j as nat)));
    if holds_index(l2, j) {
        let q = choose|q: int| 0 <= q < l2.len() && (#[trigger] l2[q]).1 == j;
        lemma_entry_key(goal, tolerance, capacity, matrix, r1, r2, r3, score, n, l2, q);
        assert(key_of(l2[q]) == key_of(a));
        if q < k {
            assert(key_of(l1[q]) == key_of(l2[q]));
            assert(before(goal, key_of(l1[q]), key_of(l1[k])));
        } else if q > k {
            assert(before(goal, key_of(l2[k]), key_of(l2[q])));
        }
    } else {
        assert(before(goal, key_of(l2[k]), (score(j as nat), j)));
    }
}

/// A record list cannot be a strict prefix of another.
proof fn lemma_longer_list<const C: usize, const R: usize>(
    goal: Goal,
    tolerance: Tolerance,
    capacity: Option<usize>,
    matrix: [[u8; C]; R],
    r1: &Region,
    r2: &Region,
    r3: &Region,
    score: spec_fn(nat) -> u64,
    n: nat,
    l1: Seq<Entry<C, R>>,
    l2: Seq<Entry<C, R>>,
)
    requires
        is_record_list(goal, tolerance, capacity, matrix, r1, r2, r3, score, n, l1),
        is_record_list(goal, tolerance, capacity, matrix, r1, r2, r3, score, n, l2),
        forall|q: int| 0 <= q < l1.len() && q < l2.len() ==> key_of(#[trigger] l1[q]) == key_of(l2[q]),
    ensures
        l1.len() >= l2.len(),
{
    if l1.len() >= l2.len() {
        return;
    }
    let b = l2[l1.len() as int];
    let j = b.1;
    lemma_entry_key(goal, tolerance, capacity, matrix, r1, r2, r3, score, n, l2, l1.len() as int);
    assert(covers(goal, capacity, l1, j, score(j as nat)));
    if holds_index(l1, j) {
        let q = choose|q: int| 0 <= q < l1.len() && (#[trigger] l1[q]).1 == j;
        lemma_entry_key(goal, tolerance, capacity, matrix, r1, r2, r3, score, n, l1, q);
        assert(key_of(l1[q]) == key_of(l2[q]));
        assert(before(goal, key_of(l2[q]), key_of(l2[l1.len() as int])));
    }
}

/// `l` is the record list of the first `n` candidates (see [`is_record_list`]),
/// `ms` holds its matrices, and `truncated` says whether some candidate that
/// meets the threshold was left out.
pub open spec fn is_search_outcome<const C: usize, const R: usize>(
    goal: Goal,
    tolerance: Tolerance,
    capacity: Option<usize>,
    matrix: [[u8; C]; R],
    r1: &Region,
    r2: &Region,
    r3: &Region,
    score: spec_fn(nat) -> u64,
    n: nat,
    ms: Seq<[[u8; C]; R]>,
    truncated: bool,
    l: Seq<Entry<C, R>>,
) -> bool {
    let t = threshold(goal, best_upto(goal, n, score), tolerance);
    &&& is_record_list(goal, tolerance, capacity, matrix, r1, r2, r3, score, n, l)
    &&& l.len() == ms.len()
    &&& forall|k: int| 0 <= k < l.len() ==> (#[trigger] l[k]).2 == ms[k]
    &&& truncated ==> exists|j: u64| j < n && admissible(goal, score(j as nat), t) && !#[trigger] holds_index(l, j)
    &&& !truncated ==> forall|j: u64| j < n && admissible(goal, score(j as nat), t) ==> #[trigger] holds_index(l, j)
}

/// The capacity of a record list that holds at most `max_records` entries.
pub open spec fn records_capacity(max_records_opt: Option<u32>) -> Option<usize> {
    match max_records_opt {
        Some(m) => Some(m as usize),
        None => None,
    }
}

/// What a search over three regions covers.
#[derive(Clone, Copy, Debug, PartialEq, Eq, Structural)]
pub struct SearchPlan {
    /// The number of candidates to score: the smaller of the space and the limit.
    pub n: u64,
    /// The limit is below the space.
    pub permutations_truncated: bool,
    /// The capacity of the record set: one more than the records asked for,
    /// so that a full set tells that some were left out.
    pub capacity: Option<usize>,
}

/// Checks the regions and sizes a search: see [`SearchPlan`].
pub fn plan_search(
    region1: &Region,
    region2: &Region,
    region3: &Region,
    max_permutations_opt: Option<u64>,
    max_records_opt: Option<u32>,
    permit_partial: bool,
) -> (r: Result<SearchPlan, SearchError>)
    ensures
        r is Err <==> !(region1.fits_pool(permit_partial) && region2.fits_pool(permit_partial)
            && region3.fits_pool(permit_partial)),
        r matches Ok(p) ==> {
            let total = search_space(region1, region2, region3);
            let limit = match max_permutations_opt {
                Some(m) => m as nat,
                None => u64::MAX as nat,
            };
            &&& p.n == if total < limit { total } else { limit }
            &&& p.permutations_truncated == (limit < total)
            &&& p.capacity == match max_records_opt {
                Some(m) => if (m as usize) < usize::MAX { Some((m as usize + 1) as usize) } else { None },
                None => None,
            }
        },
{
    if !(region1.pool.len() == region1.positions.len() || (permit_partial && region1.pool.len() == 0)) {
        return Err(SearchError::PoolLengthMismatch { region: 1, markers: region1.positions.len(), pool: region1.pool.len() });
    }
    if !(region2.pool.len() == region2.positions.len() || (permit_partial && region2.pool.len() == 0)) {
        return Err(SearchError::PoolLengthMismatch { region: 2, markers: region2.positions.len(), pool: region2.pool.len() });
    }
    if !(region3.pool.len() == region3.positions.len() || (permit_partial && region3.pool.len() == 0)) {
        return Err(SearchError::PoolLengthMismatch { region: 3, markers: region3.positions.len(), pool: region3.pool.len() });
    }
    let total = search_space_size(region1, region2, region3);
    let limit = match max_permutations_opt {
        Some(p) => p,
        None => u64::MAX,
    };
    // a space beyond `u64` exceeds every limit
    let (n, permutations_truncated) = match total {
        Some(t) => if t < limit {
            (t, false)
        } else {
            (limit, limit < t)
        },
        None => (limit, true),
    };
    let capacity: Option<usize> = match max_records_opt {
        Some(m) => (m as usize).checked_add(1),
        None => None,
    };
    Ok(SearchPlan { n, permutations_truncated, capacity })
}

/// The matrices of a finished record set, best first. Where the set is full
/// its last entry only tells that more candidates met the threshold than
/// were asked for: it is dropped, and the flag says so.
pub fn finish_records<const C: usize, const R: usize>(set: RecordSet<C, R>, capacity: Option<usize>) -> (r: (
    Vec<[[u8; C]; R]>,
    bool,
))
    ensures
        r.1 == (capacity matches Some(c) && set.entries@.len() >= c && set.entries@.len() > 0),
        set.entries@.len() <= usize::MAX,
        ({
            let l = if r.1 { set.entries@.drop_last() } else { set.entries@ };
            &&& r.0@.len() == l.len()
            &&& forall|k: int| 0 <= k < l.len() ==> #[trigger] r.0@[k] == l[k].2
        }),
{
    let mut entries = set.entries;
    let mut records_truncated = false;
    if let Some(c) = capacity {
        if entries.len() >= c && entries.len() > 0 {
            entries.pop();
            records_truncated = true;
        }
    }
    let mut ms: Vec<[[u8; C]; R]> = Vec::new();
    let mut k: usize = 0;
    while k < entries.len()
        invariant
            k <= entries@.len(),
            ms@.len() == k,
            forall|q: int| 0 <= q < k ==> #[trigger] ms@[q] == entries@[q].2,
        decreases entries.len() - k,
    {
        ms.push(entries[k].2);
        k = k + 1;
    }
    proof {
        let l = if records_truncated { set.entries@.drop_last() } else { set.entries@ };
        assert(entries@ =~= l);
    }
    (ms, records_truncated)
}

/// What a successful search returns: `n` candidates scored, the smaller of
/// the space and the limit; whether the limit was below the space; and the
/// matrices of a record list of those candidates (see [`is_search_outcome`]).
pub open spec fn search_succeeded<const C: usize, const R: usize>(
    matrix: [[u8; C]; R],
    region1: &Region,
    region2: &Region,
    region3: &Region,
    scorer: &Scorer,
    weight: Weight,
    goal: Goal,
    tolerance: Tolerance,
    max_permutations_opt: Option<u64>,
    max_records_opt: Option<u32>,
    n: u64,
    permutations_truncated: bool,
    ms: Seq<[[u8; C]; R]>,
    records_truncated: bool,
) -> bool {
    let total = search_space(region1, region2, region3);
    let limit = match max_permutations_opt {
        Some(p) => p as nat,
        None => u64::MAX as nat,
    };
    &&& n == if total < limit {
        total
    } else {
        limit
    }
    &&& permutations_truncated == (limit < total)
    &&& exists|l: Seq<Entry<C, R>>|
        #[trigger] is_search_outcome(
            goal,
            tolerance,
            records_capacity(max_records_opt),
            matrix,
            region1,
            region2,
            region3,
            candidate_score(matrix, region1, region2, region3, scorer, weight),
            n as nat,
            ms,
            records_truncated,
            l,
        )
}

/// Enumerates the candidates `0 .. min(N, max_permutations)` of the search
/// space, where `N` is the product of the factorials of the three pool sizes,
/// scores each, and keeps the best ones as [`RecordSet`] does, up to
/// `max_records` of them.
///
/// Returns the number of candidates scored, whether the limit cut the space
/// short, the kept matrices, best first, and whether more candidates met the
/// threshold than `max_records` let through.
pub fn permute_and_substitute<const C: usize, const R: usize>(
    matrix: &[[u8; C]; R],
    region1: &Region,
    region2: &Region,
    region3: &Region,
    scorer: &Scorer,
    weight: Weight,
    goal: Goal,
    tolerance: Tolerance,
    max_permutations_opt: Option<u64>,
    max_records_opt: Option<u32>,
    permit_partial: bool,
) -> (r: Result<(u64, bool, Vec<[[u8; C]; R]>, bool), SearchError>)
    requires
        tolerance.wf(),
        scorer.fits(R as nat, C as nat),
        region1.on_matrix(R as nat, C as nat),
        region2.on_matrix(R as nat, C as nat),
        region3.on_matrix(R as nat, C as nat),
    ensures
        r is Err <==> !(region1.fits_pool(permit_partial) && region2.fits_pool(permit_partial)
            && region3.fits_pool(permit_partial)),
        r matches Ok((n, permutations_truncated, ms, records_truncated)) ==> search_succeeded(
            *matrix,
            region1,
            region2,
            region3,
            scorer,
            weight,
            goal,
            tolerance,
            max_permutations_opt,
            max_records_opt,
            n,
            permutations_truncated,
            ms@,
            records_truncated,
        ),
{
    let plan = match plan_search(region1, region2, region3, max_permutations_opt, max_records_opt, permit_partial) {
        Ok(p) => p,
        Err(e) => return Err(e),
    };
    let n = plan.n;
    let capacity = plan.capacity;
    let ghost score = candidate_score(*matrix, region1, region2, region3, scorer, weight);
    let mut records: RecordSet<C, R> = RecordSet::new(goal, tolerance, capacity);
    let mut i: u64 = 0;
    proof {
        assert(records.seen@ =~= Map::new(|j: u64| j < i, |j: u64| score(j as nat)));
    }
    while i < n
        invariant
            i <= n,
            n <= search_space(region1, region2, region3),
            region1.pool@.len() <= region1.positions@.len(),
            region2.pool@.len() <= region2.positions@.len(),
            region3.pool@.len() <= region3.positions@.len(),
            region1.on_matrix(R as nat, C as nat),
            region2.on_matrix(R as nat, C as nat),
            region3.on_matrix(R as nat, C as nat),
            scorer.fits(R as nat, C as nat),
            score == candidate_score(*matrix, region1, region2, region3, scorer, weight),
            records.wf(),
            records.goal == goal,
            records.tolerance == tolerance,
            records.capacity == capacity,
            records.seen@ == Map::new(|j: u64| j < i, |j: u64| score(j as nat)),
            records.best == best_upto(goal, i as nat, score),
            forall|k: int|
                0 <= k < records.entries@.len() ==> (#[trigger] records.entries@[k]).1 < i && cells_of(
                    records.entries@[k].2,
                ) == candidate(cells_of(*matrix), region1, region2, region3, records.entries@[k].1 as nat),
        decreases n - i,
    {
        let m = materialize(matrix, region1, region2, region3, i);
        let s = scorer.score(weight, &m);
        let ghost before = records.entries@;
        records.consider(m, s, i);
        proof {
            assert(records.seen@ =~= Map::new(|j: u64| j < i + 1, |j: u64| score(j as nat)));
            assert forall|k: int| 0 <= k < records.entries@.len() implies (#[trigger] records.entries@[k]).1 < i + 1
                && cells_of(records.entries@[k].2) == candidate(
                cells_of(*matrix),
                region1,
                region2,
                region3,
                records.entries@[k].1 as nat,
            ) by {
                if before.contains(records.entries@[k]) {
                    let k0 = choose|k0: int| 0 <= k0 < before.len() && before[k0] == records.entries@[k];
                    assert(before[k0].1 < i);
                }
            }
        }
        i = i + 1;
    }
    let ghost full = records.entries@;
    let (ms, records_truncated) = finish_records(records, capacity);
    let ghost l = if records_truncated { full.drop_last() } else { full };
    proof {
        let out_cap = match max_records_opt {
            Some(m) => Some(m as usize),
            None => None,
        };
        let t = threshold(goal, best_upto(goal, n as nat, score), tolerance);
        assert(records.threshold == t);
        assert forall|j: u64| j < n && admissible(goal, #[trigger] score(j as nat), t) implies covers(
            goal,
            out_cap,
            l,
            j,
            score(j as nat),
        ) && (!records_truncated ==> holds_index(l, j)) by {
            assert(records.seen@.contains_key(j));
            assert(covers(goal, capacity, full, j, score(j as nat)));
            if holds_index(full, j) {
                let k0 = choose|k0: int| 0 <= k0 < full.len() && (#[trigger] full[k0]).1 == j;
                if k0 < l.len() {
                    assert(l[k0] == full[k0]);
                } else {
                    assert(records_truncated);
                    assert forall|q: int| 0 <= q < l.len() implies before(goal, key_of(#[trigger] l[q]), (score(j as nat), j)) by {
                        assert(l[q] == full[q]);
                        assert(records.seen@[full[k0].1] == full[k0].0);
                    }
                }
            } else {
                assert forall|q: int| 0 <= q < l.len() implies before(goal, key_of(#[trigger] l[q]), (score(j as nat), j)) by {
                    assert(l[q] == full[q]);
                }
            }
        }
        assert(ordered(goal, l)) by {
            assert forall|i: int, j: int| 0 <= i < j < l.len() implies before(goal, key_of(#[trigger] l[i]), key_of(#[trigger] l[j])) by {
                assert(l[i] == full[i] && l[j] == full[j]);
            }
        }
        if let Some(m) = max_records_opt {
            if (m as usize) < usize::MAX {
                assert(capacity == Some((m as usize + 1) as usize));
                assert(full.len() <= m as usize + 1);
            } else {
                assert(capacity is None);
            }
        }
        assert(out_cap matches Some(c) ==> l.len() <= c);
        assert forall|k: int| 0 <= k < l.len() implies {
            let e = #[trigger] l[k];
            &&& e.1 < n
            &&& cells_of(e.2) == candidate(cells_of(*matrix), region1, region2, region3, e.1 as nat)
            &&& e.0 == score(e.1 as nat)
            &&& admissible(goal, e.0, t)
        } by {
            assert(l[k] == full[k]);
        }
        assert(is_record_list(goal, tolerance, out_cap, *matrix, region1, region2, region3, score, n as nat, l));
        if records_truncated {
            let last = full[full.len() - 1];
            assert(records.seen@.contains_key(last.1));
            if holds_index(l, last.1) {
                let k0 = choose|k0: int| 0 <= k0 < l.len() && (#[trigger] l[k0]).1 == last.1;
                assert(l[k0] == full[k0]);
                assert(before(goal, key_of(full[k0]), key_of(last)));
                assert(records.seen@[full[k0].1] == full[k0].0);
            }
            assert(last.1 < n);
            assert(score(last.1 as nat) == last.0);
            assert(admissible(goal, score(last.1 as nat), t));
            assert(!holds_index(l, last.1));
        }
        assert(forall|q: int| 0 <= q < l.len() ==> (#[trigger] l[q]).2 == ms@[q]);
        assert(l.len() == ms@.len());
        assert(out_cap == records_capacity(max_records_opt));
        assert(is_search_outcome(goal, tolerance, out_cap, *matrix, region1, region2, region3, score, n as nat, ms@, records_truncated, l));
    }
    Ok((n, plan.permutations_truncated, ms, records_truncated))
}

/// The product of the factorials of the three pool sizes, where it fits in
/// a `u64`.
pub fn search_space_size(region1: &Region, region2: &Region, region3: &Region) -> (r: Option<u64>)
    ensures
        r matches Some(t) ==> t == search_space(region1, region2, region3),
        r is None <==> search_space(region1, region2, region3) > u64::MAX,
{
    proof {
        lemma_fact_20();
        lemma_fact_positive(region1.pool@.len());
        lemma_fact_positive(region2.pool@.len());
        lemma_fact_positive(region3.pool@.len());
    }
    if region1.pool.len() > 20 || region2.pool.len() > 20 || region3.pool.len() > 20 {
        proof {
            lemma_fact_21_exceeds();
            let (a, b, c) = (region1.size(), region2.size(), region3.size());
            if region1.pool@.len() > 20 {
                lemma_fact_monotonic(21, region1.pool@.len());
            } else if region2.pool@.len() > 20 {
                lemma_fact_monotonic(21, region2.pool@.len());
            } else {
                lemma_fact_monotonic(21, region3.pool@.len());
            }
            assert(a * b * c >= a && a * b * c >= b && a * b * c >= c) by (nonlinear_arith)
                requires a >= 1, b >= 1, c >= 1;
        }
        return None;
    }
    proof {
        lemma_fact_monotonic(region1.pool@.len(), 20);
        lemma_fact_monotonic(region2.pool@.len(), 20);
        lemma_fact_monotonic(region3.pool@.len(), 20);
    }
    let f1 = factorial(region1.pool.len() as u64);
    let f2 = factorial(region2.pool.len() as u64);
    let f3 = factorial(region3.pool.len() as u64);
    match f1.checked_mul(f2) {
        None => {
            proof {
                assert(f1 * f2 * f3 >= f1 * f2) by (nonlinear_arith)
                    requires f3 >= 1, f1 * f2 >= 0;
            }
            None
        },
        Some(p) => p.checked_mul(f3),
    }
}

proof fn lemma_fact_20()
    ensures
        fact(20) == 2432902008176640000,
{
    assert(fact(0) == 1);
    assert(fact(1) == 1) by { assert(fact(1) == 1 * fact(0)); }
    assert(fact(2) == 2) by { assert(fact(2) == 2 * fact(1)); }
    assert(fact(3) == 6) by { assert(fact(3) == 3 * fact(2)); }
    assert(fact(4) == 24) by { assert(fact(4) == 4 * fact(3)); }
    assert(fact(5) == 120) by { assert(fact(5) == 5 * fact(4)); }
    assert(fact(6) == 720) by { assert(fact(6) == 6 * fact(5)); }
    assert(fact(7) == 5040) by { assert(fact(7) == 7 * fact(6)); }
    assert(fact(8) == 40320) by { assert(fact(8) == 8 * fact(7)); }
    assert(fact(9) == 362880) by { assert(fact(9) == 9 * fact(8)); }
    assert(fact(10) == 3628800) by { assert(fact(10) == 10 * fact(9)); }
    assert(fact(11) == 39916800) by { assert(fact(11) == 11 * fact(10)); }
    assert(fact(12) == 479001600) by { assert(fact(12) == 12 * fact(11)); }
    assert(fact(13) == 6227020800) by { assert(fact(13) == 13 * fact(12)); }
    assert(fact(14) == 87178291200) by { assert(fact(14) == 14 * fact(13)); }
    assert(fact(15) == 1307674368000) by { assert(fact(15) == 15 * fact(14)); }
    assert(fact(16) == 20922789888000) by { assert(fact(16) == 16 * fact(15)); }
    assert(fact(17) == 355687428096000) by { assert(fact(17) == 17 * fact(16)); }
    assert(fact(18) == 6402373705728000) by { assert(fact(18) == 18 * fact(17)); }
    assert(fact(19) == 121645100408832000) by { assert(fact(19) == 19 * fact(18)); }
    assert(fact(20) == 2432902008176640000) by { assert(fact(20) == 20 * fact(19)); }
}

proof fn lemma_fact_21_exceeds()
    ensures
        fact(21) > u64::MAX,
{
    lemma_fact_20();
    assert(fact(21) == 21 * fact(20));
}


/// A pool of more bytes than the array holds.
#[derive(Clone, Copy, Debug, PartialEq, Eq, Structural)]
pub struct PoolTooLong {
    pub len: usize,
    pub max: usize,
}

/// The pool in a fixed array, zero-filled, with its length; an empty pool
/// where there is none.
pub fn convert_vec_opt_to_array<const N: usize>(vec_opt: Option<Vec<u8>>) -> (r: Result<([u8; N], usize), PoolTooLong>)
    ensures
        match vec_opt {
            None => r matches Ok((a, len)) && len == 0 && forall|i: int| 0 <= i < N ==> #[trigger] a@[i] == 0,
            Some(v) => if v@.len() > N {
                r == Err::<([u8; N], usize), PoolTooLong>(PoolTooLong { len: v@.len() as usize, max: N })
            } else {
                r matches Ok((a, len)) && len == v@.len() && forall|i: int| 0 <= i < N ==> #[trigger] a@[i] == if i < len {
                    v@[i]
                } else {
                    0
                }
            },
        },
{
    let mut array = [0u8; N];
    match vec_opt {
        None => Ok((array, 0)),
        Some(v) => {
            let len = v.len();
            if len > N {
                return Err(PoolTooLong { len, max: N });
            }
            let mut i: usize = 0;
            while i < len
                invariant
                    i <= len <= N,
                    len == v@.len(),
                    forall|k: int| 0 <= k < N ==> #[trigger] array@[k] == if k < i {
                        v@[k]
                    } else {
                        0
                    },
                decreases len - i,
            {
                array[i] = v[i];
                i = i + 1;
            }
            Ok((array, len))
        },
    }
}

/// A pool byte may be any ASCII byte but the three that stand for the regions.
pub open spec fn pool_byte_ok(b: u8) -> bool {
    b < 128 && !(1 <= b <= 3)
}

/// Whether every byte of a pool may stand in a key table.
pub fn is_valid_pool(pool: &[u8]) -> (r: bool)
    ensures
        r == forall|i: int| 0 <= i < pool@.len() ==> pool_byte_ok(#[trigger] pool@[i]),
{
    let mut i: usize = 0;
    while i < pool.len()
        invariant
            i <= pool@.len(),
            forall|k: int| 0 <= k < i ==> pool_byte_ok(#[trigger] pool@[k]),
        decreases pool.len() - i,
    {
        let b = pool[i];
        if !(b < 128 && !(1 <= b && b <= 3)) {
            return false;
        }
        i = i + 1;
    }
    true
}

} // verus!
