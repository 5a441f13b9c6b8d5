use vstd::multiset::Multiset;
use vstd::prelude::*;

use crate::measurements::{
    descending, is_stable_arrangement, lemma_arrangement_extend, lemma_arrangement_insert, same_value,
    stably_arranged, Measurement,
};
use crate::metrics::{BigramMetric, Metric, SortDirection, SortRule, TrigramMetric, UnigramMetric};
use crate::fingerings::{BigramFingering, TrigramFingering, UnigramFingering};
use crate::metrics::{BigramFingerings, TrigramFingerings, UnigramFingerings};
use crate::ngrams::{BigramKey, TrigramKey, UnigramKey, BIGRAM_TABLE_LEN, TRIGRAM_TABLE_LEN, UNIGRAM_TABLE_LEN};
use crate::scores::{
    bigram_raw_sum, bigram_weighted_sum, bigrams_fit, capped, score_bfs, score_tfs, score_ufs, trigram_raw_sum,
    trigram_weighted_sum, trigrams_fit, unigram_raw_sum, unigram_weighted_sum, unigrams_fit, ScoreMode,
    lemma_filter_fits_unigram, lemma_filter_fits_bigram, lemma_filter_fits_trigram,
};
use crate::tables::cells_of;
use crate::scores::Score;
use crate::weights::Weight;

verus! {

/// A candidate measured on every metric, with the sums over all fingerings of
/// each arity.
pub struct Record {
    pub key_table_matrix: [[u8; 16]; 8],
    /// One measurement per unigram metric, at the metric's index.
    pub unigram_measurements: Vec<Measurement<UnigramKey>>,
    /// One measurement per bigram metric, at the metric's index.
    pub bigram_measurements: Vec<Measurement<BigramKey>>,
    /// One measurement per trigram metric, at the metric's index.
    pub trigram_measurements: Vec<Measurement<TrigramKey>>,
    pub uf_sum: u64,
    pub uf_sum_ew: u64,
    pub bf_sum: u64,
    pub bf_sum_ew: u64,
    pub tf_sum: u64,
    pub tf_sum_ew: u64,
}

pub open spec fn measured_sum<K>(ms: Seq<Measurement<K>>, i: nat, weight: Weight) -> Option<u64> {
    if i < ms.len() {
        Some(
            match weight {
                Weight::Effort => ms[i as int].sum_ew,
                Weight::Raw => ms[i as int].sum,
            },
        )
    } else {
        None
    }
}

/// The details are unchanged but for the dropped zero scores and the order.
pub open spec fn normalized<K>(before: Measurement<K>, after: Measurement<K>, weight: Weight) -> bool {
    &&& after.sum == before.sum
    &&& after.sum_ew == before.sum_ew
    &&& after.opt_details is Some <==> before.opt_details is Some
    &&& before.opt_details matches Some(d) ==> {
        let e = after.opt_details->Some_0@;
        &&& e.to_multiset() == d@.filter(|s: Score<K>| !(s.value == 0 && s.value_ew == 0)).to_multiset()
        &&& descending(e, weight)
        &&& stably_arranged(e, d@.filter(|s: Score<K>| !(s.value == 0 && s.value_ew == 0)), same_value(weight))
    }
}

fn normalize_all<K>(ms: &mut Vec<Measurement<K>>, weight: Weight)
    ensures
        final(ms)@.len() == old(ms)@.len(),
        forall|i: int| 0 <= i < old(ms)@.len() ==> normalized(#[trigger] old(ms)@[i], final(ms)@[i], weight),
{
    let ghost m0 = ms@;
    let mut done: Vec<Measurement<K>> = Vec::new();
    let n = ms.len();
    while ms.len() > 0
        invariant
            done@.len() + ms@.len() == m0.len(),
            ms@ == m0.skip(done@.len() as int),
            forall|i: int| 0 <= i < done@.len() ==> normalized(#[trigger] m0[i], done@[i], weight),
        decreases ms.len(),
    {
        let ghost k = done@.len() as int;
        let mut m = ms.remove(0);
        assert(m == m0[k]);
        assert(ms@ =~= m0.skip(k + 1));
        m.retain_non_zero_details();
        m.sort_details(weight);
        done.push(m);
    }
    *ms = done;
}

/// The filter symbols of one arity: each measured metric's name, its sum
/// under the weight and the record's total of that arity; none where the
/// total is zero, as no percentage exists then.
pub open spec fn arity_symbols<K>(names: Seq<Seq<char>>, ms: Seq<Measurement<K>>, total: u64, weight: Weight) -> Seq<
    (Seq<char>, u64, u64),
> {
    let m = if ms.len() < names.len() { ms.len() } else { names.len() };
    if total == 0 {
        seq![]
    } else {
        Seq::new(m, |k: int| (names[k], measured_sum(ms, k as nat, weight)->Some_0, total))
    }
}

pub open spec fn symbols_view(r: Seq<(&'static str, u64, u64)>) -> Seq<(Seq<char>, u64, u64)> {
    r.map_values(|x: (&'static str, u64, u64)| (x.0@, x.1, x.2))
}

/// Appends the symbols of one arity: the names are `names[offset..offset + count]`.
fn push_symbols<K>(
    r: &mut Vec<(&'static str, u64, u64)>,
    names: &Vec<&'static str>,
    offset: usize,
    count: usize,
    ms: &Vec<Measurement<K>>,
    total: u64,
    weight: Weight,
    Ghost(ns): Ghost<Seq<Seq<char>>>,
)
    requires
        offset + count <= names.len(),
        ns.len() == count,
        forall|k: int| 0 <= k < count ==> #[trigger] ns[k] == names@[offset + k]@,
    ensures
        symbols_view(final(r)@) == symbols_view(old(r)@) + arity_symbols(ns, ms@, total, weight),
{
    let ghost start = symbols_view(r@);
    let ghost want = arity_symbols(ns, ms@, total, weight);
    if total == 0 {
        assert(start + want =~= start);
        return;
    }
    let mut k: usize = 0;
    while k < count && k < ms.len()
        invariant
            k <= count,
            offset + count <= names.len(),
            ns.len() == count,
            forall|k: int| 0 <= k < count ==> #[trigger] ns[k] == names@[offset + k]@,
            total != 0,
            want == arity_symbols(ns, ms@, total, weight),
            k <= want.len(),
            symbols_view(r@) == start + want.take(k as int),
        decreases count - k,
    {
        let s = ms[k].sum_by_weight(weight);
        assert(want[k as int] == (ns[k as int], s, total));
        assert(names@[offset + k]@ == ns[k as int]);
        let ghost old_r = r@;
        let x = (names[offset + k], s, total);
        r.push(x);
        assert(symbols_view(r@) =~= symbols_view(old_r).push((x.0@, x.1, x.2)));
        assert(want.take(k + 1) =~= want.take(k as int).push(want[k as int]));
        k = k + 1;
        assert(symbols_view(r@) =~= start + want.take(k as int));
    }
    assert(want.take(k as int) =~= want);
}

impl Record {
    /// The sum of a metric under the weight, if the record measured it.
    pub open spec fn spec_sum(&self, metric: Metric, weight: Weight) -> Option<u64> {
        match metric {
            Metric::Unigram(m) => measured_sum(self.unigram_measurements@, m.spec_index(), weight),
            Metric::Bigram(m) => measured_sum(self.bigram_measurements@, m.spec_index(), weight),
            Metric::Trigram(m) => measured_sum(self.trigram_measurements@, m.spec_index(), weight),
        }
    }

    pub fn sum(&self, metric: Metric, weight: Weight) -> (r: Option<u64>)
        ensures
            r == self.spec_sum(metric, weight),
    {
        match metric {
            Metric::Unigram(m) => {
                let i = m.as_usize();
                if i < self.unigram_measurements.len() {
                    Some(self.unigram_measurements[i].sum_by_weight(weight))
                } else {
                    None
                }
            },
            Metric::Bigram(m) => {
                let i = m.as_usize();
                if i < self.bigram_measurements.len() {
                    Some(self.bigram_measurements[i].sum_by_weight(weight))
                } else {
                    None
                }
            },
            Metric::Trigram(m) => {
                let i = m.as_usize();
                if i < self.trigram_measurements.len() {
                    Some(self.trigram_measurements[i].sum_by_weight(weight))
                } else {
                    None
                }
            },
        }
    }

    /// The totals of the three arities under the weight.
    pub open spec fn totals(&self, weight: Weight) -> (u64, u64, u64) {
        match weight {
            Weight::Effort => (self.uf_sum_ew, self.bf_sum_ew, self.tf_sum_ew),
            Weight::Raw => (self.uf_sum, self.bf_sum, self.tf_sum),
        }
    }

    /// What a filter reads of the record: for each measured metric whose
    /// arity's total is not zero, its lower-case name, its sum under the
    /// weight and that total; the percentage is `100 · sum / total`.
    pub open spec fn spec_symbols(&self, weight: Weight) -> Seq<(Seq<char>, u64, u64)> {
        let (u, b, t) = self.totals(weight);
        arity_symbols(UnigramMetric::spec_all().map_values(|m: UnigramMetric| m.spec_name()), self.unigram_measurements@, u, weight)
            + arity_symbols(BigramMetric::spec_all().map_values(|m: BigramMetric| m.spec_name()), self.bigram_measurements@, b, weight)
            + arity_symbols(TrigramMetric::spec_all().map_values(|m: TrigramMetric| m.spec_name()), self.trigram_measurements@, t, weight)
    }

    /// See [`Record::spec_symbols`].
    pub fn symbol_sources(&self, weight: Weight) -> (r: Vec<(&'static str, u64, u64)>)
        ensures
            symbols_view(r@) == self.spec_symbols(weight),
    {
        let (u, b, t) = match weight {
            Weight::Effort => (self.uf_sum_ew, self.bf_sum_ew, self.tf_sum_ew),
            Weight::Raw => (self.uf_sum, self.bf_sum, self.tf_sum),
        };
        let names = Metric::get_variables();
        let ghost all = crate::metrics::metric_names();
        let ghost un = UnigramMetric::spec_all().map_values(|m: UnigramMetric| m.spec_name());
        let ghost bn = BigramMetric::spec_all().map_values(|m: BigramMetric| m.spec_name());
        let ghost tn = TrigramMetric::spec_all().map_values(|m: TrigramMetric| m.spec_name());
        proof {
            assert(all == un + bn + tn);
            assert(un.len() == 12 && bn.len() == 6 && tn.len() == 4);
            assert forall|k: int| 0 <= k < 12 implies #[trigger] un[k] == all[k] by {}
            assert forall|k: int| 0 <= k < 6 implies #[trigger] bn[k] == all[12 + k] by {}
            assert forall|k: int| 0 <= k < 4 implies #[trigger] tn[k] == all[18 + k] by {}
        }
        let mut r: Vec<(&'static str, u64, u64)> = Vec::new();
        assert(symbols_view(r@) =~= Seq::<(Seq<char>, u64, u64)>::empty());
        push_symbols(&mut r, &names, 0, 12, &self.unigram_measurements, u, weight, Ghost(un));
        push_symbols(&mut r, &names, 12, 6, &self.bigram_measurements, b, weight, Ghost(bn));
        push_symbols(&mut r, &names, 18, 4, &self.trigram_measurements, t, weight, Ghost(tn));
        proof {
            let e = Seq::<(Seq<char>, u64, u64)>::empty();
            assert(e + arity_symbols(un, self.unigram_measurements@, u, weight) =~= arity_symbols(un, self.unigram_measurements@, u, weight));
        }
        r
    }

    /// In every measurement, drops the zero scores and sorts the rest by their
    /// value under the weight, largest first.
    pub fn normalize(&mut self, weight: Weight)
        ensures
            final(self).key_table_matrix == old(self).key_table_matrix,
            final(self).unigram_measurements@.len() == old(self).unigram_measurements@.len(),
            final(self).bigram_measurements@.len() == old(self).bigram_measurements@.len(),
            final(self).trigram_measurements@.len() == old(self).trigram_measurements@.len(),
            forall|i: int| 0 <= i < old(self).unigram_measurements@.len() ==> normalized(
                #[trigger] old(self).unigram_measurements@[i],
                final(self).unigram_measurements@[i],
                weight,
            ),
            forall|i: int| 0 <= i < old(self).bigram_measurements@.len() ==> normalized(
                #[trigger] old(self).bigram_measurements@[i],
                final(self).bigram_measurements@[i],
                weight,
            ),
            forall|i: int| 0 <= i < old(self).trigram_measurements@.len() ==> normalized(
                #[trigger] old(self).trigram_measurements@[i],
                final(self).trigram_measurements@[i],
                weight,
            ),
            final(self).uf_sum == old(self).uf_sum && final(self).uf_sum_ew == old(self).uf_sum_ew,
            final(self).bf_sum == old(self).bf_sum && final(self).bf_sum_ew == old(self).bf_sum_ew,
            final(self).tf_sum == old(self).tf_sum && final(self).tf_sum_ew == old(self).tf_sum_ew,
    {
        normalize_all(&mut self.unigram_measurements, weight);
        normalize_all(&mut self.bigram_measurements, weight);
        normalize_all(&mut self.trigram_measurements, weight);
    }
}

/// Why a selection fails.
#[derive(Clone, Copy, Debug, PartialEq, Eq, Structural)]
pub enum SelectError {
    /// The index, counted from the end when negative, lies outside the list.
    IndexOutOfRange { index: isize, length: usize },
}

/// Keeps the first `max_selections` records; then, with an index, only the
/// record at that index, counted from the end when it is negative.
pub fn select_records(records: Vec<Record>, max_selections: Option<usize>, index: Option<isize>) -> (r: Result<Vec<Record>, SelectError>)
    ensures
        ({
            let kept = match max_selections {
                Some(m) => if m < records@.len() {
                    records@.take(m as int)
                } else {
                    records@
                },
                None => records@,
            };
            match index {
                None => r matches Ok(v) && v@ == kept,
                Some(i) => {
                    let at = if i < 0 {
                        kept.len() + i
                    } else {
                        i as int
                    };
                    if 0 <= at < kept.len() {
                        r matches Ok(v) && v@ == seq![kept[at]]
                    } else {
                        r == Err::<Vec<Record>, SelectError>(SelectError::IndexOutOfRange { index: i, length: kept.len() as usize })
                    }
                },
            }
        }),
{
    let mut records = records;
    if let Some(m) = max_selections {
        if m < records.len() {
            records.truncate(m);
        }
    }
    match index {
        None => Ok(records),
        Some(i) => {
            let length = records.len();
            let at: Option<usize> = if i < 0 {
                let back: usize = if i == isize::MIN {
                    isize::MAX as usize + 1
                } else {
                    (-i) as usize
                };
                if back <= length {
                    Some(length - back)
                } else {
                    None
                }
            } else if (i as usize) < length {
                Some(i as usize)
            } else {
                None
            };
            match at {
                Some(a) => {
                    let r = records.remove(a);
                    Ok(vec![r])
                },
                None => Err(SelectError::IndexOutOfRange { index: i, length }),
            }
        },
    }
}

/// `-1`, `0` or `1` as `a` is below, equal to or above `b`; nothing is below
/// a missing sum.
pub open spec fn compare_sums(a: Option<u64>, b: Option<u64>) -> int {
    match (a, b) {
        (None, None) => 0,
        (None, Some(_)) => -1,
        (Some(_), None) => 1,
        (Some(x), Some(y)) => if x < y {
            -1
        } else if x > y {
            1
        } else {
            0
        },
    }
}

/// The order of two records under the rules: the first rule on which their
/// sums differ decides, in its direction.
pub open spec fn compare_records(a: &Record, b: &Record, rules: Seq<SortRule>, weight: Weight) -> int
    decreases rules.len(),
{
    if rules.len() == 0 {
        0
    } else {
        let c = compare_sums(a.spec_sum(rules[0].metric, weight), b.spec_sum(rules[0].metric, weight));
        let c = match rules[0].sort_direction {
            SortDirection::Ascending => c,
            SortDirection::Descending => -c,
        };
        if c != 0 {
            c
        } else {
            compare_records(a, b, rules.drop_first(), weight)
        }
    }
}

proof fn lemma_compare_antisymmetric(a: &Record, b: &Record, rules: Seq<SortRule>, weight: Weight)
    ensures
        compare_records(a, b, rules, weight) == -compare_records(b, a, rules, weight),
        -1 <= compare_records(a, b, rules, weight) <= 1,
    decreases rules.len(),
{
    if rules.len() > 0 {
        lemma_compare_antisymmetric(a, b, rules.drop_first(), weight);
    }
}

proof fn lemma_compare_transitive(a: &Record, b: &Record, c: &Record, rules: Seq<SortRule>, weight: Weight)
    requires
        compare_records(a, b, rules, weight) <= 0,
        compare_records(b, c, rules, weight) <= 0,
    ensures
        compare_records(a, c, rules, weight) <= 0,
    decreases rules.len(),
{
    if rules.len() > 0 {
        let m = rules[0].metric;
        let (x, y, z) = (a.spec_sum(m, weight), b.spec_sum(m, weight), c.spec_sum(m, weight));
        if compare_sums(x, y) == 0 && compare_sums(y, z) == 0 {
            lemma_compare_transitive(a, b, c, rules.drop_first(), weight);
        }
    }
}

fn compare_sums_exec(a: Option<u64>, b: Option<u64>) -> (r: i8)
    ensures
        r == compare_sums(a, b),
{
    match (a, b) {
        (None, None) => 0,
        (None, Some(_)) => -1,
        (Some(_), None) => 1,
        (Some(x), Some(y)) => if x < y {
            -1
        } else if x > y {
            1
        } else {
            0
        },
    }
}

/// [`compare_records`]
pub fn compare(a: &Record, b: &Record, rules: &[SortRule], weight: Weight) -> (r: i8)
    ensures
        r == compare_records(a, b, rules@, weight),
{
    let mut k: usize = 0;
    assert(rules@.skip(0) =~= rules@);
    while k < rules.len()
        invariant
            k <= rules@.len(),
            compare_records(a, b, rules@, weight) == compare_records(a, b, rules@.skip(k as int), weight),
        decreases rules.len() - k,
    {
        let c = compare_sums_exec(a.sum(rules[k].metric, weight), b.sum(rules[k].metric, weight));
        let c = match rules[k].sort_direction {
            SortDirection::Ascending => c,
            SortDirection::Descending => -c,
        };
        proof {
            assert(rules@.skip(k as int)[0] == rules@[k as int]);
            assert(rules@.skip(k as int).drop_first() =~= rules@.skip(k + 1));
        }
        if c != 0 {
            return c;
        }
        k = k + 1;
    }
    0
}

/// No rule tells the two records apart.
pub open spec fn same_under_rules(rules: Seq<SortRule>, weight: Weight) -> spec_fn(Record, Record) -> bool {
    |a: Record, b: Record| compare_records(&a, &b, rules, weight) == 0
}

/// The records are in order under the rules.
pub open spec fn sorted_by(records: Seq<Record>, rules: Seq<SortRule>, weight: Weight) -> bool {
    forall|i: int, j: int| 0 <= i < j < records.len() ==> compare_records(&#[trigger] records[i], &#[trigger] records[j], rules, weight) <= 0
}

/// Sorts the records under the rules; records that no rule tells apart keep
/// their order.
pub fn sort_records(records: &mut Vec<Record>, sort_rules: &[SortRule], weight: Weight)
    ensures
        final(records)@.to_multiset() == old(records)@.to_multiset(),
        sorted_by(final(records)@, sort_rules@, weight),
        stably_arranged(final(records)@, old(records)@, same_under_rules(sort_rules@, weight)),
{
    broadcast use vstd::seq_lib::group_to_multiset_ensures;
    let ghost r0 = records@;
    let ghost tie = same_under_rules(sort_rules@, weight);
    let ghost mut idx: Seq<int> = Seq::empty();
    let ghost mut done: int = 0;
    let mut sorted: Vec<Record> = Vec::new();
    proof {
        assert(r0.skip(0) =~= r0);
        vstd::seq_lib::to_multiset_len(sorted@);
        vstd::multiset::lemma_multiset_empty_len(sorted@.to_multiset());
        broadcast use vstd::multiset::group_multiset_axioms;
        assert(sorted@.to_multiset().add(records@.to_multiset()) =~= r0.to_multiset());
    }
    while records.len() > 0
        invariant
            sorted@.to_multiset().add(records@.to_multiset()) == r0.to_multiset(),
            sorted_by(sorted@, sort_rules@, weight),
            tie == same_under_rules(sort_rules@, weight),
            0 <= done <= r0.len(),
            records@ == r0.skip(done),
            is_stable_arrangement(sorted@, r0.take(done), idx, tie),
        decreases records.len(),
    {
        let ghost rest0 = records@;
        let x = records.remove(0);
        assert(x == r0[done]);
        proof {
            assert(rest0 =~= seq![x] + records@);
            vstd::seq_lib::lemma_multiset_commutative(seq![x], records@);
            assert(seq![x] =~= Seq::<Record>::empty().push(x));
            vstd::seq_lib::to_multiset_build(Seq::<Record>::empty(), x);
        }
        // after every record that `x` does not come before
        let mut p: usize = sorted.len();
        while p > 0 && compare(&sorted[p - 1], &x, sort_rules, weight) > 0
            invariant
                p <= sorted@.len(),
                sorted_by(sorted@, sort_rules@, weight),
                forall|k: int| p <= k < sorted@.len() ==> compare_records(&#[trigger] sorted@[k], &x, sort_rules@, weight) > 0,
            decreases p,
        {
            p = p - 1;
        }
        let ghost before = sorted@;
        let ghost idx0 = idx;
        sorted.insert(p, x);
        proof {
            let f = sorted@;
            assert(f =~= before.insert(p as int, x));
            idx = idx0.insert(p as int, done);
            lemma_arrangement_insert(before, r0, idx0, tie, done, p as int, x);
            assert forall|j: int| p < j < f.len() implies !tie(x, #[trigger] f[j]) by {
                assert(f[j] == before[j - 1]);
                lemma_compare_antisymmetric(&before[j - 1], &x, sort_rules@, weight);
            }
            lemma_arrangement_extend(f, r0, idx, tie, done, p as int);
            done = done + 1;
            assert(records@ =~= r0.skip(done));
            assert forall|i: int, j: int| 0 <= i < j < f.len() implies compare_records(&#[trigger] f[i], &#[trigger] f[j], sort_rules@, weight) <= 0 by {
                if j < p {
                    assert(f[i] == before[i] && f[j] == before[j]);
                } else if j == p {
                    assert(f[i] == before[i]);
                    if i < p - 1 {
                        lemma_compare_transitive(&before[i], &before[p - 1], &x, sort_rules@, weight);
                    }
                } else if i < p {
                    assert(f[i] == before[i] && f[j] == before[j - 1]);
                } else if i == p {
                    assert(f[j] == before[j - 1]);
                    lemma_compare_antisymmetric(&before[j - 1], &x, sort_rules@, weight);
                } else {
                    assert(f[i] == before[i - 1] && f[j] == before[j - 1]);
                }
            }
            vstd::seq_lib::to_multiset_insert(before, p as int, x);
            broadcast use vstd::multiset::group_multiset_axioms;
            vstd::seq_lib::to_multiset_len(Seq::<Record>::empty());
            vstd::multiset::lemma_multiset_empty_len(Seq::<Record>::empty().to_multiset());
            assert(Seq::<Record>::empty().to_multiset() =~= Multiset::empty());
            assert(seq![x].to_multiset() =~= Multiset::empty().insert(x));
            assert(rest0.to_multiset() == seq![x].to_multiset().add(records@.to_multiset()));
            assert(before.to_multiset().add(rest0.to_multiset()) == r0.to_multiset());
            assert(sorted@.to_multiset() == before.to_multiset().insert(x));
            assert(sorted@.to_multiset().add(records@.to_multiset()) =~= r0.to_multiset());
        }
    }
    proof {
        assert(r0.take(done) =~= r0);
    }
    *records = sorted;
}


fn contains_metric(detailed: &[Metric], m: Metric) -> (r: bool)
    ensures
        r == detailed@.contains(m),
{
    let mut k: usize = 0;
    while k < detailed.len()
        invariant
            k <= detailed@.len(),
            forall|j: int| 0 <= j < k ==> detailed@[j] != m,
        decreases detailed.len() - k,
    {
        if detailed[k] == m {
            return true;
        }
        k = k + 1;
    }
    false
}


/// Measurement `i` of a record: the metric's fingerings scored on the
/// matrix, with the list of scores where the metric is detailed.
pub open spec fn unigram_measured(ms: Seq<Measurement<UnigramKey>>, fs: Seq<UnigramFingering>, m: Seq<Seq<u8>>, t: Seq<u64>, detailed: Seq<Metric>) -> bool {
    &&& ms.len() == 12
    &&& forall|i: int|
        0 <= i < 12 ==> {
            let metric = UnigramMetric::spec_all()[i];
            let f = fs.filter(|x: UnigramFingering| metric.spec_accepts(x));
            let me = #[trigger] ms[i];
            &&& me.sum == capped(unigram_raw_sum(f, m, t))
            &&& me.sum_ew == capped(unigram_weighted_sum(f, m, t))
            &&& (me.opt_details is Some <==> detailed.contains(Metric::Unigram(metric)))
            &&& me.opt_details matches Some(d) ==> d@.len() == f.len()
        }
}

fn measure_unigram(
    m: &[[u8; 16]; 8],
    fs: &UnigramFingerings,
    table: &Vec<u64>,
    detailed: &[Metric],
) -> (r: Vec<Measurement<UnigramKey>>)
    requires
        fs.wf(),
        unigrams_fit(fs.spec_all(), 8, 16),
        table@.len() == UNIGRAM_TABLE_LEN,
    ensures
        unigram_measured(r@, fs.spec_all(), cells_of(*m), table@, detailed@),
{
    let metrics = UnigramMetric::variants();
    let mut r: Vec<Measurement<UnigramKey>> = Vec::new();
    let mut i: usize = 0;
    while i < metrics.len()
        invariant
            i <= metrics@.len(),
            metrics@ == UnigramMetric::spec_all(),
            metrics@.len() == 12,
            fs.wf(),
            unigrams_fit(fs.spec_all(), 8, 16),
            table@.len() == UNIGRAM_TABLE_LEN,
            r@.len() == i,
            forall|j: int|
                0 <= j < i ==> {
                    let metric = UnigramMetric::spec_all()[j];
                    let f = fs.spec_all().filter(|x: UnigramFingering| metric.spec_accepts(x));
                    let me = #[trigger] r@[j];
                    &&& me.sum == capped(unigram_raw_sum(f, cells_of(*m), table@))
                    &&& me.sum_ew == capped(unigram_weighted_sum(f, cells_of(*m), table@))
                    &&& (me.opt_details is Some <==> detailed@.contains(Metric::Unigram(metric)))
                    &&& me.opt_details matches Some(d) ==> d@.len() == f.len()
                },
        decreases metrics.len() - i,
    {
        let metric = metrics[i];
        let f = fs.get_by_metric(metric);
        proof {
            lemma_filter_fits_unigram(fs.spec_all(), |x: UnigramFingering| metric.spec_accepts(x), 8, 16);
        }
        let mode = if contains_metric(detailed, Metric::Unigram(metric)) {
            ScoreMode::Detailed
        } else {
            ScoreMode::Summary
        };
        let (d, sum, sum_ew) = score_ufs(f.as_slice(), m, table, mode);
        r.push(Measurement::new(d, sum, sum_ew));
        i = i + 1;
    }
    r
}


/// Measurement `i` of a record: the metric's fingerings scored on the
/// matrix, with the list of scores where the metric is detailed.
pub open spec fn bigram_measured(ms: Seq<Measurement<BigramKey>>, fs: Seq<BigramFingering>, m: Seq<Seq<u8>>, t: Seq<u64>, detailed: Seq<Metric>) -> bool {
    &&& ms.len() == 6
    &&& forall|i: int|
        0 <= i < 6 ==> {
            let metric = BigramMetric::spec_all()[i];
            let f = fs.filter(|x: BigramFingering| metric.spec_accepts(x));
            let me = #[trigger] ms[i];
            &&& me.sum == capped(bigram_raw_sum(f, m, t))
            &&& me.sum_ew == capped(bigram_weighted_sum(f, m, t))
            &&& (me.opt_details is Some <==> detailed.contains(Metric::Bigram(metric)))
            &&& me.opt_details matches Some(d) ==> d@.len() == f.len()
        }
}

fn measure_bigram(
    m: &[[u8; 16]; 8],
    fs: &BigramFingerings,
    table: &Vec<u64>,
    detailed: &[Metric],
) -> (r: Vec<Measurement<BigramKey>>)
    requires
        fs.wf(),
        bigrams_fit(fs.spec_all(), 8, 16),
        table@.len() == BIGRAM_TABLE_LEN,
    ensures
        bigram_measured(r@, fs.spec_all(), cells_of(*m), table@, detailed@),
{
    let metrics = BigramMetric::variants();
    let mut r: Vec<Measurement<BigramKey>> = Vec::new();
    let mut i: usize = 0;
    while i < metrics.len()
        invariant
            i <= metrics@.len(),
            metrics@ == BigramMetric::spec_all(),
            metrics@.len() == 6,
            fs.wf(),
            bigrams_fit(fs.spec_all(), 8, 16),
            table@.len() == BIGRAM_TABLE_LEN,
            r@.len() == i,
            forall|j: int|
                0 <= j < i ==> {
                    let metric = BigramMetric::spec_all()[j];
                    let f = fs.spec_all().filter(|x: BigramFingering| metric.spec_accepts(x));
                    let me = #[trigger] r@[j];
                    &&& me.sum == capped(bigram_raw_sum(f, cells_of(*m), table@))
                    &&& me.sum_ew == capped(bigram_weighted_sum(f, cells_of(*m), table@))
                    &&& (me.opt_details is Some <==> detailed@.contains(Metric::Bigram(metric)))
                    &&& me.opt_details matches Some(d) ==> d@.len() == f.len()
                },
        decreases metrics.len() - i,
    {
        let metric = metrics[i];
        let f = fs.get_by_metric(metric);
        proof {
            lemma_filter_fits_bigram(fs.spec_all(), |x: BigramFingering| metric.spec_accepts(x), 8, 16);
        }
        let mode = if contains_metric(detailed, Metric::Bigram(metric)) {
            ScoreMode::Detailed
        } else {
            ScoreMode::Summary
        };
        let (d, sum, sum_ew) = score_bfs(f.as_slice(), m, table, mode);
        r.push(Measurement::new(d, sum, sum_ew));
        i = i + 1;
    }
    r
}


/// Measurement `i` of a record: the metric's fingerings scored on the
/// matrix, with the list of scores where the metric is detailed.
pub open spec fn trigram_measured(ms: Seq<Measurement<TrigramKey>>, fs: Seq<TrigramFingering>, m: Seq<Seq<u8>>, t: Seq<u64>, detailed: Seq<Metric>) -> bool {
    &&& ms.len() == 4
    &&& forall|i: int|
        0 <= i < 4 ==> {
            let metric = TrigramMetric::spec_all()[i];
            let f = fs.filter(|x: TrigramFingering| metric.spec_accepts(x));
            let me = #[trigger] ms[i];
            &&& me.sum == capped(trigram_raw_sum(f, m, t))
            &&& me.sum_ew == capped(trigram_weighted_sum(f, m, t))
            &&& (me.opt_details is Some <==> detailed.contains(Metric::Trigram(metric)))
            &&& me.opt_details matches Some(d) ==> d@.len() == f.len()
        }
}

fn measure_trigram(
    m: &[[u8; 16]; 8],
    fs: &TrigramFingerings,
    table: &Vec<u64>,
    detailed: &[Metric],
) -> (r: Vec<Measurement<TrigramKey>>)
    requires
        fs.wf(),
        trigrams_fit(fs.spec_all(), 8, 16),
        table@.len() == TRIGRAM_TABLE_LEN,
    ensures
        trigram_measured(r@, fs.spec_all(), cells_of(*m), table@, detailed@),
{
    let metrics = TrigramMetric::variants();
    let mut r: Vec<Measurement<TrigramKey>> = Vec::new();
    let mut i: usize = 0;
    while i < metrics.len()
        invariant
            i <= metrics@.len(),
            metrics@ == TrigramMetric::spec_all(),
            metrics@.len() == 4,
            fs.wf(),
            trigrams_fit(fs.spec_all(), 8, 16),
            table@.len() == TRIGRAM_TABLE_LEN,
            r@.len() == i,
            forall|j: int|
                0 <= j < i ==> {
                    let metric = TrigramMetric::spec_all()[j];
                    let f = fs.spec_all().filter(|x: TrigramFingering| metric.spec_accepts(x));
                    let me = #[trigger] r@[j];
                    &&& me.sum == capped(trigram_raw_sum(f, cells_of(*m), table@))
                    &&& me.sum_ew == capped(trigram_weighted_sum(f, cells_of(*m), table@))
                    &&& (me.opt_details is Some <==> detailed@.contains(Metric::Trigram(metric)))
                    &&& me.opt_details matches Some(d) ==> d@.len() == f.len()
                },
        decreases metrics.len() - i,
    {
        let metric = metrics[i];
        let f = fs.get_by_metric(metric);
        proof {
            lemma_filter_fits_trigram(fs.spec_all(), |x: TrigramFingering| metric.spec_accepts(x), 8, 16);
        }
        let mode = if contains_metric(detailed, Metric::Trigram(metric)) {
            ScoreMode::Detailed
        } else {
            ScoreMode::Summary
        };
        let (d, sum, sum_ew) = score_tfs(f.as_slice(), m, table, mode);
        r.push(Measurement::new(d, sum, sum_ew));
        i = i + 1;
    }
    r
}

/// Measures a key matrix on every metric: the fingerings of each metric
/// scored on the matrix, with the list of scores for the metrics in
/// `detailed`, and the sums over all fingerings of each arity.
pub fn measure(
    m: [[u8; 16]; 8],
    us: &UnigramFingerings,
    bs: &BigramFingerings,
    ts: &TrigramFingerings,
    ut: &Vec<u64>,
    bt: &Vec<u64>,
    tt: &Vec<u64>,
    detailed: &[Metric],
) -> (r: Record)
    requires
        us.wf(),
        bs.wf(),
        ts.wf(),
        unigrams_fit(us.spec_all(), 8, 16),
        bigrams_fit(bs.spec_all(), 8, 16),
        trigrams_fit(ts.spec_all(), 8, 16),
        ut@.len() == UNIGRAM_TABLE_LEN,
        bt@.len() == BIGRAM_TABLE_LEN,
        tt@.len() == TRIGRAM_TABLE_LEN,
    ensures
        r.key_table_matrix == m,
        unigram_measured(r.unigram_measurements@, us.spec_all(), cells_of(m), ut@, detailed@),
        bigram_measured(r.bigram_measurements@, bs.spec_all(), cells_of(m), bt@, detailed@),
        trigram_measured(r.trigram_measurements@, ts.spec_all(), cells_of(m), tt@, detailed@),
        r.uf_sum == capped(unigram_raw_sum(us.spec_all(), cells_of(m), ut@)),
        r.uf_sum_ew == capped(unigram_weighted_sum(us.spec_all(), cells_of(m), ut@)),
        r.bf_sum == capped(bigram_raw_sum(bs.spec_all(), cells_of(m), bt@)),
        r.bf_sum_ew == capped(bigram_weighted_sum(bs.spec_all(), cells_of(m), bt@)),
        r.tf_sum == capped(trigram_raw_sum(ts.spec_all(), cells_of(m), tt@)),
        r.tf_sum_ew == capped(trigram_weighted_sum(ts.spec_all(), cells_of(m), tt@)),
{
    let unigram_measurements = measure_unigram(&m, us, ut, detailed);
    let bigram_measurements = measure_bigram(&m, bs, bt, detailed);
    let trigram_measurements = measure_trigram(&m, ts, tt, detailed);
    let (_, uf_sum, uf_sum_ew) = score_ufs(us.get().as_slice(), &m, ut, ScoreMode::Summary);
    let (_, bf_sum, bf_sum_ew) = score_bfs(bs.get().as_slice(), &m, bt, ScoreMode::Summary);
    let (_, tf_sum, tf_sum_ew) = score_tfs(ts.get().as_slice(), &m, tt, ScoreMode::Summary);
    Record {
        key_table_matrix: m,
        unigram_measurements,
        bigram_measurements,
        trigram_measurements,
        uf_sum,
        uf_sum_ew,
        bf_sum,
        bf_sum_ew,
        tf_sum,
        tf_sum_ew,
    }
}

} // verus!
