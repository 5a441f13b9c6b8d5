use vstd::arithmetic::div_mod::lemma_fundamental_div_mod;
use vstd::prelude::*;

use crate::fingerings::{BigramFingering, TrigramFingering, UnigramFingering};
use crate::ngrams::{
    pack2, pack3, BigramKey, TrigramKey, UnigramKey, BIGRAM_TABLE_LEN, TRIGRAM_TABLE_LEN,
    UNIGRAM_TABLE_LEN,
};
use crate::tables::cells_of;
use crate::weights::Weight;

verus! {

/// `w` is `⌊v · √q⌋`: the largest integer whose square is at most `v² · q`.
pub open spec fn is_floor_scaled(w: nat, v: nat, q: nat) -> bool {
    is_isqrt(w, v * v * q)
}

/// `w` is `⌊√x⌋`.
pub open spec fn is_isqrt(w: nat, x: nat) -> bool {
    w * w <= x && x < (w + 1) * (w + 1)
}

/// `⌊v · √q⌋`
pub open spec fn floor_scaled(v: nat, q: nat) -> nat {
    isqrt(v * v * q)
}

/// `⌊√x⌋`
pub open spec fn isqrt(x: nat) -> nat {
    choose|w: nat| is_isqrt(w, x)
}

/// The effort-weighted value of a count `v` under a squared effort `q`:
/// `⌊v · √q⌋`, truncated after the multiplication, at most `u64::MAX`.
pub open spec fn weighted(v: nat, q: nat) -> nat {
    if floor_scaled(v, q) > u64::MAX {
        u64::MAX as nat
    } else {
        floor_scaled(v, q)
    }
}

proof fn lemma_isqrt_exists(x: nat)
    ensures
        exists|w: nat| is_isqrt(w, x),
    decreases x,
{
    if x == 0 {
        assert(is_isqrt(0, x)) by (nonlinear_arith)
            requires x == 0;
    } else {
        lemma_isqrt_exists((x - 1) as nat);
        let y = (x - 1) as nat;
        let w = choose|w: nat| is_isqrt(w, y);
        if (w + 1) * (w + 1) <= x {
            assert((w + 1) * (w + 1) == x);
            assert(x < (w + 2) * (w + 2)) by (nonlinear_arith)
                requires (w + 1) * (w + 1) == x;
            assert(is_isqrt(w + 1, x));
        } else {
            assert(is_isqrt(w, x));
        }
    }
}

proof fn lemma_floor_scaled_unique(a: nat, b: nat, v: nat, q: nat)
    requires
        is_floor_scaled(a, v, q),
        is_floor_scaled(b, v, q),
    ensures
        a == b,
{
    let x = v * v * q;
    if a < b {
        assert((a + 1) * (a + 1) <= b * b) by (nonlinear_arith)
            requires a + 1 <= b;
    } else if b < a {
        assert((b + 1) * (b + 1) <= a * a) by (nonlinear_arith)
            requires b + 1 <= a;
    }
}

/// Whether `x² ≤ v² · q`, without leaving 128 bits.
fn square_within(x: u64, v: u64, q: u64) -> (r: bool)
    ensures
        r == (x as nat * x as nat <= v as nat * v as nat * q as nat),
{
    assert(x as u128 * x as u128 <= 0xffff_ffff_ffff_fffe_0000_0000_0000_0001) by (nonlinear_arith)
        requires x <= 0xffff_ffff_ffff_ffffu64;
    assert(v as u128 * v as u128 <= 0xffff_ffff_ffff_fffe_0000_0000_0000_0001) by (nonlinear_arith)
        requires v <= 0xffff_ffff_ffff_ffffu64;
    let xx: u128 = x as u128 * x as u128;
    let vv: u128 = v as u128 * v as u128;
    if q == 0 {
        assert(v as nat * v as nat * 0 == 0);
        xx == 0
    } else {
        let d: u128 = xx / q as u128;
        let m: u128 = xx % q as u128;
        proof {
            lemma_fundamental_div_mod(xx as int, q as int);
            assert(d <= xx) by (nonlinear_arith)
                requires d == xx / (q as u128), q >= 1;
        }
        let up: u128 = if m == 0 { d } else { d + 1 };
        proof {
            let qq = q as int;
            let dd = d as int;
            let mm = m as int;
            let w = vv as int;
            assert(xx as int == qq * dd + mm);
            if m == 0 {
                assert((qq * dd <= w * qq) == (dd <= w)) by (nonlinear_arith)
                    requires qq > 0;
            } else {
                assert((qq * dd + mm <= w * qq) == (dd + 1 <= w)) by (nonlinear_arith)
                    requires qq > 0, 0 < mm < qq;
            }
            assert(v as nat * v as nat * q as nat == w * qq);
        }
        up <= vv
    }
}

/// `⌊v · √q⌋`, at most `u64::MAX`.
pub fn weighted_value(v: u64, q: u64) -> (w: u64)
    ensures
        w == weighted(v as nat, q as nat),
{
    proof {
        lemma_isqrt_exists(v as nat * v as nat * q as nat);
    }
    if q == 0 {
        proof {
            assert(v as nat * v as nat * 0 == 0) by (nonlinear_arith);
            assert(is_floor_scaled(0, v as nat, 0)) by (nonlinear_arith)
                requires v as nat * v as nat * 0 == 0;
            lemma_floor_scaled_unique(0, floor_scaled(v as nat, 0), v as nat, 0);
        }
        return 0;
    }
    if q == 1 {
        proof {
            assert(is_floor_scaled(v as nat, v as nat, 1)) by (nonlinear_arith);
            lemma_floor_scaled_unique(v as nat, floor_scaled(v as nat, 1), v as nat, 1);
        }
        return v;
    }
    let mut lo: u128 = 0;
    let mut hi: u128 = 0x1_0000_0000_0000_0000;
    assert(0nat * 0 <= v as nat * v as nat * q as nat);
    while hi - lo > 1
        invariant
            lo < hi <= 0x1_0000_0000_0000_0000,
            lo as nat * lo as nat <= v as nat * v as nat * q as nat,
            hi < 0x1_0000_0000_0000_0000 ==> (v as nat * v as nat * q as nat) < (hi as nat * hi as nat),
        decreases hi - lo,
    {
        let mid: u128 = lo + (hi - lo) / 2;
        if square_within(mid as u64, v, q) {
            lo = mid;
        } else {
            hi = mid;
        }
    }
    proof {
        let f = floor_scaled(v as nat, q as nat);
        let x = v as nat * v as nat * q as nat;
        assert(is_floor_scaled(f, v as nat, q as nat));
        if hi < 0x1_0000_0000_0000_0000 {
            assert(hi == lo + 1);
            assert(is_floor_scaled(lo as nat, v as nat, q as nat));
            lemma_floor_scaled_unique(lo as nat, f, v as nat, q as nat);
        } else {
            assert(lo == u64::MAX);
            if f < lo {
                assert((f + 1) * (f + 1) <= lo as nat * lo as nat) by (nonlinear_arith)
                    requires f + 1 <= lo as nat;
            }
        }
    }
    lo as u64
}

/// The score of one fingering on one key matrix.
#[derive(Debug, PartialEq, Eq, Structural)]
pub struct Score<K> {
    pub key: K,
    pub value: u64,
    pub value_ew: u64,
}

impl<K> Score<K> {
    pub fn is_zero(&self) -> (r: bool)
        ensures
            r == (self.value == 0 && self.value_ew == 0),
    {
        self.value == 0 && self.value_ew == 0
    }
}

/// Whether the scoring kernel lists each score or only sums them.
#[derive(Clone, Copy, Debug, PartialEq, Eq, Structural)]
pub enum ScoreMode {
    Detailed,
    Summary,
}

/// `Σ_{i < n} f(i)`
pub open spec fn sum_to(n: nat, f: spec_fn(int) -> nat) -> nat
    decreases n,
{
    if n == 0 {
        0
    } else {
        sum_to((n - 1) as nat, f) + f(n - 1)
    }
}

pub open spec fn capped(x: nat) -> nat {
    if x > u64::MAX {
        u64::MAX as nat
    } else {
        x
    }
}

/// Every position of every fingering lies on the matrix.
pub open spec fn unigrams_fit(fs: Seq<UnigramFingering>, rows: nat, columns: nat) -> bool {
    forall|i: int| 0 <= i < fs.len() ==> (#[trigger] fs[i]).0.0 < rows && fs[i].0.1 < columns
}

pub open spec fn bigrams_fit(fs: Seq<BigramFingering>, rows: nat, columns: nat) -> bool {
    forall|i: int|
        0 <= i < fs.len() ==> (#[trigger] fs[i]).0.0 < rows && fs[i].0.1 < columns && fs[i].1.0
            < rows && fs[i].1.1 < columns
}

pub open spec fn trigrams_fit(fs: Seq<TrigramFingering>, rows: nat, columns: nat) -> bool {
    forall|i: int|
        0 <= i < fs.len() ==> (#[trigger] fs[i]).0.0 < rows && fs[i].0.1 < columns && fs[i].1.0
            < rows && fs[i].1.1 < columns && fs[i].2.0 < rows && fs[i].2.1 < columns
}

/// The packed key that a fingering reads off a key matrix.
pub open spec fn unigram_key(f: UnigramFingering, m: Seq<Seq<u8>>) -> nat {
    m[f.0.0 as int][f.0.1 as int] as nat
}

pub open spec fn bigram_key(f: BigramFingering, m: Seq<Seq<u8>>) -> nat {
    pack2(m[f.0.0 as int][f.0.1 as int], m[f.1.0 as int][f.1.1 as int])
}

pub open spec fn trigram_key(f: TrigramFingering, m: Seq<Seq<u8>>) -> nat {
    pack3(
        m[f.0.0 as int][f.0.1 as int],
        m[f.1.0 as int][f.1.1 as int],
        m[f.2.0 as int][f.2.1 as int],
    )
}

/// `Σ_f T[key(f)]` over unigram fingerings.
pub open spec fn unigram_raw_sum(fs: Seq<UnigramFingering>, m: Seq<Seq<u8>>, t: Seq<u64>) -> nat {
    sum_to(fs.len(), |i: int| t[unigram_key(fs[i], m) as int] as nat)
}

/// `Σ_f ⌊T[key(f)] · effort(f)⌋` over unigram fingerings.
pub open spec fn unigram_weighted_sum(fs: Seq<UnigramFingering>, m: Seq<Seq<u8>>, t: Seq<u64>) -> nat {
    sum_to(fs.len(), |i: int| weighted(t[unigram_key(fs[i], m) as int] as nat, fs[i].1.0 as nat))
}

pub open spec fn bigram_raw_sum(fs: Seq<BigramFingering>, m: Seq<Seq<u8>>, t: Seq<u64>) -> nat {
    sum_to(fs.len(), |i: int| t[bigram_key(fs[i], m) as int] as nat)
}

pub open spec fn bigram_weighted_sum(fs: Seq<BigramFingering>, m: Seq<Seq<u8>>, t: Seq<u64>) -> nat {
    sum_to(fs.len(), |i: int| weighted(t[bigram_key(fs[i], m) as int] as nat, fs[i].2.0 as nat))
}

pub open spec fn trigram_raw_sum(fs: Seq<TrigramFingering>, m: Seq<Seq<u8>>, t: Seq<u64>) -> nat {
    sum_to(fs.len(), |i: int| t[trigram_key(fs[i], m) as int] as nat)
}

pub open spec fn trigram_weighted_sum(fs: Seq<TrigramFingering>, m: Seq<Seq<u8>>, t: Seq<u64>) -> nat {
    sum_to(fs.len(), |i: int| weighted(t[trigram_key(fs[i], m) as int] as nat, fs[i].3.0 as nat))
}


/// Scores one unigram fingering: the unigram that it reads off the matrix, its
/// count, and its count weighted by effort.
pub fn score_uf<const C: usize, const R: usize>(
    f: &UnigramFingering,
    key_table_matrix: &[[u8; C]; R],
    table: &Vec<u64>,
) -> (s: Score<UnigramKey>)
    requires
        unigrams_fit(seq![*f], R as nat, C as nat),
        table@.len() == UNIGRAM_TABLE_LEN,
    ensures
        s.key.0 == unigram_key(*f, cells_of(*key_table_matrix)),
        s.value == table@[s.key.0 as int],
        s.value_ew == weighted(s.value as nat, f.1.0 as nat),
{
    assert(unigrams_fit(seq![*f], R as nat, C as nat) ==> seq![*f][0] == *f);
    let m = key_table_matrix;
    let key = UnigramKey::from_byte(m[f.0.0][f.0.1]);
    let value = table[key.as_usize()];
    let value_ew = weighted_value(value, f.1.0);
    Score { key, value, value_ew }
}

/// Scores each of `fs` on the matrix, in order, and sums the counts and the
/// weighted counts (each sum at most `u64::MAX`).
pub fn score_ufs_with_details<const C: usize, const R: usize>(
    fs: &[UnigramFingering],
    key_table_matrix: &[[u8; C]; R],
    table: &Vec<u64>,
) -> (r: (Vec<Score<UnigramKey>>, u64, u64))
    requires
        unigrams_fit(fs@, R as nat, C as nat),
        table@.len() == UNIGRAM_TABLE_LEN,
    ensures
        r.0@.len() == fs@.len(),
        forall|i: int|
            0 <= i < fs@.len() ==> {
                let s = #[trigger] r.0@[i];
                &&& s.key.0 == unigram_key(fs@[i], cells_of(*key_table_matrix))
                &&& s.value == table@[s.key.0 as int]
                &&& s.value_ew == weighted(s.value as nat, fs@[i].1.0 as nat)
            },
        r.1 == capped(unigram_raw_sum(fs@, cells_of(*key_table_matrix), table@)),
        r.2 == capped(unigram_weighted_sum(fs@, cells_of(*key_table_matrix), table@)),
{
    let ghost m = cells_of(*key_table_matrix);
    let ghost fraw = |i: int| table@[unigram_key(fs@[i], m) as int] as nat;
    let ghost few = |i: int| weighted(table@[unigram_key(fs@[i], m) as int] as nat, fs@[i].1.0 as nat);
    let mut scores: Vec<Score<UnigramKey>> = Vec::new();
    let mut a: u64 = 0;
    let mut a_ew: u64 = 0;
    let mut i: usize = 0;
    while i < fs.len()
        invariant
            i <= fs@.len(),
            unigrams_fit(fs@, R as nat, C as nat),
            table@.len() == UNIGRAM_TABLE_LEN,
            m == cells_of(*key_table_matrix),
            fraw == (|i: int| table@[unigram_key(fs@[i], m) as int] as nat),
            few == (|i: int| weighted(table@[unigram_key(fs@[i], m) as int] as nat, fs@[i].1.0 as nat)),
            scores@.len() == i,
            forall|j: int|
                0 <= j < i ==> {
                    let s = #[trigger] scores@[j];
                    &&& s.key.0 == unigram_key(fs@[j], m)
                    &&& s.value == table@[s.key.0 as int]
                    &&& s.value_ew == weighted(s.value as nat, fs@[j].1.0 as nat)
                },
            a == capped(sum_to(i as nat, fraw)),
            a_ew == capped(sum_to(i as nat, few)),
        decreases fs.len() - i,
    {
        assert(unigrams_fit(seq![fs@[i as int]], R as nat, C as nat));
        let s = score_uf(&fs[i], key_table_matrix, table);
        a = a.saturating_add(s.value);
        a_ew = a_ew.saturating_add(s.value_ew);
        scores.push(s);
        i = i + 1;
    }
    (scores, a, a_ew)
}

/// Sums the counts and the weighted counts of `fs` on the matrix (each sum at
/// most `u64::MAX`), without listing them.
pub fn score_ufs_without_details<const C: usize, const R: usize>(
    fs: &[UnigramFingering],
    key_table_matrix: &[[u8; C]; R],
    table: &Vec<u64>,
) -> (r: (u64, u64))
    requires
        unigrams_fit(fs@, R as nat, C as nat),
        table@.len() == UNIGRAM_TABLE_LEN,
    ensures
        r.0 == capped(unigram_raw_sum(fs@, cells_of(*key_table_matrix), table@)),
        r.1 == capped(unigram_weighted_sum(fs@, cells_of(*key_table_matrix), table@)),
{
    let ghost m = cells_of(*key_table_matrix);
    let ghost fraw = |i: int| table@[unigram_key(fs@[i], m) as int] as nat;
    let ghost few = |i: int| weighted(table@[unigram_key(fs@[i], m) as int] as nat, fs@[i].1.0 as nat);
    let mut a: u64 = 0;
    let mut a_ew: u64 = 0;
    let mut i: usize = 0;
    while i < fs.len()
        invariant
            i <= fs@.len(),
            unigrams_fit(fs@, R as nat, C as nat),
            table@.len() == UNIGRAM_TABLE_LEN,
            m == cells_of(*key_table_matrix),
            fraw == (|i: int| table@[unigram_key(fs@[i], m) as int] as nat),
            few == (|i: int| weighted(table@[unigram_key(fs@[i], m) as int] as nat, fs@[i].1.0 as nat)),
            a == capped(sum_to(i as nat, fraw)),
            a_ew == capped(sum_to(i as nat, few)),
        decreases fs.len() - i,
    {
        assert(unigrams_fit(seq![fs@[i as int]], R as nat, C as nat));
        let s = score_uf(&fs[i], key_table_matrix, table);
        a = a.saturating_add(s.value);
        a_ew = a_ew.saturating_add(s.value_ew);
        i = i + 1;
    }
    (a, a_ew)
}

/// Scores `fs` on the matrix: the list of scores where `mode` asks for it,
/// and the two sums in either case.
pub fn score_ufs<const C: usize, const R: usize>(
    fs: &[UnigramFingering],
    key_table_matrix: &[[u8; C]; R],
    table: &Vec<u64>,
    mode: ScoreMode,
) -> (r: (Option<Vec<Score<UnigramKey>>>, u64, u64))
    requires
        unigrams_fit(fs@, R as nat, C as nat),
        table@.len() == UNIGRAM_TABLE_LEN,
    ensures
        r.0 is Some <==> mode == ScoreMode::Detailed,
        r.0 matches Some(details) ==> details@.len() == fs@.len() && forall|i: int|
            0 <= i < fs@.len() ==> {
                let s = #[trigger] details@[i];
                &&& s.key.0 == unigram_key(fs@[i], cells_of(*key_table_matrix))
                &&& s.value == table@[s.key.0 as int]
                &&& s.value_ew == weighted(s.value as nat, fs@[i].1.0 as nat)
            },
        r.1 == capped(unigram_raw_sum(fs@, cells_of(*key_table_matrix), table@)),
        r.2 == capped(unigram_weighted_sum(fs@, cells_of(*key_table_matrix), table@)),
{
    match mode {
        ScoreMode::Detailed => {
            let (details, sum, sum_ew) = score_ufs_with_details(fs, key_table_matrix, table);
            (Some(details), sum, sum_ew)
        },
        ScoreMode::Summary => {
            let (sum, sum_ew) = score_ufs_without_details(fs, key_table_matrix, table);
            (None, sum, sum_ew)
        },
    }
}

/// Scores one bigram fingering: the bigram that it reads off the matrix, its
/// count, and its count weighted by effort.
pub fn score_bf<const C: usize, const R: usize>(
    f: &BigramFingering,
    key_table_matrix: &[[u8; C]; R],
    table: &Vec<u64>,
) -> (s: Score<BigramKey>)
    requires
        bigrams_fit(seq![*f], R as nat, C as nat),
        table@.len() == BIGRAM_TABLE_LEN,
    ensures
        s.key.0 == bigram_key(*f, cells_of(*key_table_matrix)),
        s.value == table@[s.key.0 as int],
        s.value_ew == weighted(s.value as nat, f.2.0 as nat),
{
    assert(bigrams_fit(seq![*f], R as nat, C as nat) ==> seq![*f][0] == *f);
    let m = key_table_matrix;
    let key = BigramKey::from_pair(m[f.0.0][f.0.1], m[f.1.0][f.1.1]);
    let value = table[key.as_usize()];
    let value_ew = weighted_value(value, f.2.0);
    Score { key, value, value_ew }
}

/// Scores each of `fs` on the matrix, in order, and sums the counts and the
/// weighted counts (each sum at most `u64::MAX`).
pub fn score_bfs_with_details<const C: usize, const R: usize>(
    fs: &[BigramFingering],
    key_table_matrix: &[[u8; C]; R],
    table: &Vec<u64>,
) -> (r: (Vec<Score<BigramKey>>, u64, u64))
    requires
        bigrams_fit(fs@, R as nat, C as nat),
        table@.len() == BIGRAM_TABLE_LEN,
    ensures
        r.0@.len() == fs@.len(),
        forall|i: int|
            0 <= i < fs@.len() ==> {
                let s = #[trigger] r.0@[i];
                &&& s.key.0 == bigram_key(fs@[i], cells_of(*key_table_matrix))
                &&& s.value == table@[s.key.0 as int]
                &&& s.value_ew == weighted(s.value as nat, fs@[i].2.0 as nat)
            },
        r.1 == capped(bigram_raw_sum(fs@, cells_of(*key_table_matrix), table@)),
        r.2 == capped(bigram_weighted_sum(fs@, cells_of(*key_table_matrix), table@)),
{
    let ghost m = cells_of(*key_table_matrix);
    let ghost fraw = |i: int| table@[bigram_key(fs@[i], m) as int] as nat;
    let ghost few = |i: int| weighted(table@[bigram_key(fs@[i], m) as int] as nat, fs@[i].2.0 as nat);
    let mut scores: Vec<Score<BigramKey>> = Vec::new();
    let mut a: u64 = 0;
    let mut a_ew: u64 = 0;
    let mut i: usize = 0;
    while i < fs.len()
        invariant
            i <= fs@.len(),
            bigrams_fit(fs@, R as nat, C as nat),
            table@.len() == BIGRAM_TABLE_LEN,
            m == cells_of(*key_table_matrix),
            fraw == (|i: int| table@[bigram_key(fs@[i], m) as int] as nat),
            few == (|i: int| weighted(table@[bigram_key(fs@[i], m) as int] as nat, fs@[i].2.0 as nat)),
            scores@.len() == i,
            forall|j: int|
                0 <= j < i ==> {
                    let s = #[trigger] scores@[j];
                    &&& s.key.0 == bigram_key(fs@[j], m)
                    &&& s.value == table@[s.key.0 as int]
                    &&& s.value_ew == weighted(s.value as nat, fs@[j].2.0 as nat)
                },
            a == capped(sum_to(i as nat, fraw)),
            a_ew == capped(sum_to(i as nat, few)),
        decreases fs.len() - i,
    {
        assert(bigrams_fit(seq![fs@[i as int]], R as nat, C as nat));
        let s = score_bf(&fs[i], key_table_matrix, table);
        a = a.saturating_add(s.value);
        a_ew = a_ew.saturating_add(s.value_ew);
        scores.push(s);
        i = i + 1;
    }
    (scores, a, a_ew)
}

/// Sums the counts and the weighted counts of `fs` on the matrix (each sum at
/// most `u64::MAX`), without listing them.
pub fn score_bfs_without_details<const C: usize, const R: usize>(
    fs: &[BigramFingering],
    key_table_matrix: &[[u8; C]; R],
    table: &Vec<u64>,
) -> (r: (u64, u64))
    requires
        bigrams_fit(fs@, R as nat, C as nat),
        table@.len() == BIGRAM_TABLE_LEN,
    ensures
        r.0 == capped(bigram_raw_sum(fs@, cells_of(*key_table_matrix), table@)),
        r.1 == capped(bigram_weighted_sum(fs@, cells_of(*key_table_matrix), table@)),
{
    let ghost m = cells_of(*key_table_matrix);
    let ghost fraw = |i: int| table@[bigram_key(fs@[i], m) as int] as nat;
    let ghost few = |i: int| weighted(table@[bigram_key(fs@[i], m) as int] as nat, fs@[i].2.0 as nat);
    let mut a: u64 = 0;
    let mut a_ew: u64 = 0;
    let mut i: usize = 0;
    while i < fs.len()
        invariant
            i <= fs@.len(),
            bigrams_fit(fs@, R as nat, C as nat),
            table@.len() == BIGRAM_TABLE_LEN,
            m == cells_of(*key_table_matrix),
            fraw == (|i: int| table@[bigram_key(fs@[i], m) as int] as nat),
            few == (|i: int| weighted(table@[bigram_key(fs@[i], m) as int] as nat, fs@[i].2.0 as nat)),
            a == capped(sum_to(i as nat, fraw)),
            a_ew == capped(sum_to(i as nat, few)),
        decreases fs.len() - i,
    {
        assert(bigrams_fit(seq![fs@[i as int]], R as nat, C as nat));
        let s = score_bf(&fs[i], key_table_matrix, table);
        a = a.saturating_add(s.value);
        a_ew = a_ew.saturating_add(s.value_ew);
        i = i + 1;
    }
    (a, a_ew)
}

/// Scores `fs` on the matrix: the list of scores where `mode` asks for it,
/// and the two sums in either case.
pub fn score_bfs<const C: usize, const R: usize>(
    fs: &[BigramFingering],
    key_table_matrix: &[[u8; C]; R],
    table: &Vec<u64>,
    mode: ScoreMode,
) -> (r: (Option<Vec<Score<BigramKey>>>, u64, u64))
    requires
        bigrams_fit(fs@, R as nat, C as nat),
        table@.len() == BIGRAM_TABLE_LEN,
    ensures
        r.0 is Some <==> mode == ScoreMode::Detailed,
        r.0 matches Some(details) ==> details@.len() == fs@.len() && forall|i: int|
            0 <= i < fs@.len() ==> {
                let s = #[trigger] details@[i];
                &&& s.key.0 == bigram_key(fs@[i], cells_of(*key_table_matrix))
                &&& s.value == table@[s.key.0 as int]
                &&& s.value_ew == weighted(s.value as nat, fs@[i].2.0 as nat)
            },
        r.1 == capped(bigram_raw_sum(fs@, cells_of(*key_table_matrix), table@)),
        r.2 == capped(bigram_weighted_sum(fs@, cells_of(*key_table_matrix), table@)),
{
    match mode {
        ScoreMode::Detailed => {
            let (details, sum, sum_ew) = score_bfs_with_details(fs, key_table_matrix, table);
            (Some(details), sum, sum_ew)
        },
        ScoreMode::Summary => {
            let (sum, sum_ew) = score_bfs_without_details(fs, key_table_matrix, table);
            (None, sum, sum_ew)
        },
    }
}

/// Scores one trigram fingering: the trigram that it reads off the matrix, its
/// count, and its count weighted by effort.
pub fn score_tf<const C: usize, const R: usize>(
    f: &TrigramFingering,
    key_table_matrix: &[[u8; C]; R],
    table: &Vec<u64>,
) -> (s: Score<TrigramKey>)
    requires
        trigrams_fit(seq![*f], R as nat, C as nat),
        table@.len() == TRIGRAM_TABLE_LEN,
    ensures
        s.key.0 == trigram_key(*f, cells_of(*key_table_matrix)),
        s.value == table@[s.key.0 as int],
        s.value_ew == weighted(s.value as nat, f.3.0 as nat),
{
    assert(trigrams_fit(seq![*f], R as nat, C as nat) ==> seq![*f][0] == *f);
    let m = key_table_matrix;
    let key = TrigramKey::from_triple(m[f.0.0][f.0.1], m[f.1.0][f.1.1], m[f.2.0][f.2.1]);
    let value = table[key.as_usize()];
    let value_ew = weighted_value(value, f.3.0);
    Score { key, value, value_ew }
}

/// Scores each of `fs` on the matrix, in order, and sums the counts and the
/// weighted counts (each sum at most `u64::MAX`).
pub fn score_tfs_with_details<const C: usize, const R: usize>(
    fs: &[TrigramFingering],
    key_table_matrix: &[[u8; C]; R],
    table: &Vec<u64>,
) -> (r: (Vec<Score<TrigramKey>>, u64, u64))
    requires
        trigrams_fit(fs@, R as nat, C as nat),
        table@.len() == TRIGRAM_TABLE_LEN,
    ensures
        r.0@.len() == fs@.len(),
        forall|i: int|
            0 <= i < fs@.len() ==> {
                let s = #[trigger] r.0@[i];
                &&& s.key.0 == trigram_key(fs@[i], cells_of(*key_table_matrix))
                &&& s.value == table@[s.key.0 as int]
                &&& s.value_ew == weighted(s.value as nat, fs@[i].3.0 as nat)
            },
        r.1 == capped(trigram_raw_sum(fs@, cells_of(*key_table_matrix), table@)),
        r.2 == capped(trigram_weighted_sum(fs@, cells_of(*key_table_matrix), table@)),
{
    let ghost m = cells_of(*key_table_matrix);
    let ghost fraw = |i: int| table@[trigram_key(fs@[i], m) as int] as nat;
    let ghost few = |i: int| weighted(table@[trigram_key(fs@[i], m) as int] as nat, fs@[i].3.0 as nat);
    let mut scores: Vec<Score<TrigramKey>> = Vec::new();
    let mut a: u64 = 0;
    let mut a_ew: u64 = 0;
    let mut i: usize = 0;
    while i < fs.len()
        invariant
            i <= fs@.len(),
            trigrams_fit(fs@, R as nat, C as nat),
            table@.len() == TRIGRAM_TABLE_LEN,
            m == cells_of(*key_table_matrix),
            fraw == (|i: int| table@[trigram_key(fs@[i], m) as int] as nat),
            few == (|i: int| weighted(table@[trigram_key(fs@[i], m) as int] as nat, fs@[i].3.0 as nat)),
            scores@.len() == i,
            forall|j: int|
                0 <= j < i ==> {
                    let s = #[trigger] scores@[j];
                    &&& s.key.0 == trigram_key(fs@[j], m)
                    &&& s.value == table@[s.key.0 as int]
                    &&& s.value_ew == weighted(s.value as nat, fs@[j].3.0 as nat)
                },
            a == capped(sum_to(i as nat, fraw)),
            a_ew == capped(sum_to(i as nat, few)),
        decreases fs.len() - i,
    {
        assert(trigrams_fit(seq![fs@[i as int]], R as nat, C as nat));
        let s = score_tf(&fs[i], key_table_matrix, table);
        a = a.saturating_add(s.value);
        a_ew = a_ew.saturating_add(s.value_ew);
        scores.push(s);
        i = i + 1;
    }
    (scores, a, a_ew)
}

/// Sums the counts and the weighted counts of `fs` on the matrix (each sum at
/// most `u64::MAX`), without listing them.
pub fn score_tfs_without_details<const C: usize, const R: usize>(
    fs: &[TrigramFingering],
    key_table_matrix: &[[u8; C]; R],
    table: &Vec<u64>,
) -> (r: (u64, u64))
    requires
        trigrams_fit(fs@, R as nat, C as nat),
        table@.len() == TRIGRAM_TABLE_LEN,
    ensures
        r.0 == capped(trigram_raw_sum(fs@, cells_of(*key_table_matrix), table@)),
        r.1 == capped(trigram_weighted_sum(fs@, cells_of(*key_table_matrix), table@)),
{
    let ghost m = cells_of(*key_table_matrix);
    let ghost fraw = |i: int| table@[trigram_key(fs@[i], m) as int] as nat;
    let ghost few = |i: int| weighted(table@[trigram_key(fs@[i], m) as int] as nat, fs@[i].3.0 as nat);
    let mut a: u64 = 0;
    let mut a_ew: u64 = 0;
    let mut i: usize = 0;
    while i < fs.len()
        invariant
            i <= fs@.len(),
            trigrams_fit(fs@, R as nat, C as nat),
            table@.len() == TRIGRAM_TABLE_LEN,
            m == cells_of(*key_table_matrix),
            fraw == (|i: int| table@[trigram_key(fs@[i], m) as int] as nat),
            few == (|i: int| weighted(table@[trigram_key(fs@[i], m) as int] as nat, fs@[i].3.0 as nat)),
            a == capped(sum_to(i as nat, fraw)),
            a_ew == capped(sum_to(i as nat, few)),
        decreases fs.len() - i,
    {
        assert(trigrams_fit(seq![fs@[i as int]], R as nat, C as nat));
        let s = score_tf(&fs[i], key_table_matrix, table);
        a = a.saturating_add(s.value);
        a_ew = a_ew.saturating_add(s.value_ew);
        i = i + 1;
    }
    (a, a_ew)
}

/// Scores `fs` on the matrix: the list of scores where `mode` asks for it,
/// and the two sums in either case.
pub fn score_tfs<const C: usize, const R: usize>(
    fs: &[TrigramFingering],
    key_table_matrix: &[[u8; C]; R],
    table: &Vec<u64>,
    mode: ScoreMode,
) -> (r: (Option<Vec<Score<TrigramKey>>>, u64, u64))
    requires
        trigrams_fit(fs@, R as nat, C as nat),
        table@.len() == TRIGRAM_TABLE_LEN,
    ensures
        r.0 is Some <==> mode == ScoreMode::Detailed,
        r.0 matches Some(details) ==> details@.len() == fs@.len() && forall|i: int|
            0 <= i < fs@.len() ==> {
                let s = #[trigger] details@[i];
                &&& s.key.0 == trigram_key(fs@[i], cells_of(*key_table_matrix))
                &&& s.value == table@[s.key.0 as int]
                &&& s.value_ew == weighted(s.value as nat, fs@[i].3.0 as nat)
            },
        r.1 == capped(trigram_raw_sum(fs@, cells_of(*key_table_matrix), table@)),
        r.2 == capped(trigram_weighted_sum(fs@, cells_of(*key_table_matrix), table@)),
{
    match mode {
        ScoreMode::Detailed => {
            let (details, sum, sum_ew) = score_tfs_with_details(fs, key_table_matrix, table);
            (Some(details), sum, sum_ew)
        },
        ScoreMode::Summary => {
            let (sum, sum_ew) = score_tfs_without_details(fs, key_table_matrix, table);
            (None, sum, sum_ew)
        },
    }
}


/// What a search scores each candidate by: the fingerings of one metric and
/// the n-gram table of their arity.
pub enum Scorer<'a> {
    Unigram(&'a [UnigramFingering], &'a Vec<u64>),
    Bigram(&'a [BigramFingering], &'a Vec<u64>),
    Trigram(&'a [TrigramFingering], &'a Vec<u64>),
}

impl<'a> Scorer<'a> {
    /// The fingerings lie on a matrix of `rows × columns` and the table has the
    /// size of its arity.
    pub open spec fn fits(self, rows: nat, columns: nat) -> bool {
        match self {
            Scorer::Unigram(fs, t) => unigrams_fit(fs@, rows, columns) && t@.len() == UNIGRAM_TABLE_LEN,
            Scorer::Bigram(fs, t) => bigrams_fit(fs@, rows, columns) && t@.len() == BIGRAM_TABLE_LEN,
            Scorer::Trigram(fs, t) => trigrams_fit(fs@, rows, columns) && t@.len() == TRIGRAM_TABLE_LEN,
        }
    }

    /// The score of a key matrix: the raw or the weighted sum, at most `u64::MAX`.
    pub open spec fn spec_score(self, weight: Weight, m: Seq<Seq<u8>>) -> u64 {
        (match self {
            Scorer::Unigram(fs, t) => match weight {
                Weight::Raw => capped(unigram_raw_sum(fs@, m, t@)),
                Weight::Effort => capped(unigram_weighted_sum(fs@, m, t@)),
            },
            Scorer::Bigram(fs, t) => match weight {
                Weight::Raw => capped(bigram_raw_sum(fs@, m, t@)),
                Weight::Effort => capped(bigram_weighted_sum(fs@, m, t@)),
            },
            Scorer::Trigram(fs, t) => match weight {
                Weight::Raw => capped(trigram_raw_sum(fs@, m, t@)),
                Weight::Effort => capped(trigram_weighted_sum(fs@, m, t@)),
            },
        }) as u64
    }

    pub fn score<const C: usize, const R: usize>(&self, weight: Weight, key_table_matrix: &[[u8; C]; R]) -> (r: u64)
        requires
            self.fits(R as nat, C as nat),
        ensures
            r == self.spec_score(weight, cells_of(*key_table_matrix)),
    {
        let (sum, sum_ew) = match self {
            Scorer::Unigram(fs, t) => score_ufs_without_details(fs, key_table_matrix, t),
            Scorer::Bigram(fs, t) => score_bfs_without_details(fs, key_table_matrix, t),
            Scorer::Trigram(fs, t) => score_tfs_without_details(fs, key_table_matrix, t),
        };
        match weight {
            Weight::Raw => sum,
            Weight::Effort => sum_ew,
        }
    }
}

/// A sublist keeps its positions on the matrix.
pub proof fn lemma_filter_fits_unigram(s: Seq<UnigramFingering>, p: spec_fn(UnigramFingering) -> bool, rows: nat, columns: nat)
    requires
        unigrams_fit(s, rows, columns),
    ensures
        unigrams_fit(s.filter(p), rows, columns),
{
    assert forall|i: int| 0 <= i < s.filter(p).len() implies #[trigger] s.filter(p)[i].0.0 < rows && s.filter(p)[i].0.1 < columns by {
        let x = s.filter(p)[i];
        assert(s.filter(p).contains(x));
        s.lemma_filter_contains_rev(p, x);
        let j = choose|j: int| 0 <= j < s.len() && s[j] == x;
        assert(s[j].0.0 < rows && s[j].0.1 < columns);
    }
}

/// A sublist keeps its positions on the matrix.
pub proof fn lemma_filter_fits_bigram(s: Seq<BigramFingering>, p: spec_fn(BigramFingering) -> bool, rows: nat, columns: nat)
    requires
        bigrams_fit(s, rows, columns),
    ensures
        bigrams_fit(s.filter(p), rows, columns),
{
    assert forall|i: int| 0 <= i < s.filter(p).len() implies #[trigger] s.filter(p)[i].0.0 < rows && s.filter(p)[i].0.1 < columns && s.filter(p)[i].1.0 < rows && s.filter(p)[i].1.1 < columns by {
        let x = s.filter(p)[i];
        assert(s.filter(p).contains(x));
        s.lemma_filter_contains_rev(p, x);
        let j = choose|j: int| 0 <= j < s.len() && s[j] == x;
        assert(s[j].0.0 < rows && s[j].1.1 < columns);
    }
}

/// A sublist keeps its positions on the matrix.
pub proof fn lemma_filter_fits_trigram(s: Seq<TrigramFingering>, p: spec_fn(TrigramFingering) -> bool, rows: nat, columns: nat)
    requires
        trigrams_fit(s, rows, columns),
    ensures
        trigrams_fit(s.filter(p), rows, columns),
{
    assert forall|i: int| 0 <= i < s.filter(p).len() implies #[trigger] s.filter(p)[i].0.0 < rows && s.filter(p)[i].0.1 < columns && s.filter(p)[i].1.0 < rows && s.filter(p)[i].1.1 < columns && s.filter(p)[i].2.0 < rows && s.filter(p)[i].2.1 < columns by {
        let x = s.filter(p)[i];
        assert(s.filter(p).contains(x));
        s.lemma_filter_contains_rev(p, x);
        let j = choose|j: int| 0 <= j < s.len() && s[j] == x;
        assert(s[j].0.0 < rows && s[j].2.1 < columns);
    }
}

} // verus!
