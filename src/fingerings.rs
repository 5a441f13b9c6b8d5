use vstd::prelude::*;

use crate::layouts::{Laterality, LayoutTable, Position};

verus! {

/// A position of the keyboard, `(row, column)`, with the digit that types it.
pub type Fingering = (usize, usize, Laterality, Position);

/// The cost of a fingering, held as its square: the cost of a move is the
/// Euclidean distance between two positions, the square root of an integer,
/// and the cost of a trigram is the product of two such roots.
#[derive(Clone, Copy, Debug, PartialEq, Eq, Structural)]
pub struct Effort(pub u64);

pub type UnigramFingering = (Fingering, Effort);

pub type BigramFingering = (Fingering, Fingering, Effort);

pub type TrigramFingering = (Fingering, Fingering, Fingering, Effort);

/// The squared Euclidean distance between the positions of two fingerings.
pub open spec fn distance_squared(f1: Fingering, f2: Fingering) -> nat {
    let dr = f1.0 - f2.0;
    let dc = f1.1 - f2.1;
    (dr * dr + dc * dc) as nat
}

/// The squared cost of moving from `f1` to `f2`: the distance on one hand,
/// one across hands.
pub open spec fn transition_squared(f1: Fingering, f2: Fingering) -> nat {
    if f1.2 == f2.2 {
        distance_squared(f1, f2)
    } else {
        1
    }
}

pub open spec fn same_place(f1: Fingering, f2: Fingering) -> bool {
    f1.0 == f2.0 && f1.1 == f2.1
}

/// The unigram fingerings of one row, for its first `n` columns.
pub open spec fn row_unigrams(row: Seq<Option<crate::layouts::Digit>>, r: nat, n: nat) -> Seq<
    UnigramFingering,
>
    decreases n,
{
    if n == 0 {
        seq![]
    } else {
        row_unigrams(row, r, (n - 1) as nat) + match row[n - 1] {
            Some(d) => seq![(((r as usize, (n - 1) as usize, d.0, d.1), Effort(1)))],
            None => seq![],
        }
    }
}

/// The unigram fingerings of the first `n` rows of a grid, row by row.
pub open spec fn grid_unigrams(g: Seq<Seq<Option<crate::layouts::Digit>>>, n: nat) -> Seq<
    UnigramFingering,
>
    decreases n,
{
    if n == 0 {
        seq![]
    } else {
        grid_unigrams(g, (n - 1) as nat) + row_unigrams(g[n - 1], (n - 1) as nat, g[n - 1].len())
    }
}

/// The bigram fingering that moves from `f1` to `f2`.
pub open spec fn bigram_of(f1: Fingering, f2: Fingering) -> BigramFingering {
    (f1, f2, Effort(transition_squared(f1, f2) as u64))
}

/// The trigram fingering that moves from `f1` to `f2` to `f3`.
pub open spec fn trigram_of(f1: Fingering, f2: Fingering, f3: Fingering) -> TrigramFingering {
    (f1, f2, f3, Effort((transition_squared(f1, f2) * transition_squared(f2, f3)) as u64))
}

/// The bigrams that start at `us[i]` and end at one of `us[..n]`.
pub open spec fn bigrams_from(us: Seq<UnigramFingering>, i: int, n: nat) -> Seq<BigramFingering>
    decreases n,
{
    if n == 0 {
        seq![]
    } else {
        bigrams_from(us, i, (n - 1) as nat) + seq![bigram_of(us[i].0, us[n - 1].0)]
    }
}

/// Every ordered pair of `us[..n] × us`, the first component varying slowest.
pub open spec fn all_bigrams(us: Seq<UnigramFingering>, n: nat) -> Seq<BigramFingering>
    decreases n,
{
    if n == 0 {
        seq![]
    } else {
        all_bigrams(us, (n - 1) as nat) + bigrams_from(us, n - 1, us.len())
    }
}

/// The trigrams that start at `us[i]`, go on to `us[j]` and end at one of `us[..n]`.
pub open spec fn trigrams_from(us: Seq<UnigramFingering>, i: int, j: int, n: nat) -> Seq<
    TrigramFingering,
>
    decreases n,
{
    if n == 0 {
        seq![]
    } else {
        trigrams_from(us, i, j, (n - 1) as nat) + seq![trigram_of(us[i].0, us[j].0, us[n - 1].0)]
    }
}

/// The trigrams that start at `us[i]` and go on to one of `us[..n]`.
pub open spec fn trigrams_via(us: Seq<UnigramFingering>, i: int, n: nat) -> Seq<TrigramFingering>
    decreases n,
{
    if n == 0 {
        seq![]
    } else {
        trigrams_via(us, i, (n - 1) as nat) + trigrams_from(us, i, n - 1, us.len())
    }
}

/// Every ordered triple of `us[..n] × us × us`, the first component varying slowest.
pub open spec fn all_trigrams(us: Seq<UnigramFingering>, n: nat) -> Seq<TrigramFingering>
    decreases n,
{
    if n == 0 {
        seq![]
    } else {
        all_trigrams(us, (n - 1) as nat) + trigrams_via(us, n - 1, us.len())
    }
}

/// A position lies on a grid of `R` rows and `C` columns.
pub open spec fn on_grid(f: Fingering, rows: nat, columns: nat) -> bool {
    f.0 < rows && f.1 < columns
}

/// The size of a layout for which every cost is computed in `u64`: a squared
/// distance is then below 2^32, so the product of two, a trigram's cost,
/// stays below 2^64.
pub open spec fn small_grid(rows: nat, columns: nat) -> bool {
    rows <= 46341 && columns <= 46341
}

/// The squared cost of moving between two positions of a small grid.
pub fn transition_effort(f1: Fingering, f2: Fingering) -> (q: u64)
    requires
        f1.0 < 46341 && f1.1 < 46341 && f2.0 < 46341 && f2.1 < 46341,
    ensures
        q == transition_squared(f1, f2),
        q <= 2 * 46340 * 46340,
{
    if f1.2 == f2.2 {
        let dr: u64 = if f1.0 >= f2.0 { (f1.0 - f2.0) as u64 } else { (f2.0 - f1.0) as u64 };
        let dc: u64 = if f1.1 >= f2.1 { (f1.1 - f2.1) as u64 } else { (f2.1 - f1.1) as u64 };
        assert(dr * dr <= 46340 * 46340 && dc * dc <= 46340 * 46340) by (nonlinear_arith)
            requires dr <= 46340, dc <= 46340;
        assert(dr * dr == (f1.0 - f2.0) * (f1.0 - f2.0)) by (nonlinear_arith)
            requires dr == f1.0 - f2.0 || dr == f2.0 - f1.0;
        assert(dc * dc == (f1.1 - f2.1) * (f1.1 - f2.1)) by (nonlinear_arith)
            requires dc == f1.1 - f2.1 || dc == f2.1 - f1.1;
        dr * dr + dc * dc
    } else {
        1
    }
}

impl<const C: usize, const R: usize> LayoutTable<C, R> {
    /// The unigram fingering of each occupied cell, row by row, each with effort one.
    pub fn iter_f(&self) -> (us: Vec<UnigramFingering>)
        ensures
            us@ == grid_unigrams(self.view(), R as nat),
    {
        let mut us: Vec<UnigramFingering> = Vec::new();
        let mut r: usize = 0;
        while r < R
            invariant
                r <= R,
                self.view().len() == R,
                forall|i: int| 0 <= i < R ==> (#[trigger] self.view()[i]).len() == C,
                us@ == grid_unigrams(self.view(), r as nat),
            decreases R - r,
        {
            let mut c: usize = 0;
            while c < C
                invariant
                    r < R,
                    c <= C,
                    self.view().len() == R,
                    forall|i: int| 0 <= i < R ==> (#[trigger] self.view()[i]).len() == C,
                    us@ == grid_unigrams(self.view(), r as nat) + row_unigrams(
                        self.view()[r as int],
                        r as nat,
                        c as nat,
                    ),
                decreases C - c,
            {
                let ghost before = us@;
                if let Some(d) = self.0.0[r][c] {
                    us.push(((r, c, d.0, d.1), Effort(1)));
                }
                c = c + 1;
                proof {
                    let row = self.view()[r as int];
                    assert(row[c - 1] == self.0.0@[r as int]@[c - 1]);
                    assert(us@ =~= grid_unigrams(self.view(), r as nat) + row_unigrams(
                        row,
                        r as nat,
                        c as nat,
                    ));
                }
            }
            r = r + 1;
            proof {
                assert(us@ =~= grid_unigrams(self.view(), r as nat));
            }
        }
        us
    }
}


/// Every position of `grid_unigrams` lies on the grid.
pub proof fn lemma_unigrams_on_grid(g: Seq<Seq<Option<crate::layouts::Digit>>>, n: nat, columns: nat)
    requires
        n <= g.len(),
        n <= usize::MAX,
        columns <= usize::MAX,
        forall|i: int| 0 <= i < g.len() ==> (#[trigger] g[i]).len() == columns,
    ensures
        forall|k: int|
            0 <= k < grid_unigrams(g, n).len() ==> on_grid(
                #[trigger] grid_unigrams(g, n)[k].0,
                n,
                columns,
            ) && grid_unigrams(g, n)[k].1 == Effort(1),
    decreases n,
{
    if n > 0 {
        lemma_unigrams_on_grid(g, (n - 1) as nat, columns);
        lemma_row_on_grid(g[n - 1], (n - 1) as nat, columns);
        let a = grid_unigrams(g, (n - 1) as nat);
        let b = row_unigrams(g[n - 1], (n - 1) as nat, columns);
        assert forall|k: int| 0 <= k < grid_unigrams(g, n).len() implies on_grid(
            #[trigger] grid_unigrams(g, n)[k].0,
            n,
            columns,
        ) && grid_unigrams(g, n)[k].1 == Effort(1) by {
            if k < a.len() {
                assert(grid_unigrams(g, n)[k] == a[k]);
            } else {
                assert(grid_unigrams(g, n)[k] == b[k - a.len()]);
            }
        }
    }
}

proof fn lemma_row_on_grid(row: Seq<Option<crate::layouts::Digit>>, r: nat, n: nat)
    requires
        n <= row.len(),
        r <= usize::MAX,
        n <= usize::MAX,
    ensures
        forall|k: int|
            0 <= k < row_unigrams(row, r, n).len() ==> (#[trigger] row_unigrams(row, r, n)[k]).0.0
                == r && row_unigrams(row, r, n)[k].0.1 < n && row_unigrams(row, r, n)[k].1 == Effort(1),
    decreases n,
{
    if n > 0 {
        lemma_row_on_grid(row, r, (n - 1) as nat);
        let a = row_unigrams(row, r, (n - 1) as nat);
        assert forall|k: int| 0 <= k < row_unigrams(row, r, n).len() implies (#[trigger] row_unigrams(
            row,
            r,
            n,
        )[k]).0.0 == r && row_unigrams(row, r, n)[k].0.1 < n && row_unigrams(row, r, n)[k].1
            == Effort(1) by {
            if k < a.len() {
                assert(row_unigrams(row, r, n)[k] == a[k]);
            }
        }
    }
}

impl<const C: usize, const R: usize> LayoutTable<C, R> {
    /// Every ordered pair of occupied cells, the same cell twice included, with
    /// the cost of moving between them.
    pub fn iter_fp(&self) -> (bs: Vec<BigramFingering>)
        requires
            small_grid(R as nat, C as nat),
        ensures
            bs@ == all_bigrams(grid_unigrams(self.view(), R as nat), grid_unigrams(self.view(), R as nat).len()),
            forall|k: int| 0 <= k < bs@.len() ==> on_grid((#[trigger] bs@[k]).0, R as nat, C as nat) && on_grid(bs@[k].1, R as nat, C as nat),
    {
        let us = self.iter_f();
        proof {
            lemma_unigrams_on_grid(self.view(), R as nat, C as nat);
        }
        let mut bs: Vec<BigramFingering> = Vec::new();
        let mut i: usize = 0;
        while i < us.len()
            invariant
                i <= us.len(),
                small_grid(R as nat, C as nat),
                forall|k: int| 0 <= k < us@.len() ==> on_grid(#[trigger] us@[k].0, R as nat, C as nat),
                bs@ == all_bigrams(us@, i as nat),
                forall|k: int| 0 <= k < bs@.len() ==> on_grid((#[trigger] bs@[k]).0, R as nat, C as nat) && on_grid(bs@[k].1, R as nat, C as nat),
            decreases us.len() - i,
        {
            let mut j: usize = 0;
            while j < us.len()
                invariant
                    i < us.len(),
                    j <= us.len(),
                    small_grid(R as nat, C as nat),
                    forall|k: int| 0 <= k < us@.len() ==> on_grid(#[trigger] us@[k].0, R as nat, C as nat),
                    bs@ == all_bigrams(us@, i as nat) + bigrams_from(us@, i as int, j as nat),
                    forall|k: int| 0 <= k < bs@.len() ==> on_grid((#[trigger] bs@[k]).0, R as nat, C as nat) && on_grid(bs@[k].1, R as nat, C as nat),
                decreases us.len() - j,
            {
                let f1 = us[i].0;
                let f2 = us[j].0;
                assert(on_grid(us@[i as int].0, R as nat, C as nat));
                assert(on_grid(us@[j as int].0, R as nat, C as nat));
                let q = transition_effort(f1, f2);
                bs.push((f1, f2, Effort(q)));
                j = j + 1;
                proof {
                    assert(bs@ =~= all_bigrams(us@, i as nat) + bigrams_from(us@, i as int, j as nat));
                }
            }
            i = i + 1;
            proof {
                assert(bs@ =~= all_bigrams(us@, i as nat));
            }
        }
        bs
    }

    /// Every ordered triple of occupied cells, repeats included, with the product
    /// of the costs of its two moves.
    pub fn iter_ft(&self) -> (ts: Vec<TrigramFingering>)
        requires
            small_grid(R as nat, C as nat),
        ensures
            ts@ == all_trigrams(grid_unigrams(self.view(), R as nat), grid_unigrams(self.view(), R as nat).len()),
            forall|k: int| 0 <= k < ts@.len() ==> on_grid((#[trigger] ts@[k]).0, R as nat, C as nat) && on_grid(ts@[k].1, R as nat, C as nat) && on_grid(ts@[k].2, R as nat, C as nat),
    {
        let us = self.iter_f();
        proof {
            lemma_unigrams_on_grid(self.view(), R as nat, C as nat);
        }
        let mut ts: Vec<TrigramFingering> = Vec::new();
        let mut i: usize = 0;
        while i < us.len()
            invariant
                i <= us.len(),
                small_grid(R as nat, C as nat),
                forall|k: int| 0 <= k < us@.len() ==> on_grid(#[trigger] us@[k].0, R as nat, C as nat),
                ts@ == all_trigrams(us@, i as nat),
                forall|k: int| 0 <= k < ts@.len() ==> on_grid((#[trigger] ts@[k]).0, R as nat, C as nat) && on_grid(ts@[k].1, R as nat, C as nat) && on_grid(ts@[k].2, R as nat, C as nat),
            decreases us.len() - i,
        {
            let mut j: usize = 0;
            while j < us.len()
                invariant
                    i < us.len(),
                    j <= us.len(),
                    small_grid(R as nat, C as nat),
                    forall|k: int| 0 <= k < us@.len() ==> on_grid(#[trigger] us@[k].0, R as nat, C as nat),
                    ts@ == all_trigrams(us@, i as nat) + trigrams_via(us@, i as int, j as nat),
                    forall|k: int| 0 <= k < ts@.len() ==> on_grid((#[trigger] ts@[k]).0, R as nat, C as nat) && on_grid(ts@[k].1, R as nat, C as nat) && on_grid(ts@[k].2, R as nat, C as nat),
                decreases us.len() - j,
            {
                let mut k: usize = 0;
                while k < us.len()
                    invariant
                        i < us.len(),
                        j < us.len(),
                        k <= us.len(),
                        small_grid(R as nat, C as nat),
                        forall|k: int| 0 <= k < us@.len() ==> on_grid(#[trigger] us@[k].0, R as nat, C as nat),
                        ts@ == all_trigrams(us@, i as nat) + trigrams_via(us@, i as int, j as nat)
                            + trigrams_from(us@, i as int, j as int, k as nat),
                        forall|k: int| 0 <= k < ts@.len() ==> on_grid((#[trigger] ts@[k]).0, R as nat, C as nat) && on_grid(ts@[k].1, R as nat, C as nat) && on_grid(ts@[k].2, R as nat, C as nat),
                    decreases us.len() - k,
                {
                    let f1 = us[i].0;
                    let f2 = us[j].0;
                    let f3 = us[k].0;
                    assert(on_grid(us@[i as int].0, R as nat, C as nat));
                    assert(on_grid(us@[j as int].0, R as nat, C as nat));
                    assert(on_grid(us@[k as int].0, R as nat, C as nat));
                    let q1 = transition_effort(f1, f2);
                    let q2 = transition_effort(f2, f3);
                    assert(q1 * q2 <= 4294791200 * 4294791200) by (nonlinear_arith)
                        requires q1 <= 4294791200, q2 <= 4294791200;
                    assert(4294791200 * 4294791200 < u64::MAX);
                    ts.push((f1, f2, f3, Effort(q1 * q2)));
                    k = k + 1;
                    proof {
                        assert(ts@ =~= all_trigrams(us@, i as nat) + trigrams_via(us@, i as int, j as nat)
                            + trigrams_from(us@, i as int, j as int, k as nat));
                    }
                }
                j = j + 1;
                proof {
                    assert(ts@ =~= all_trigrams(us@, i as nat) + trigrams_via(us@, i as int, j as nat));
                }
            }
            i = i + 1;
            proof {
                assert(ts@ =~= all_trigrams(us@, i as nat));
            }
        }
        ts
    }
}

} // verus!
