use vstd::arithmetic::div_mod::lemma_fundamental_div_mod;
use vstd::multiset::Multiset;
use vstd::prelude::*;
use vstd::seq_lib::{lemma_multiset_commutative, to_multiset_build, to_multiset_remove};

use crate::tables::cells_of;

verus! {

/// `n!`
pub open spec fn fact(n: nat) -> nat
    decreases n,
{
    if n == 0 {
        1
    } else {
        n * fact((n - 1) as nat)
    }
}

pub proof fn lemma_fact_positive(n: nat)
    ensures
        fact(n) >= 1,
    decreases n,
{
    if n > 0 {
        lemma_fact_positive((n - 1) as nat);
        assert(n * fact((n - 1) as nat) >= fact((n - 1) as nat)) by (nonlinear_arith)
            requires
                n >= 1,
                fact((n - 1) as nat) >= 1,
        ;
    }
}

pub proof fn lemma_fact_monotonic(m: nat, n: nat)
    requires
        m <= n,
    ensures
        fact(m) <= fact(n),
    decreases n,
{
    if m < n {
        lemma_fact_monotonic(m, (n - 1) as nat);
        lemma_fact_positive((n - 1) as nat);
        assert(n * fact((n - 1) as nat) >= fact((n - 1) as nat)) by (nonlinear_arith)
            requires
                n >= 1,
                fact((n - 1) as nat) >= 1,
        ;
    }
}

/// `n!` where it fits in a `u64`.
pub fn checked_factorial(n: u64) -> (r: Option<u64>)
    ensures
        r matches Some(f) ==> f == fact(n as nat),
        r is None ==> fact(n as nat) > u64::MAX,
{
    let mut acc: u64 = 1;
    let mut i: u64 = 0;
    while i < n
        invariant
            i <= n,
            acc == fact(i as nat),
        decreases n - i,
    {
        proof {
            assert(fact((i + 1) as nat) == (i + 1) * fact(i as nat));
            assert((i + 1) * fact(i as nat) == acc * (i + 1)) by (nonlinear_arith)
                requires acc == fact(i as nat);
        }
        match acc.checked_mul(i + 1) {
            Some(v) => acc = v,
            None => {
                proof {
                    lemma_fact_monotonic((i + 1) as nat, n as nat);
                }
                return None;
            },
        }
        i = i + 1;
    }
    Some(acc)
}

/// `n!`, for the `n` whose factorial fits in a `u64`.
pub fn factorial(n: u64) -> (r: u64)
    requires
        fact(n as nat) <= u64::MAX,
    ensures
        r == fact(n as nat),
{
    let mut acc: u64 = 1;
    let mut i: u64 = 0;
    while i < n
        invariant
            i <= n,
            acc == fact(i as nat),
            fact(n as nat) <= u64::MAX,
        decreases n - i,
    {
        proof {
            lemma_fact_monotonic((i + 1) as nat, n as nat);
            assert(fact((i + 1) as nat) == (i + 1) * fact(i as nat));
        }
        i = i + 1;
        acc = acc * i;
    }
    acc
}


/// The permutation of `pool` numbered `idx` in the factorial number system:
/// with `f = (n-1)!`, it starts with `pool[idx / f]` and goes on with
/// permutation `idx % f` of what is left.
pub open spec fn decode<T>(idx: nat, pool: Seq<T>) -> Seq<T>
    decreases pool.len()
    via decode_decreases::<T>
{
    if pool.len() == 0 {
        seq![]
    } else {
        let f = fact((pool.len() - 1) as nat);
        let pos: int = if idx / f < pool.len() {
            (idx / f) as int
        } else {
            pool.len() - 1
        };
        seq![pool[pos]] + decode(idx % f, pool.remove(pos))
    }
}

#[via_fn]
proof fn decode_decreases<T>(idx: nat, pool: Seq<T>) {
    if pool.len() != 0 {
        let f = fact((pool.len() - 1) as nat);
        let pos: int = if idx / f < pool.len() {
            (idx / f) as int
        } else {
            pool.len() - 1
        };
        lemma_fact_positive((pool.len() - 1) as nat);
        assert(pool.remove(pos).len() < pool.len());
    }
}

proof fn lemma_digit_bound(idx: nat, n: nat)
    requires
        n >= 1,
        idx < fact(n),
    ensures
        fact((n - 1) as nat) >= 1,
        idx / fact((n - 1) as nat) < n,
        idx % fact((n - 1) as nat) < fact((n - 1) as nat),
        idx == (idx / fact((n - 1) as nat)) * fact((n - 1) as nat) + idx % fact((n - 1) as nat),
{
    let f = fact((n - 1) as nat);
    lemma_fact_positive((n - 1) as nat);
    lemma_fundamental_div_mod(idx as int, f as int);
    let q = idx / f;
    let r = idx % f;
    assert(fact(n) == n * f);
    if q >= n {
        assert(q * f >= n * f) by (nonlinear_arith)
            requires q >= n, f >= 1;
    }
}

/// Decoding a number below `n!` gives a permutation of the pool.
pub proof fn lemma_decode_permutes<T>(idx: nat, pool: Seq<T>)
    requires
        idx < fact(pool.len()),
    ensures
        decode(idx, pool).to_multiset() == pool.to_multiset(),
        decode(idx, pool).len() == pool.len(),
    decreases pool.len(),
{
    broadcast use vstd::multiset::group_multiset_axioms;
    if pool.len() == 0 {
        assert(decode(idx, pool) =~= pool);
    } else {
        let n = pool.len();
        let f = fact((n - 1) as nat);
        lemma_digit_bound(idx, n);
        let pos = (idx / f) as int;
        let rest = pool.remove(pos);
        lemma_decode_permutes(idx % f, rest);
        to_multiset_remove(pool, pos);
        lemma_multiset_commutative(seq![pool[pos]], decode(idx % f, rest));
        broadcast use vstd::seq_lib::group_to_multiset_ensures;
        to_multiset_build(Seq::<T>::empty(), pool[pos]);
        assert(seq![pool[pos]] =~= Seq::<T>::empty().push(pool[pos]));
        assert(seq![pool[pos]].to_multiset() =~= Multiset::empty().insert(pool[pos]));
        assert(pool.to_multiset().remove(pool[pos]).insert(pool[pos]) =~= pool.to_multiset());
        assert(decode(idx, pool).to_multiset() =~= pool.to_multiset());
    }
}

/// Over a pool without repeats, distinct numbers below `n!` decode to
/// distinct permutations.
pub proof fn lemma_decode_injective<T>(i: nat, j: nat, pool: Seq<T>)
    requires
        pool.no_duplicates(),
        i < fact(pool.len()),
        j < fact(pool.len()),
        i != j,
    ensures
        decode(i, pool) != decode(j, pool),
    decreases pool.len(),
{
    let n = pool.len();
    if n == 0 {
        assert(fact(0) == 1);
    } else {
        let f = fact((n - 1) as nat);
        lemma_digit_bound(i, n);
        lemma_digit_bound(j, n);
        let pi = (i / f) as int;
        let pj = (j / f) as int;
        if pi != pj {
            assert(decode(i, pool)[0] == pool[pi]);
            assert(decode(j, pool)[0] == pool[pj]);
        } else {
            let rest = pool.remove(pi);
            assert(rest.no_duplicates()) by {
                assert forall|a: int, b: int| 0 <= a < b < rest.len() implies rest[a] != rest[b] by {
                    let a2 = if a < pi { a } else { a + 1 };
                    let b2 = if b < pi { b } else { b + 1 };
                    assert(rest[a] == pool[a2]);
                    assert(rest[b] == pool[b2]);
                }
            }
            assert(i % f != j % f);
            lemma_decode_injective(i % f, j % f, rest);
            assert(decode(i, pool).drop_first() =~= decode(i % f, rest));
            assert(decode(j, pool).drop_first() =~= decode(j % f, rest));
        }
    }
}

/// The number of permutation `p` of `pool`: the place in the pool of its
/// first element, in units of `(n-1)!`, plus the number of the rest.
pub open spec fn encode<T>(p: Seq<T>, pool: Seq<T>) -> nat
    decreases pool.len(),
{
    if pool.len() == 0 || p.len() == 0 {
        0
    } else {
        let pos = pool.index_of(p[0]);
        if 0 <= pos < pool.len() {
            (pos * fact((pool.len() - 1) as nat) + encode(p.drop_first(), pool.remove(pos))) as nat
        } else {
            0
        }
    }
}

proof fn lemma_remove_keeps_distinct<T>(pool: Seq<T>, pos: int)
    requires
        pool.no_duplicates(),
        0 <= pos < pool.len(),
    ensures
        pool.remove(pos).no_duplicates(),
{
    let rest = pool.remove(pos);
    assert forall|a: int, b: int| 0 <= a < b < rest.len() implies rest[a] != rest[b] by {
        let a2 = if a < pos { a } else { a + 1 };
        let b2 = if b < pos { b } else { b + 1 };
        assert(rest[a] == pool[a2]);
        assert(rest[b] == pool[b2]);
    }
}

/// Over a pool without repeats, every permutation of the pool is decoded
/// from a number below `n!`: its [`encode`].
pub proof fn lemma_decode_surjective<T>(p: Seq<T>, pool: Seq<T>)
    requires
        pool.no_duplicates(),
        p.to_multiset() == pool.to_multiset(),
    ensures
        encode(p, pool) < fact(pool.len()),
        decode(encode(p, pool), pool) == p,
    decreases pool.len(),
{
    broadcast use vstd::seq_lib::group_to_multiset_ensures;
    broadcast use vstd::multiset::group_multiset_axioms;
    let n = pool.len();
    assert(p.len() == n) by {
        vstd::seq_lib::to_multiset_len(p);
        vstd::seq_lib::to_multiset_len(pool);
    }
    if n == 0 {
        assert(p =~= Seq::<T>::empty());
        assert(fact(0) == 1);
    } else {
        let x = p[0];
        assert(p.to_multiset().count(x) > 0) by {
            vstd::seq_lib::to_multiset_contains(p, x);
            assert(p.contains(x));
        }
        assert(pool.contains(x)) by {
            vstd::seq_lib::to_multiset_contains(pool, x);
        }
        let pos = pool.index_of(x);
        assert(0 <= pos < n && pool[pos] == x);
        let rest = pool.remove(pos);
        let tail = p.drop_first();
        lemma_remove_keeps_distinct(pool, pos);
        to_multiset_remove(pool, pos);
        to_multiset_remove(p, 0);
        assert(p.remove(0) =~= tail);
        assert(tail.to_multiset() == rest.to_multiset());
        lemma_decode_surjective(tail, rest);
        let f = fact((n - 1) as nat);
        let e = encode(tail, rest);
        lemma_fact_positive((n - 1) as nat);
        assert(encode(p, pool) == pos * f + e);
        assert(pos * f + e < n * f) by (nonlinear_arith)
            requires 0 <= pos < n, e < f;
        assert(fact(n) == n * f);
        vstd::arithmetic::div_mod::lemma_fundamental_div_mod_converse((pos * f + e) as int, f as int, pos, e as int);
        assert(decode(encode(p, pool), pool) =~= seq![x] + tail);
        assert(seq![x] + tail =~= p);
    }
}

/// The permutation of `input` numbered `index`: see [`decode`].
pub fn index_to_permutation<T: Copy>(index: u64, input: &[T]) -> (out: Vec<T>)
    requires
        index < fact(input@.len()),
    ensures
        out@ == decode(index as nat, input@),
{
    let mut available: Vec<T> = Vec::new();
    let mut k: usize = 0;
    while k < input.len()
        invariant
            k <= input@.len(),
            available@ == input@.take(k as int),
        decreases input.len() - k,
    {
        available.push(input[k]);
        k = k + 1;
        assert(available@ =~= input@.take(k as int));
    }
    assert(available@ =~= input@);
    let mut output: Vec<T> = Vec::new();
    let mut idx: u64 = index;
    while available.len() > 0
        invariant
            idx < fact(available@.len()),
            available@.len() <= input@.len(),
            output@ + decode(idx as nat, available@) == decode(index as nat, input@),
        decreases available.len(),
    {
        let n = available.len();
        proof {
            lemma_digit_bound(idx as nat, n as nat);
        }
        let ghost f = fact((n - 1) as nat);
        // a factorial beyond `u64` exceeds every index: its digit is 0
        let (pos, rest): (usize, u64) = match checked_factorial((n - 1) as u64) {
            Some(f) => ((idx / f) as usize, idx % f),
            None => {
                proof {
                    vstd::arithmetic::div_mod::lemma_fundamental_div_mod_converse(idx as int, f as int, 0, idx as int);
                }
                (0, idx)
            },
        };
        let ghost before = available@;
        let ghost out_before = output@;
        let ghost idx_before = idx;
        let x = available.remove(pos);
        idx = rest;
        output.push(x);
        proof {
            assert(decode(idx_before as nat, before) == seq![before[pos as int]] + decode(
                idx as nat,
                available@,
            ));
            assert(output@ + decode(idx as nat, available@) =~= out_before + decode(
                idx_before as nat,
                before,
            ));
        }
    }
    assert(output@ + decode(idx as nat, available@) =~= output@);
    output
}


/// Writes the permutation of `input` numbered `index` at the start of
/// `output`; the rest of `output` is left as it is.
pub fn index_to_permutation_in_place<T: Copy>(index: u64, input: &[T], output: &mut [T])
    requires
        index < fact(input@.len()),
        input@.len() <= old(output)@.len(),
    ensures
        final(output)@.len() == old(output)@.len(),
        final(output)@.take(input@.len() as int) == decode(index as nat, input@),
        final(output)@.skip(input@.len() as int) == old(output)@.skip(input@.len() as int),
{
    let p = index_to_permutation(index, input);
    proof {
        lemma_decode_permutes(index as nat, input@);
    }
    let mut i: usize = 0;
    while i < p.len()
        invariant
            i <= p@.len() == input@.len() <= output@.len(),
            output@.len() == old(output)@.len(),
            forall|k: int| 0 <= k < i ==> #[trigger] output@[k] == p@[k],
            forall|k: int| i <= k < output@.len() ==> #[trigger] output@[k] == old(output)@[k],
        decreases p.len() - i,
    {
        output[i] = p[i];
        i = i + 1;
    }
    assert(output@.take(input@.len() as int) =~= p@);
    assert(output@.skip(input@.len() as int) =~= old(output)@.skip(input@.len() as int));
}

/// `s` with the elements at `i` and `j` exchanged.
pub open spec fn swapped<T>(s: Seq<T>, i: int, j: int) -> Seq<T> {
    s.update(i, s[j]).update(j, s[i])
}

/// The arrangements that the swap recursion visits from place `start`: the
/// sequence itself once `start` reaches `limit`; otherwise, for each `i` from
/// `start` to `limit`, in turn, those of the sequence with places `start` and
/// `i` exchanged, from `start + 1`.
pub open spec fn arrangements<T>(s: Seq<T>, start: nat, limit: nat) -> Seq<Seq<T>>
    decreases limit - start, 1nat, 0nat,
{
    if start >= limit {
        seq![s]
    } else {
        branches(s, start, limit, start)
    }
}

/// The arrangements of the branches `i .. limit` at place `start`.
pub open spec fn branches<T>(s: Seq<T>, start: nat, limit: nat, i: nat) -> Seq<Seq<T>>
    decreases limit - start, 0nat, limit - i,
{
    if i >= limit || start >= limit {
        seq![]
    } else {
        arrangements(swapped(s, start as int, i as int), start + 1, limit) + branches(s, start, limit, i + 1)
    }
}

pub open spec fn arrays_view<T, const N: usize>(v: Seq<[T; N]>) -> Seq<Seq<T>> {
    v.map_values(|a: [T; N]| a@)
}

fn permute<T: Copy, const N: usize>(a: &mut [T; N], start: usize, limit: usize, out: &mut Vec<[T; N]>)
    requires
        start <= limit <= N,
    ensures
        *final(a) == *old(a),
        arrays_view(final(out)@) == arrays_view(old(out)@) + arrangements(old(a)@, start as nat, limit as nat),
    decreases limit - start, 1nat,
{
    if start == limit {
        let ghost before = arrays_view(out@);
        out.push(*a);
        assert(arrays_view(out@) =~= before + seq![a@]);
        return;
    }
    let ghost a0 = *a;
    let ghost out0 = arrays_view(out@);
    let mut i: usize = start;
    assert(arrays_view(out@) + branches(a0@, start as nat, limit as nat, i as nat) =~= out0 + arrangements(a0@, start as nat, limit as nat));
    while i < limit
        invariant
            start <= i <= limit <= N,
            start < limit,
            *a == a0,
            arrays_view(out@) + branches(a0@, start as nat, limit as nat, i as nat) == out0 + arrangements(a0@, start as nat, limit as nat),
        decreases limit - i,
    {
        let ghost before = arrays_view(out@);
        let t = a[start];
        a[start] = a[i];
        a[i] = t;
        assert(a@ =~= swapped(a0@, start as int, i as int));
        permute(a, start + 1, limit, out);
        let t = a[start];
        a[start] = a[i];
        a[i] = t;
        assert(a@ =~= a0@);
        assert(*a =~= a0);
        assert(arrays_view(out@) + branches(a0@, start as nat, limit as nat, (i + 1) as nat) =~= before + branches(a0@, start as nat, limit as nat, i as nat));
        i = i + 1;
    }
    assert(arrays_view(out@) + Seq::<Seq<T>>::empty() =~= arrays_view(out@));
}

/// Every arrangement of the first `limit` places of `array` (at most `N`), in
/// the order of the swap recursion: see [`arrangements`].
pub fn generate_permutations_to_limit<T: Copy, const N: usize>(array: [T; N], limit: usize) -> (r: Vec<[T; N]>)
    ensures
        arrays_view(r@) == arrangements(array@, 0, if limit < N { limit as nat } else { N as nat }),
{
    let limit = if limit < N { limit } else { N };
    let mut a = array;
    let mut out: Vec<[T; N]> = Vec::new();
    permute(&mut a, 0, limit, &mut out);
    assert(arrays_view(Seq::<[T; N]>::empty()) =~= Seq::<Seq<T>>::empty());
    assert(Seq::<Seq<T>>::empty() + arrangements(array@, 0, limit as nat) =~= arrangements(array@, 0, limit as nat));
    out
}

/// Every arrangement of `array`: see [`generate_permutations_to_limit`].
pub fn generate_permutations<T: Copy, const N: usize>(array: [T; N]) -> (r: Vec<[T; N]>)
    ensures
        arrays_view(r@) == arrangements(array@, 0, N as nat),
{
    generate_permutations_to_limit(array, N)
}

/// A byte that prints as a visible character or a space.
pub open spec fn printable(b: u8) -> bool {
    0x20 <= b <= 0x7e
}

pub fn is_printable(byte: u8) -> (r: bool)
    ensures
        r == printable(byte),
{
    0x20 <= byte && byte <= 0x7e
}

pub open spec fn row_blank(m: Seq<Seq<u8>>, r: int, columns: nat) -> bool {
    forall|c: int| 0 <= c < columns ==> !printable(#[trigger] m[r][c])
}

pub open spec fn column_blank(m: Seq<Seq<u8>>, c: int, rows: nat) -> bool {
    forall|r: int| 0 <= r < rows ==> !printable(#[trigger] m[r][c])
}

fn row_is_blank<const C: usize, const R: usize>(m: &[[u8; C]; R], r: usize) -> (b: bool)
    requires
        r < R,
    ensures
        b == row_blank(cells_of(*m), r as int, C as nat),
{
    let mut c: usize = 0;
    while c < C
        invariant
            r < R,
            c <= C,
            forall|j: int| 0 <= j < c ==> !printable(#[trigger] cells_of(*m)[r as int][j]),
        decreases C - c,
    {
        if is_printable(m[r][c]) {
            assert(cells_of(*m)[r as int][c as int] == m[r as int][c as int]);
            return false;
        }
        c = c + 1;
    }
    true
}

fn column_is_blank<const C: usize, const R: usize>(m: &[[u8; C]; R], c: usize) -> (b: bool)
    requires
        c < C,
    ensures
        b == column_blank(cells_of(*m), c as int, R as nat),
{
    let mut r: usize = 0;
    while r < R
        invariant
            c < C,
            r <= R,
            forall|i: int| 0 <= i < r ==> !printable(#[trigger] cells_of(*m)[i][c as int]),
        decreases R - r,
    {
        if is_printable(m[r][c]) {
            assert(cells_of(*m)[r as int][c as int] == m[r as int][c as int]);
            return false;
        }
        r = r + 1;
    }
    true
}

/// The numbers of rows at the top, columns at the right, rows at the bottom
/// and columns at the left that hold no printable byte.
pub fn crop_matrix<const C: usize, const R: usize>(matrix: &[[u8; C]; R]) -> (r: (usize, usize, usize, usize))
    ensures
        r.0 <= R && (forall|i: int| 0 <= i < r.0 ==> #[trigger] row_blank(cells_of(*matrix), i, C as nat)) && (r.0 < R ==> !row_blank(cells_of(*matrix), r.0 as int, C as nat)),
        r.1 <= C && (forall|j: int| C - r.1 <= j < C ==> #[trigger] column_blank(cells_of(*matrix), j, R as nat)) && (r.1 < C ==> !column_blank(cells_of(*matrix), C - 1 - r.1, R as nat)),
        r.2 <= R && (forall|i: int| R - r.2 <= i < R ==> #[trigger] row_blank(cells_of(*matrix), i, C as nat)) && (r.2 < R ==> !row_blank(cells_of(*matrix), R - 1 - r.2, C as nat)),
        r.3 <= C && (forall|j: int| 0 <= j < r.3 ==> #[trigger] column_blank(cells_of(*matrix), j, R as nat)) && (r.3 < C ==> !column_blank(cells_of(*matrix), r.3 as int, R as nat)),
{
    let mut top: usize = 0;
    while top < R && row_is_blank(matrix, top)
        invariant
            top <= R,
            forall|i: int| 0 <= i < top ==> #[trigger] row_blank(cells_of(*matrix), i, C as nat),
        decreases R - top,
    {
        top = top + 1;
    }
    let mut right: usize = 0;
    while right < C && column_is_blank(matrix, C - 1 - right)
        invariant
            right <= C,
            forall|j: int| C - right <= j < C ==> #[trigger] column_blank(cells_of(*matrix), j, R as nat),
        decreases C - right,
    {
        right = right + 1;
    }
    let mut bottom: usize = 0;
    while bottom < R && row_is_blank(matrix, R - 1 - bottom)
        invariant
            bottom <= R,
            forall|i: int| R - bottom <= i < R ==> #[trigger] row_blank(cells_of(*matrix), i, C as nat),
        decreases R - bottom,
    {
        bottom = bottom + 1;
    }
    let mut left: usize = 0;
    while left < C && column_is_blank(matrix, left)
        invariant
            left <= C,
            forall|j: int| 0 <= j < left ==> #[trigger] column_blank(cells_of(*matrix), j, R as nat),
        decreases C - left,
    {
        left = left + 1;
    }
    (top, right, bottom, left)
}

} // verus!
