use perky::fingerings::{Effort, UnigramFingering};
use perky::goals::Goal;
use perky::layouts::{Laterality, Position};
use perky::math::{
    crop_matrix, factorial, generate_permutations, generate_permutations_to_limit, index_to_permutation,
    index_to_permutation_in_place, is_printable,
};
use perky::ngrams::UNIGRAM_TABLE_LEN;
use perky::permutations::{
    calculate_threshold, convert_vec_opt_to_array, finish_records, is_valid_pool, plan_search, materialize, meets, permute_and_substitute,
    search_space_size, PoolTooLong, RecordSet, Region, SearchError, SearchPlan, Tolerance,
};
use perky::scores::Scorer;
use perky::weights::Weight;

fn unigram_table(entries: &[(u8, u64)]) -> Vec<u64> {
    let mut t = vec![0u64; UNIGRAM_TABLE_LEN];
    for &(k, v) in entries {
        t[k as usize] = v;
    }
    t
}

fn region(pool: &[u8], positions: &[(usize, usize)]) -> Region {
    Region { pool: pool.to_vec(), positions: positions.to_vec() }
}

#[test]
fn decoding_small_indices() {
    let pool = [b'A', b'B', b'C'];
    assert_eq!(index_to_permutation(0, &pool), vec![b'A', b'B', b'C']);
    assert_eq!(index_to_permutation(1, &pool), vec![b'A', b'C', b'B']);
    assert_eq!(index_to_permutation(5, &pool), vec![b'C', b'B', b'A']);
}

#[test]
fn decoding_gives_every_permutation_once() {
    let pool = [1u8, 2, 3, 4];
    let mut seen: Vec<Vec<u8>> = Vec::new();
    for i in 0..24 {
        let p = index_to_permutation(i, &pool);
        let mut sorted = p.clone();
        sorted.sort();
        assert_eq!(sorted, pool.to_vec());
        assert!(!seen.contains(&p));
        seen.push(p);
    }
    assert_eq!(seen.len(), 24);
}

#[test]
fn factorial_values() {
    assert_eq!(factorial(0), 1);
    assert_eq!(factorial(5), 120);
    assert_eq!(factorial(20), 2432902008176640000);
}

#[test]
fn tolerance_one_keeps_only_the_best() {
    let t = Tolerance::new(1, 1).unwrap();
    assert_eq!(calculate_threshold(Goal::Max, 100, t), 100);
    assert_eq!(calculate_threshold(Goal::Min, 100, t), 100);
    assert!(meets(Goal::Max, 100, 100));
    assert!(!meets(Goal::Max, 99, 100));
}

#[test]
fn tolerance_zero_accepts_everything() {
    let t = Tolerance::new(0, 1).unwrap();
    assert_eq!(calculate_threshold(Goal::Max, 100, t), 0);
    assert_eq!(calculate_threshold(Goal::Min, 100, t), u64::MAX);
}

#[test]
fn tolerance_min_rounds_up() {
    let t = Tolerance::new(9, 10).unwrap();
    let threshold = calculate_threshold(Goal::Min, 100, t);
    assert_eq!(threshold, 112);
    assert!(meets(Goal::Min, 112, threshold));
    assert!(!meets(Goal::Min, 113, threshold));
}

#[test]
fn tolerance_max_rounds_down() {
    let t = Tolerance::new(9, 10).unwrap();
    assert_eq!(calculate_threshold(Goal::Max, 105, t), 94);
}

#[test]
fn tolerance_needs_a_denominator() {
    assert!(Tolerance::new(1, 0).is_none());
    assert_eq!(Tolerance::new(5, 2), Some(Tolerance { num: 2, den: 2 }));
}

#[test]
fn ties_are_ordered_by_index_and_capped() {
    let t = Tolerance::new(0, 1).unwrap();
    let mut set: RecordSet<1, 1> = RecordSet::new(Goal::Max, t, Some(2));
    set.consider([[b'x']], 7, 4);
    set.consider([[b'y']], 7, 1);
    set.consider([[b'z']], 7, 3);
    let order: Vec<(u64, u64)> = set.entries.iter().map(|e| (e.0, e.1)).collect();
    assert_eq!(order, vec![(7, 1), (7, 3)]);
}

#[test]
fn better_scores_come_first_when_minimising() {
    let t = Tolerance::new(0, 1).unwrap();
    let mut set: RecordSet<1, 1> = RecordSet::new(Goal::Min, t, None);
    set.consider([[b'x']], 30, 0);
    set.consider([[b'y']], 10, 1);
    set.consider([[b'z']], 20, 2);
    let scores: Vec<u64> = set.entries.iter().map(|e| e.0).collect();
    assert_eq!(scores, vec![10, 20, 30]);
    assert_eq!(set.best, 10);
}

#[test]
fn a_better_best_drops_what_falls_below() {
    let t = Tolerance::new(1, 2).unwrap();
    let mut set: RecordSet<1, 1> = RecordSet::new(Goal::Max, t, None);
    set.consider([[b'x']], 10, 0);
    set.consider([[b'y']], 6, 1);
    assert_eq!(set.entries.len(), 2);
    set.consider([[b'z']], 30, 2);
    let scores: Vec<u64> = set.entries.iter().map(|e| e.0).collect();
    assert_eq!(scores, vec![30]);
    assert_eq!(set.threshold, 15);
}

#[test]
fn empty_regions_give_the_identity() {
    let table = unigram_table(&[(b'a', 10)]);
    let fs: Vec<UnigramFingering> = vec![((0, 0, Laterality::Left, Position::Index), Effort(1))];
    let scorer = Scorer::Unigram(&fs, &table);
    let empty = region(&[], &[]);
    let base = [[b'a', b'b']];
    let r = permute_and_substitute(&base, &empty, &empty, &empty, &scorer, Weight::Raw, Goal::Max, Tolerance::new(1, 1).unwrap(), None, None, false);
    let (n, truncated, matrices, records_truncated) = r.unwrap();
    assert_eq!(n, 1);
    assert!(!truncated);
    assert_eq!(matrices, vec![base]);
    assert!(!records_truncated);
}

#[test]
fn pool_length_must_match_markers() {
    let table = unigram_table(&[]);
    let fs: Vec<UnigramFingering> = vec![];
    let scorer = Scorer::Unigram(&fs, &table);
    let bad = region(b"ab", &[(0, 0)]);
    let empty = region(&[], &[]);
    let base = [[0u8, 0]];
    let r = permute_and_substitute(&base, &bad, &empty, &empty, &scorer, Weight::Raw, Goal::Max, Tolerance::new(1, 1).unwrap(), None, None, false);
    assert_eq!(r.err(), Some(SearchError::PoolLengthMismatch { region: 1, markers: 1, pool: 2 }));
}

#[test]
fn partial_permutation_leaves_a_region_alone() {
    let table = unigram_table(&[]);
    let fs: Vec<UnigramFingering> = vec![];
    let scorer = Scorer::Unigram(&fs, &table);
    let unfilled = region(&[], &[(0, 0)]);
    let empty = region(&[], &[]);
    let base = [[1u8, 0]];
    let refused = permute_and_substitute(&base, &unfilled, &empty, &empty, &scorer, Weight::Raw, Goal::Max, Tolerance::new(1, 1).unwrap(), None, None, false);
    assert!(refused.is_err());
    let allowed = permute_and_substitute(&base, &unfilled, &empty, &empty, &scorer, Weight::Raw, Goal::Max, Tolerance::new(1, 1).unwrap(), None, None, true);
    assert_eq!(allowed.unwrap().0, 1);
}

#[test]
fn search_finds_the_best_arrangement() {
    let table = unigram_table(&[(b'a', 10), (b'b', 3), (b'c', 1)]);
    let fs: Vec<UnigramFingering> = vec![((0, 0, Laterality::Left, Position::Index), Effort(1))];
    let scorer = Scorer::Unigram(&fs, &table);
    let r1 = region(b"cab", &[(0, 0), (0, 1), (0, 2)]);
    let empty = region(&[], &[]);
    let base = [[1u8, 1, 1]];
    let (n, truncated, matrices, records_truncated) = permute_and_substitute(&base, &r1, &empty, &empty, &scorer, Weight::Raw, Goal::Max, Tolerance::new(1, 1).unwrap(), None, None, false).unwrap();
    assert_eq!(n, 6);
    assert!(!truncated);
    assert_eq!(matrices, vec![[[b'a', b'c', b'b']], [[b'a', b'b', b'c']]]);
    assert!(!records_truncated);
}

#[test]
fn record_cap_truncates() {
    let table = unigram_table(&[(b'a', 10), (b'b', 3), (b'c', 1)]);
    let fs: Vec<UnigramFingering> = vec![((0, 0, Laterality::Left, Position::Index), Effort(1))];
    let scorer = Scorer::Unigram(&fs, &table);
    let r1 = region(b"cab", &[(0, 0), (0, 1), (0, 2)]);
    let empty = region(&[], &[]);
    let base = [[1u8, 1, 1]];
    let (_, _, matrices, records_truncated) = permute_and_substitute(&base, &r1, &empty, &empty, &scorer, Weight::Raw, Goal::Max, Tolerance::new(0, 1).unwrap(), Some(4), Some(3), false).unwrap();
    assert_eq!(matrices.len(), 3);
    assert!(records_truncated);
    assert_eq!(matrices[0], [[b'a', b'c', b'b']]);
}

#[test]
fn permutation_limit_cuts_the_space() {
    let table = unigram_table(&[]);
    let fs: Vec<UnigramFingering> = vec![];
    let scorer = Scorer::Unigram(&fs, &table);
    let r1 = region(b"abcd", &[(0, 0), (0, 1), (0, 2), (0, 3)]);
    let empty = region(&[], &[]);
    let base = [[0u8; 4]];
    let (n, truncated, _, _) = permute_and_substitute(&base, &r1, &empty, &empty, &scorer, Weight::Raw, Goal::Max, Tolerance::new(1, 1).unwrap(), Some(5), None, false).unwrap();
    assert_eq!(n, 5);
    assert!(truncated);
}

#[test]
fn materialize_splits_the_index() {
    let r1 = region(b"ab", &[(0, 0), (0, 1)]);
    let r2 = region(b"xy", &[(0, 2), (0, 3)]);
    let empty = region(&[], &[]);
    let base = [[0u8; 4]];
    assert_eq!(materialize(&base, &r1, &r2, &empty, 0), [[b'a', b'b', b'x', b'y']]);
    assert_eq!(materialize(&base, &r1, &r2, &empty, 1), [[b'a', b'b', b'y', b'x']]);
    assert_eq!(materialize(&base, &r1, &r2, &empty, 2), [[b'b', b'a', b'x', b'y']]);
}

#[test]
fn search_space_overflow() {
    let big = region(&[b'a'; 21], &[(0, 0); 21]);
    let empty = region(&[], &[]);
    assert_eq!(search_space_size(&big, &empty, &empty), None);
    let r = region(b"abc", &[(0, 0), (0, 1), (0, 2)]);
    assert_eq!(search_space_size(&r, &r, &empty), Some(36));
}

#[test]
fn a_huge_space_is_searched_up_to_the_limit() {
    let table = unigram_table(&[]);
    let fs: Vec<UnigramFingering> = vec![];
    let scorer = Scorer::Unigram(&fs, &table);
    let big = region(b"abcdefghijklmnopqrstu", &[(0, 0); 21]);
    let empty = region(&[], &[]);
    let base = [[0u8; 1]];
    let r = permute_and_substitute(&base, &big, &empty, &empty, &scorer, Weight::Raw, Goal::Max, Tolerance::new(0, 1).unwrap(), Some(3), Some(5), false);
    let (n, truncated, matrices, records_truncated) = r.unwrap();
    assert_eq!((n, truncated, matrices.len(), records_truncated), (3, true, 3, false));
    let plan = plan_search(&big, &empty, &empty, None, None, false).unwrap();
    assert_eq!((plan.n, plan.permutations_truncated), (u64::MAX, true));
}

#[test]
fn plans_and_finishing() {
    let r1 = region(b"abc", &[(0, 0), (0, 1), (0, 2)]);
    let empty = region(&[], &[]);
    let plan = plan_search(&r1, &empty, &empty, Some(10), Some(2), false).unwrap();
    assert_eq!(plan, SearchPlan { n: 6, permutations_truncated: false, capacity: Some(3) });
    let t = Tolerance::new(0, 1).unwrap();
    let mut set: RecordSet<1, 1> = RecordSet::new(Goal::Max, t, plan.capacity);
    set.consider([[b'x']], 3, 0);
    set.consider([[b'y']], 2, 1);
    set.consider([[b'z']], 1, 2);
    assert_eq!(finish_records(set, plan.capacity), (vec![[[b'x']], [[b'y']]], true));
}

#[test]
fn pools_convert_to_arrays() {
    let (a, len) = convert_vec_opt_to_array::<4>(Some(vec![7, 8])).unwrap();
    assert_eq!((a, len), ([7, 8, 0, 0], 2));
    assert_eq!(convert_vec_opt_to_array::<4>(None).unwrap(), ([0; 4], 0));
    assert_eq!(convert_vec_opt_to_array::<1>(Some(vec![1, 2])).err(), Some(PoolTooLong { len: 2, max: 1 }));
}

#[test]
fn pool_bytes_are_checked() {
    assert!(is_valid_pool(b"abc"));
    assert!(!is_valid_pool(&[b'a', 2]));
    assert!(!is_valid_pool(&[200]));
}

#[test]
fn cropping_around_printable_bytes() {
    let m = [[0u8, 0, 0, 0], [0, b'a', 0, 0], [0, 0, b'b', 0], [0, 0, 0, 0]];
    assert_eq!(crop_matrix(&m), (1, 1, 1, 1));
    let blank = [[0u8; 3]; 2];
    assert_eq!(crop_matrix(&blank), (2, 3, 2, 3));
    assert!(is_printable(b' '));
    assert!(is_printable(b'~'));
    assert!(!is_printable(0x7f));
}

#[test]
fn decoding_in_place_keeps_the_tail() {
    let mut out = [0u8; 5];
    index_to_permutation_in_place(5, &[b'A', b'B', b'C'], &mut out);
    assert_eq!(out, [b'C', b'B', b'A', 0, 0]);
}

#[test]
fn swap_order_generation() {
    let all = generate_permutations([b'A', b'B', b'C']);
    assert_eq!(
        all,
        vec![
            [b'A', b'B', b'C'],
            [b'A', b'C', b'B'],
            [b'B', b'A', b'C'],
            [b'B', b'C', b'A'],
            [b'C', b'B', b'A'],
            [b'C', b'A', b'B'],
        ]
    );
    assert_eq!(generate_permutations_to_limit([1u8, 2, 3], 2), vec![[1, 2, 3], [2, 1, 3]]);
    assert_eq!(generate_permutations_to_limit([1u8, 2], 0), vec![[1, 2]]);
    assert_eq!(generate_permutations_to_limit([1u8, 2], 9).len(), 2);
}
