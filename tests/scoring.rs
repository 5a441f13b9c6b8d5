use perky::fingerings::{BigramFingering, Effort, UnigramFingering};
use perky::layouts::{Digit, Laterality, LayoutTable, Position};
use perky::metrics::{BigramMetric, Metric, TrigramMetric, UnigramMetric};
use perky::records::measure;
use perky::ngrams::{BigramKey, TrigramKey, UnigramKey, BIGRAM_TABLE_LEN, UNIGRAM_TABLE_LEN};
use perky::scores::{
    score_bfs_without_details, score_ufs, score_ufs_without_details, weighted_value, ScoreMode, Scorer,
};
use perky::tables::Table;
use perky::weights::Weight;

fn one_cell(effort: u64) -> Vec<UnigramFingering> {
    vec![((0, 0, Laterality::Left, Position::Index), Effort(effort))]
}

#[test]
fn unigram_scoring_example() {
    let mut table = vec![0u64; UNIGRAM_TABLE_LEN];
    table[b'a' as usize] = 10;
    table[b'b' as usize] = 3;
    // an effort of 2 is held as its square
    let fs = one_cell(4);
    assert_eq!(score_ufs_without_details(&fs, &[[b'a']], &table), (10, 20));
    assert_eq!(score_ufs_without_details(&fs, &[[b'b']], &table), (3, 6));
}

#[test]
fn weighting_truncates_after_multiplying() {
    assert_eq!(weighted_value(10, 2), 14);
    assert_eq!(weighted_value(3, 2), 4);
    assert_eq!(weighted_value(7, 0), 0);
    assert_eq!(weighted_value(7, 1), 7);
    assert_eq!(weighted_value(5, 9), 15);
    assert_eq!(weighted_value(u64::MAX, 4), u64::MAX);
}

#[test]
fn detailed_scoring_lists_each_score() {
    let mut table = vec![0u64; UNIGRAM_TABLE_LEN];
    table[b'a' as usize] = 10;
    let fs = one_cell(1);
    let (details, sum, sum_ew) = score_ufs(&fs, &[[b'a']], &table, ScoreMode::Detailed);
    let details = details.unwrap();
    assert_eq!(details.len(), 1);
    assert_eq!(details[0].key, UnigramKey(b'a'));
    assert_eq!((sum, sum_ew), (10, 10));
    let (none, _, _) = score_ufs(&fs, &[[b'a']], &table, ScoreMode::Summary);
    assert!(none.is_none());
}

#[test]
fn bigram_scoring_packs_keys() {
    let mut table = vec![0u64; BIGRAM_TABLE_LEN];
    table[(b'a' as usize) << 8 | b'b' as usize] = 5;
    let f1 = (0, 0, Laterality::Left, Position::Index);
    let f2 = (0, 1, Laterality::Left, Position::Middle);
    let fs: Vec<BigramFingering> = vec![(f1, f2, Effort(1))];
    assert_eq!(score_bfs_without_details(&fs, &[[b'a', b'b']], &table), (5, 5));
    let scorer = Scorer::Bigram(&fs, &table);
    assert_eq!(scorer.score(Weight::Raw, &[[b'a', b'b']]), 5);
}

#[test]
fn keys_pack_and_unpack() {
    assert_eq!(BigramKey::from_pair(1, 2).as_u16(), 258);
    assert_eq!(BigramKey::from_pair(1, 2).as_u8_pair(), (1, 2));
    assert_eq!(TrigramKey::from_triple(1, 2, 3).as_u32(), 66051);
    assert_eq!(TrigramKey::from_triple(1, 2, 3).as_u8_triple(), (1, 2, 3));
    assert_eq!(UnigramKey::from_byte(7).as_usize(), 7);
}

fn layout() -> LayoutTable<3, 1> {
    let mut t = Table::empty();
    t.0[0][0] = Some(Digit(Laterality::Left, Position::Ring));
    t.0[0][1] = Some(Digit(Laterality::Left, Position::Middle));
    t.0[0][2] = Some(Digit(Laterality::Right, Position::Index));
    LayoutTable(t)
}

#[test]
fn bigrams_never_repeat_a_position() {
    let bs = layout().bigram_fingerings();
    assert_eq!(bs.get().len(), 6);
    for b in bs.get() {
        assert!((b.0 .0, b.0 .1) != (b.1 .0, b.1 .1));
    }
    let ts = layout().trigram_fingerings();
    assert_eq!(ts.get().len(), 6);
}

#[test]
fn bigram_efforts_are_squared_distances() {
    let all = layout().iter_fp();
    assert_eq!(all.len(), 9);
    // ring to middle on one hand: one column apart
    assert_eq!(all[1].2, Effort(1));
    // ring to the other hand
    assert_eq!(all[2].2, Effort(1));
    // ring to ring
    assert_eq!(all[0].2, Effort(0));
}

#[test]
fn metrics_select_fingerings() {
    let bs = layout().bigram_fingerings();
    // ring then middle, adjacent, same row: an inward roll
    assert_eq!(bs.get_by_metric(BigramMetric::Irb).len(), 1);
    assert_eq!(bs.get_by_metric(BigramMetric::Orb).len(), 1);
    assert_eq!(bs.get_by_metric(BigramMetric::Sfb).len(), 0);
    let us = layout().unigram_fingerings();
    assert_eq!(us.get_by_metric(UnigramMetric::Lh).len(), 2);
    assert_eq!(us.get_by_metric(UnigramMetric::Ri).len(), 1);
    let ts = layout().trigram_fingerings();
    assert_eq!(ts.get_by_metric(TrigramMetric::Alt).len(), 2);
}

#[test]
fn masking_empties_rejected_cells() {
    let mut l = layout();
    l.mask(|_r, c, _d| c != 1);
    assert!(l.0 .0[0][1].is_none());
    assert!(l.0 .0[0][0].is_some());
}

#[test]
fn metric_goals() {
    assert_eq!(UnigramMetric::Lp.goal(), perky::goals::Goal::Min);
    assert_eq!(UnigramMetric::Li.goal(), perky::goals::Goal::Max);
    assert_eq!(BigramMetric::Irb.goal(), perky::goals::Goal::Max);
    assert_eq!(BigramMetric::Sfb.goal(), perky::goals::Goal::Min);
    assert_eq!(TrigramMetric::Rol.goal(), perky::goals::Goal::Min);
}

#[test]
fn measuring_a_record() {
    let mut t: Table<16, 8, Digit> = Table::empty();
    t.0[0][0] = Some(Digit(Laterality::Left, Position::Ring));
    t.0[0][1] = Some(Digit(Laterality::Left, Position::Middle));
    let layout = LayoutTable(t);
    let us = layout.unigram_fingerings();
    let bs = layout.bigram_fingerings();
    let ts = layout.trigram_fingerings();
    let mut ut = vec![0u64; UNIGRAM_TABLE_LEN];
    ut[b'a' as usize] = 10;
    ut[b'b' as usize] = 3;
    let mut bt = vec![0u64; BIGRAM_TABLE_LEN];
    bt[(b'a' as usize) << 8 | b'b' as usize] = 7;
    let tt = vec![0u64; perky::ngrams::TRIGRAM_TABLE_LEN];
    let mut m = [[0u8; 16]; 8];
    m[0][0] = b'a';
    m[0][1] = b'b';
    let detailed = [Metric::Unigram(UnigramMetric::Lr)];
    let r = measure(m, &us, &bs, &ts, &ut, &bt, &tt, &detailed);
    assert_eq!(r.key_table_matrix, m);
    assert_eq!((r.unigram_measurements.len(), r.bigram_measurements.len(), r.trigram_measurements.len()), (12, 6, 4));
    assert_eq!((r.uf_sum, r.bf_sum, r.tf_sum), (13, 7, 0));
    let lr = &r.unigram_measurements[UnigramMetric::Lr.as_usize()];
    assert_eq!(lr.sum, 10);
    assert!(lr.opt_details.is_some());
    let lm = &r.unigram_measurements[UnigramMetric::Lm.as_usize()];
    assert_eq!(lm.sum, 3);
    assert!(lm.opt_details.is_none());
    assert_eq!(r.unigram_measurements[UnigramMetric::Lh.as_usize()].sum, 13);
    // ring then middle on one row, adjacent: an inward roll
    assert_eq!(r.bigram_measurements[BigramMetric::Irb.as_usize()].sum, 7);
    assert_eq!(r.bigram_measurements[BigramMetric::Irb.as_usize()].sum_ew, 7);
}
