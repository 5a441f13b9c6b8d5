use perky::expressions::{BinaryOperator, Comparison, Expression, ParseError};
use perky::keys::{Key, KeyTable};
use perky::layouts::{Digit, Laterality, LayoutTable, Position};
use perky::measurements::Measurement;
use perky::metrics::{partition_sort_rules, BigramMetric, Metric, SortDirection, SortRule, TrigramMetric, UnigramMetric};
use perky::ngrams::{
    ngram_table_from_fields, parse_count, read_bigram_table, read_unigram_table, sum_ngram_table, NgramError,
    RowError, UNIGRAM_TABLE_LEN,
};
use perky::records::{select_records, sort_records, Record, SelectError};
use perky::scores::Score;
use perky::ngrams::UnigramKey;
use perky::strings::{unescape, EscapeError};
use perky::tables::{CellError, JsonCell, JsonGrid, JsonRow, TableError};
use perky::weights::Weight;

fn record(tag: u8, lt_sum: u64) -> Record {
    let mut unigram_measurements = Vec::new();
    for _ in 0..12 {
        unigram_measurements.push(Measurement::new(None, lt_sum, lt_sum * 2));
    }
    Record {
        key_table_matrix: [[tag; 16]; 8],
        unigram_measurements,
        bigram_measurements: Vec::new(),
        trigram_measurements: Vec::new(),
        uf_sum: 0,
        uf_sum_ew: 0,
        bf_sum: 0,
        bf_sum_ew: 0,
        tf_sum: 0,
        tf_sum_ew: 0,
    }
}

fn tags(rs: &[Record]) -> Vec<u8> {
    rs.iter().map(|r| r.key_table_matrix[0][0]).collect()
}

#[test]
fn selection_truncates_then_picks() {
    let rs = vec![record(1, 0), record(2, 0), record(3, 0)];
    assert_eq!(tags(&select_records(rs, Some(2), None).unwrap()), vec![1, 2]);
    let rs = vec![record(1, 0), record(2, 0), record(3, 0)];
    assert_eq!(tags(&select_records(rs, None, Some(-1)).unwrap()), vec![3]);
    let rs = vec![record(1, 0), record(2, 0), record(3, 0)];
    assert_eq!(tags(&select_records(rs, Some(2), Some(1)).unwrap()), vec![2]);
}

#[test]
fn selection_out_of_range() {
    let rs = vec![record(1, 0), record(2, 0)];
    match select_records(rs, None, Some(2)) {
        Err(e) => assert_eq!(e, SelectError::IndexOutOfRange { index: 2, length: 2 }),
        Ok(_) => panic!("expected an error"),
    }
    let rs = vec![record(1, 0)];
    assert!(select_records(rs, None, Some(-2)).is_err());
}

#[test]
fn sorting_is_stable_and_directed() {
    let mut rs = vec![record(1, 5), record(2, 3), record(3, 5), record(4, 1)];
    let rules = [SortRule { metric: Metric::Unigram(UnigramMetric::Lt), sort_direction: SortDirection::Descending }];
    sort_records(&mut rs, &rules, Weight::Raw);
    assert_eq!(tags(&rs), vec![1, 3, 2, 4]);
    let rules = [SortRule { metric: Metric::Unigram(UnigramMetric::Lt), sort_direction: SortDirection::Ascending }];
    sort_records(&mut rs, &rules, Weight::Effort);
    assert_eq!(tags(&rs), vec![4, 2, 1, 3]);
}

#[test]
fn record_sums_by_metric() {
    let r = record(1, 4);
    assert_eq!(r.sum(Metric::Unigram(UnigramMetric::Rh), Weight::Raw), Some(4));
    assert_eq!(r.sum(Metric::Unigram(UnigramMetric::Rh), Weight::Effort), Some(8));
    assert_eq!(r.sum(Metric::Bigram(BigramMetric::Sfb), Weight::Raw), None);
}

#[test]
fn normalizing_drops_zeros_and_sorts() {
    let details = vec![
        Score { key: UnigramKey(b'a'), value: 1, value_ew: 5 },
        Score { key: UnigramKey(b'b'), value: 0, value_ew: 0 },
        Score { key: UnigramKey(b'c'), value: 3, value_ew: 2 },
    ];
    let mut m = Measurement::new(Some(details), 4, 7);
    m.retain_non_zero_details();
    m.sort_details(Weight::Raw);
    let keys: Vec<u8> = m.opt_details.as_ref().unwrap().iter().map(|s| s.key.0).collect();
    assert_eq!(keys, vec![b'c', b'a']);
    m.sort_details(Weight::Effort);
    let keys: Vec<u8> = m.opt_details.as_ref().unwrap().iter().map(|s| s.key.0).collect();
    assert_eq!(keys, vec![b'a', b'c']);
    assert_eq!(m.sum_by_weight(Weight::Effort), 7);
}

#[test]
fn sort_rules_split_by_arity() {
    let rules = [
        SortRule { metric: Metric::Bigram(BigramMetric::Sfb), sort_direction: SortDirection::Ascending },
        SortRule { metric: Metric::Unigram(UnigramMetric::Lt), sort_direction: SortDirection::Ascending },
        SortRule { metric: Metric::Trigram(TrigramMetric::Alt), sort_direction: SortDirection::Descending },
    ];
    let (u, b, t) = partition_sort_rules(&rules);
    assert_eq!(u, vec![UnigramMetric::Lt]);
    assert_eq!(b, vec![BigramMetric::Sfb]);
    assert_eq!(t, vec![TrigramMetric::Alt]);
    assert_eq!(Metric::get_variables().len(), 22);
}

fn chars(s: &str) -> Vec<char> {
    s.chars().collect()
}

#[test]
fn unescaping() {
    assert_eq!(unescape::<true>(&chars("a\\tb")).unwrap(), chars("a\tb"));
    assert_eq!(unescape::<true>(&chars("\\x41\\0")).unwrap(), chars("A\0"));
    assert_eq!(unescape::<false>(&chars("\\x41")).err(), Some(EscapeError::UnknownEscape('x')));
    assert_eq!(unescape::<true>(&chars("a\\")).err(), Some(EscapeError::TrailingBackslash));
    assert_eq!(unescape::<true>(&chars("\\x4")).err(), Some(EscapeError::IncompleteHex));
    assert_eq!(unescape::<true>(&chars("\\xzz")).err(), Some(EscapeError::InvalidHex));
    assert_eq!(unescape::<true>(&chars("\\x80")).err(), Some(EscapeError::NonAsciiHex));
}

#[test]
fn counts_parse() {
    assert_eq!(parse_count(&chars("42")), Some(42));
    assert_eq!(parse_count(&chars("+7")), Some(7));
    assert_eq!(parse_count(&chars("")), None);
    assert_eq!(parse_count(&chars("-1")), None);
    assert_eq!(parse_count(&chars("18446744073709551615")), Some(u64::MAX));
    assert_eq!(parse_count(&chars("18446744073709551616")), None);
}

#[test]
fn unigram_file_reads() {
    let t = read_unigram_table(b"a\t10\nb\t3\n\\x01\t9\n").unwrap();
    assert_eq!(t.len(), UNIGRAM_TABLE_LEN);
    assert_eq!(t[b'a' as usize], 10);
    assert_eq!(t[b'b' as usize], 3);
    assert_eq!(t[1], 0);
    assert_eq!(sum_ngram_table(&t), Some(13));
}

#[test]
fn bigram_file_rejects_short_keys() {
    match read_bigram_table(b"ab\t1\nc\t2\n") {
        Err(NgramError::Row { row, error }) => {
            assert_eq!(row, 1);
            assert_eq!(error, RowError::InvalidKey);
        },
        _ => panic!("expected a row error"),
    }
}

#[test]
fn rows_with_errors() {
    let rows = vec![vec![chars("a")]];
    assert_eq!(ngram_table_from_fields(&rows, 1, UNIGRAM_TABLE_LEN).err(), Some((0, RowError::MissingValue)));
    let rows = vec![vec![chars("a"), chars("x")]];
    assert_eq!(ngram_table_from_fields(&rows, 1, UNIGRAM_TABLE_LEN).err(), Some((0, RowError::InvalidValue)));
    let rows = vec![vec![]];
    assert_eq!(ngram_table_from_fields(&rows, 1, UNIGRAM_TABLE_LEN).err(), Some((0, RowError::MissingKey)));
    let rows = vec![vec![chars("\\q"), chars("1")]];
    assert_eq!(ngram_table_from_fields(&rows, 1, UNIGRAM_TABLE_LEN).err(), Some((0, RowError::Escape(EscapeError::UnknownEscape('q')))));
}

fn key_table() -> KeyTable<3, 2> {
    let mut t = KeyTable::from_byte_matrix(&[[b'a', 1, 0], [0, 0, 0]]);
    t.0 .0[1][0] = Some(Key::Three);
    t
}

#[test]
fn key_table_round_trip() {
    let t = key_table();
    let json = t.to_json();
    match &json {
        JsonGrid::Rows(rows) => {
            assert_eq!(rows.len(), 2);
            match &rows[0] {
                JsonRow::Cells(cells) => assert_eq!(cells.len(), 2),
                JsonRow::NotArray => panic!("a row is an array"),
            }
        },
        JsonGrid::NotArray => panic!("a table is an array"),
    }
    let back = KeyTable::<3, 2>::from_json(&json).unwrap();
    assert_eq!(back.to_byte_matrix(), t.to_byte_matrix());
    assert_eq!(t.to_byte_matrix(), [[b'a', 1, 0], [3, 0, 0]]);
}

#[test]
fn key_table_positions() {
    assert_eq!(key_table().positions_of(Key::One), vec![(0, 1)]);
    assert_eq!(key_table().positions_of(Key::Two), vec![]);
}

#[test]
fn table_file_errors() {
    let too_many = JsonGrid::Rows(vec![JsonRow::Cells(vec![]), JsonRow::Cells(vec![]), JsonRow::Cells(vec![])]);
    assert_eq!(KeyTable::<3, 2>::from_json(&too_many).err(), Some(TableError::TooManyRows { max: 2 }));
    assert_eq!(KeyTable::<3, 2>::from_json(&JsonGrid::NotArray).err(), Some(TableError::NotArray));
    let bad_row = JsonGrid::Rows(vec![JsonRow::NotArray]);
    assert_eq!(KeyTable::<3, 2>::from_json(&bad_row).err(), Some(TableError::RowNotArray { row: 0 }));
    let wide = JsonGrid::Rows(vec![JsonRow::Cells(vec![JsonCell::Null, JsonCell::Null, JsonCell::Null, JsonCell::Null])]);
    assert_eq!(KeyTable::<3, 2>::from_json(&wide).err(), Some(TableError::TooManyColumns { row: 0, max: 3 }));
    let cells = |c: JsonCell| JsonGrid::Rows(vec![JsonRow::Cells(vec![c])]);
    assert_eq!(
        KeyTable::<3, 2>::from_json(&cells(JsonCell::Number(Some(4)))).err(),
        Some(TableError::InvalidCell { row: 0, column: 0, error: CellError::InvalidKeyNumber(Some(4)) })
    );
    assert_eq!(
        KeyTable::<3, 2>::from_json(&cells(JsonCell::Text(vec!['a', 'b']))).err(),
        Some(TableError::InvalidCell { row: 0, column: 0, error: CellError::InvalidKeyText })
    );
    assert_eq!(
        KeyTable::<3, 2>::from_json(&cells(JsonCell::Text(vec!['\u{2}']))).err(),
        Some(TableError::InvalidCell { row: 0, column: 0, error: CellError::ReservedKeyText })
    );
    assert_eq!(
        KeyTable::<3, 2>::from_json(&cells(JsonCell::Other)).err(),
        Some(TableError::InvalidCell { row: 0, column: 0, error: CellError::InvalidType })
    );
    assert_eq!(
        LayoutTable::<3, 2>::from_json(&cells(JsonCell::Text(vec!['x', 'y']))).err(),
        Some(TableError::InvalidCell { row: 0, column: 0, error: CellError::InvalidDigitText })
    );
}

#[test]
fn layout_table_round_trip() {
    let grid = JsonGrid::Rows(vec![JsonRow::Cells(vec![JsonCell::Null, JsonCell::Text(vec!['r', 'p'])])]);
    let t = LayoutTable::<3, 2>::from_json(&grid).unwrap();
    assert_eq!(t.0 .0[0][1], Some(Digit(Laterality::Right, Position::Pinky)));
    let again = LayoutTable::<3, 2>::from_json(&t.to_json()).unwrap();
    assert_eq!(again.0 .0, t.0 .0);
}

#[test]
fn filters_parse() {
    assert!(Expression::parse("sfb < 2 && alt > 30").is_ok());
    assert!(Expression::parse("-(a + 1.5) * !b").is_ok());
}

#[test]
fn chained_comparisons_are_refused() {
    match Expression::parse("a < b < c") {
        Err(ParseError::ChainedNonAssociative(c)) => assert_eq!(c, Comparison::Relational),
        _ => panic!("expected a chained comparison error"),
    }
    match Expression::parse("a == b != c") {
        Err(ParseError::ChainedNonAssociative(c)) => assert_eq!(c, Comparison::Equality),
        _ => panic!("expected a chained comparison error"),
    }
}

#[test]
fn parse_errors() {
    assert!(matches!(Expression::parse("   "), Err(ParseError::EmptyInput)));
    assert!(matches!(Expression::parse("(a"), Err(ParseError::UnmatchedParenthesis)));
    assert!(matches!(Expression::parse("a +"), Err(ParseError::UnexpectedEoi)));
    assert!(matches!(Expression::parse("a b"), Err(ParseError::UnexpectedToken(_))));
    assert!(matches!(Expression::parse("."), Err(ParseError::InvalidNumber(_))));
    assert!(matches!(Expression::parse("a = b"), Err(ParseError::UnexpectedToken(_))));
}

#[test]
fn filter_structure() {
    match Expression::parse("sfb < 2 && alt > 30").unwrap() {
        Expression::Binary { left, operator, right } => {
            assert_eq!(operator, BinaryOperator::And);
            match (*left, *right) {
                (
                    Expression::Binary { left: l1, operator: BinaryOperator::Lt, right: r1 },
                    Expression::Binary { left: l2, operator: BinaryOperator::Gt, right: r2 },
                ) => {
                    assert!(matches!(*l1, Expression::Name(ref n) if n.iter().collect::<String>() == "sfb"));
                    assert!(matches!(*r1, Expression::Number(ref n) if n.iter().collect::<String>() == "2"));
                    assert!(matches!(*l2, Expression::Name(ref n) if n.iter().collect::<String>() == "alt"));
                    assert!(matches!(*r2, Expression::Number(ref n) if n.iter().collect::<String>() == "30"));
                },
                _ => panic!("expected two comparisons"),
            }
        },
        _ => panic!("expected a conjunction"),
    }
}

#[test]
fn hex_escapes_take_two_digits() {
    assert_eq!(unescape::<true>(&chars("\\x+5")).err(), Some(EscapeError::InvalidHex));
    assert_eq!(unescape::<true>(&chars("\\x7f")).unwrap(), vec!['\u{7f}']);
}

#[test]
fn leftover_tokens_are_reported() {
    match Expression::parse("1 2") {
        Err(ParseError::UnexpectedToken(t)) => assert_eq!(t, chars("2")),
        _ => panic!("expected an unexpected token"),
    }
    match Expression::parse("a )") {
        Err(ParseError::UnexpectedToken(t)) => assert_eq!(t, chars(")")),
        _ => panic!("expected an unexpected token"),
    }
}

#[test]
fn metric_names_in_order() {
    let names = Metric::get_variables();
    assert_eq!(
        names,
        vec![
            "lt", "li", "lm", "lr", "lp", "lh", "rt", "ri", "rm", "rr", "rp", "rh", "fsb", "hsb", "irb", "lsb", "orb",
            "sfb", "alt", "one", "red", "rol"
        ]
    );
    assert_eq!(Metric::Bigram(BigramMetric::Irb).goal(), perky::goals::Goal::Max);
    assert_eq!(Metric::Unigram(UnigramMetric::Rp).goal(), perky::goals::Goal::Min);
}

#[test]
fn marker_positions_row_by_row() {
    let t = KeyTable::<3, 2>::from_byte_matrix(&[[1, b'a', 1], [0, 1, 2]]);
    assert_eq!(t.positions_of(Key::One), vec![(0, 0), (0, 2), (1, 1)]);
    assert_eq!(t.positions_of(Key::Two), vec![(1, 2)]);
}

#[test]
fn equal_details_keep_their_order() {
    let details = vec![
        Score { key: UnigramKey(b'a'), value: 2, value_ew: 0 },
        Score { key: UnigramKey(b'b'), value: 5, value_ew: 0 },
        Score { key: UnigramKey(b'c'), value: 2, value_ew: 0 },
        Score { key: UnigramKey(b'd'), value: 2, value_ew: 0 },
    ];
    let mut m = Measurement::new(Some(details), 11, 0);
    m.sort_details(Weight::Raw);
    let keys: Vec<u8> = m.opt_details.as_ref().unwrap().iter().map(|s| s.key.0).collect();
    assert_eq!(keys, vec![b'b', b'a', b'c', b'd']);
}

#[test]
fn filter_symbols_skip_empty_totals() {
    let mut r = record(1, 4);
    r.uf_sum = 8;
    let symbols = r.symbol_sources(Weight::Raw);
    assert_eq!(symbols.len(), 12);
    assert_eq!(symbols[0], ("lt", 4, 8));
    assert_eq!(symbols[11], ("rh", 4, 8));
    r.uf_sum = 0;
    assert!(r.symbol_sources(Weight::Raw).is_empty());
}

#[test]
fn variables_left_to_right() {
    let e = Expression::parse("sfb < 2 && (alt > sfb || !one)").unwrap();
    let names: Vec<String> = e.collect_variables().iter().map(|n| n.iter().collect()).collect();
    assert_eq!(names, vec!["sfb", "alt", "sfb", "one"]);
}
