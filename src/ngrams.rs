use vstd::prelude::*;

use crate::strings::{unescape, unescaped, EscapeError};

verus! {

/// The packed key of a unigram: its byte.
#[derive(Clone, Copy, Debug, PartialEq, Eq, Structural, PartialOrd, Ord)]
pub struct UnigramKey(pub u8);

impl UnigramKey {
    pub fn from_byte(b: u8) -> (k: UnigramKey)
        ensures
            k.0 == b,
    {
        UnigramKey(b)
    }

    pub fn as_u8(&self) -> (b: u8)
        ensures
            b == self.0,
    {
        self.0
    }

    pub fn as_usize(&self) -> (i: usize)
        ensures
            i == self.0 as usize,
            i < UNIGRAM_TABLE_LEN,
    {
        self.0 as usize
    }
}

/// The packed key of a bigram: `(b1 << 8) | b2`.
#[derive(Clone, Copy, Debug, PartialEq, Eq, Structural, PartialOrd, Ord)]
pub struct BigramKey(pub u16);

pub open spec fn pack2(b1: u8, b2: u8) -> nat {
    b1 as nat * 256 + b2 as nat
}

pub open spec fn pack3(b1: u8, b2: u8, b3: u8) -> nat {
    b1 as nat * 65536 + b2 as nat * 256 + b3 as nat
}

impl BigramKey {
    pub fn from_pair(b1: u8, b2: u8) -> (k: BigramKey)
        ensures
            k.0 == pack2(b1, b2),
    {
        BigramKey(b1 as u16 * 256 + b2 as u16)
    }

    pub fn as_u8_pair(&self) -> (p: (u8, u8))
        ensures
            pack2(p.0, p.1) == self.0,
    {
        ((self.0 / 256) as u8, (self.0 % 256) as u8)
    }

    pub fn as_u16(&self) -> (v: u16)
        ensures
            v == self.0,
    {
        self.0
    }

    pub fn as_usize(&self) -> (i: usize)
        ensures
            i == self.0 as usize,
            i < BIGRAM_TABLE_LEN,
    {
        self.0 as usize
    }
}

/// The packed key of a trigram: `(b1 << 16) | (b2 << 8) | b3`.
#[derive(Clone, Copy, Debug, PartialEq, Eq, Structural, PartialOrd, Ord)]
pub struct TrigramKey(pub u32);

impl TrigramKey {
    pub fn from_triple(b1: u8, b2: u8, b3: u8) -> (k: TrigramKey)
        ensures
            k.0 == pack3(b1, b2, b3),
            k.0 < TRIGRAM_TABLE_LEN,
    {
        TrigramKey(b1 as u32 * 65536 + b2 as u32 * 256 + b3 as u32)
    }

    pub fn as_u8_triple(&self) -> (t: (u8, u8, u8))
        requires
            self.0 < TRIGRAM_TABLE_LEN,
        ensures
            pack3(t.0, t.1, t.2) == self.0,
    {
        ((self.0 / 65536) as u8, ((self.0 / 256) % 256) as u8, (self.0 % 256) as u8)
    }

    pub fn as_u32(&self) -> (v: u32)
        ensures
            v == self.0,
    {
        self.0
    }

    pub fn as_usize(&self) -> (i: usize)
        ensures
            i == self.0 as usize,
    {
        self.0 as usize
    }
}

/// The number of cells of a unigram table: one per byte.
pub const UNIGRAM_TABLE_LEN: usize = 256;

/// The number of cells of a bigram table: one per pair of bytes.
pub const BIGRAM_TABLE_LEN: usize = 65536;

/// The number of cells of a trigram table: one per triple of bytes.
pub const TRIGRAM_TABLE_LEN: usize = 16777216;

/// The sum of the first `n` cells of a table.
pub open spec fn table_sum(t: Seq<u64>, n: nat) -> nat
    decreases n,
{
    if n == 0 || n > t.len() {
        0
    } else {
        table_sum(t, (n - 1) as nat) + t[n - 1] as nat
    }
}

/// The sum of all the counts of a table, or `None` where it exceeds `u64`.
pub fn sum_ngram_table(table: &[u64]) -> (r: Option<u64>)
    ensures
        r matches Some(s) ==> s == table_sum(table@, table@.len()),
        r is None ==> table_sum(table@, table@.len()) > u64::MAX,
{
    let mut acc: u64 = 0;
    let mut i: usize = 0;
    while i < table.len()
        invariant
            i <= table@.len(),
            acc == table_sum(table@, i as nat),
        decreases table.len() - i,
    {
        match acc.checked_add(table[i]) {
            Some(s) => acc = s,
            None => {
                proof {
                    lemma_table_sum_grows(table@, (i + 1) as nat, table@.len());
                }
                return None;
            },
        }
        i = i + 1;
    }
    Some(acc)
}

proof fn lemma_table_sum_grows(t: Seq<u64>, m: nat, n: nat)
    requires
        m <= n <= t.len(),
    ensures
        table_sum(t, m) <= table_sum(t, n),
    decreases n,
{
    if m < n {
        lemma_table_sum_grows(t, m, (n - 1) as nat);
    }
}


/// csv's error type, carried to the caller as it is.
#[verifier::external_type_specification]
#[verifier::external_body]
pub struct ExCsvError(csv::Error);

/// The fields of each record of a tab-separated file without header row and
/// without quoting, as csv's reader splits it.
pub uninterp spec fn tsv_fields(bytes: Seq<u8>) -> Seq<Seq<Seq<char>>>;

/// Whether csv's reader reads every record of the bytes.
pub uninterp spec fn tsv_reads(bytes: Seq<u8>) -> bool;

pub open spec fn deep_fields(rows: Seq<Vec<Vec<char>>>) -> Seq<Seq<Seq<char>>> {
    rows.map_values(|r: Vec<Vec<char>>| r@.map_values(|f: Vec<char>| f@))
}

/// Relies on csv's `ReaderBuilder` (tab delimiter, no header row, no
/// quoting) and `Reader::records`: whether every record reads depends on the
/// bytes alone, and where all do, the fields of each record, in order.
#[verifier::external_body]
fn read_tsv(bytes: &[u8]) -> (r: Result<Vec<Vec<Vec<char>>>, csv::Error>)
    ensures
        r is Ok <==> tsv_reads(bytes@),
        r matches Ok(rows) ==> deep_fields(rows@) == tsv_fields(bytes@),
{
    let mut reader = csv::ReaderBuilder::new().delimiter(b'\t').has_headers(false).quoting(false).from_reader(bytes);
    let mut rows = Vec::new();
    for record in reader.records() {
        rows.push(record?.iter().map(|f| f.chars().collect()).collect());
    }
    Ok(rows)
}

/// The value of a string of decimal digits.
pub open spec fn digits_value(s: Seq<char>) -> nat
    decreases s.len(),
{
    if s.len() == 0 {
        0
    } else {
        (digits_value(s.drop_last()) * 10 + (s.last() as int - '0' as int)) as nat
    }
}

pub open spec fn all_digits(s: Seq<char>) -> bool {
    forall|i: int| 0 <= i < s.len() ==> '0' <= #[trigger] s[i] <= '9'
}

/// The count that a string writes, as an unsigned integer parse reads it: an
/// optional plus sign, then one or more decimal digits, at most `u64::MAX`.
pub open spec fn parsed_count(s: Seq<char>) -> Option<u64> {
    parsed_count_of_digits(
        if s.len() > 0 && s[0] == '+' {
            s.drop_first()
        } else {
            s
        },
    )
}

proof fn lemma_digits_grow(s: Seq<char>, i: int)
    requires
        0 <= i <= s.len(),
        all_digits(s),
    ensures
        digits_value(s.take(i)) <= digits_value(s),
    decreases s.len() - i,
{
    if i < s.len() {
        lemma_digits_grow(s, i + 1);
        assert(s.take(i + 1).drop_last() =~= s.take(i));
        assert(s.take(i + 1)[i] == s[i]);
    } else {
        assert(s.take(i) =~= s);
    }
}

/// Parses a count: see [`parsed_count`].
pub fn parse_count(s: &[char]) -> (r: Option<u64>)
    ensures
        r == parsed_count(s@),
{
    let start: usize = if s.len() > 0 && s[0] == '+' { 1 } else { 0 };
    let ghost d = if s@.len() > 0 && s@[0] == '+' { s@.drop_first() } else { s@ };
    assert(d =~= s@.skip(start as int));
    assert(parsed_count(s@) == parsed_count_of_digits(d));
    if start == s.len() {
        return None;
    }
    let mut acc: u64 = 0;
    let mut i: usize = start;
    assert(d.take(0) =~= Seq::<char>::empty());
    while i < s.len()
        invariant
            start <= i <= s@.len(),
            d =~= s@.skip(start as int),
            parsed_count(s@) == parsed_count_of_digits(d),
            forall|k: int| 0 <= k < i - start ==> '0' <= #[trigger] d[k] <= '9',
            acc == digits_value(d.take(i - start)),
        decreases s.len() - i,
    {
        let c = s[i];
        assert(d[i - start] == c);
        if !('0' <= c && c <= '9') {
            assert(!all_digits(d));
            assert(parsed_count_of_digits(d) is None);
            return None;
        }
        let digit = (c as u32 - '0' as u32) as u64;
        assert(d.take(i - start + 1).drop_last() =~= d.take(i - start));
        match acc.checked_mul(10) {
            None => {
                proof {
                    lemma_overflow_exceeds(d, (i - start) as int);
                }
                return None;
            },
            Some(m) => match m.checked_add(digit) {
                None => {
                    proof {
                        lemma_overflow_exceeds(d, (i - start) as int);
                    }
                    return None;
                },
                Some(v) => acc = v,
            },
        }
        i = i + 1;
    }
    assert(d.take(d.len() as int) =~= d);
    Some(acc)
}

/// Where the digits up to `i` already exceed `u64::MAX` once extended, the
/// whole string does too, or it is not all digits.
proof fn lemma_overflow_exceeds(d: Seq<char>, i: int)
    requires
        0 <= i < d.len(),
        '0' <= d[i] <= '9',
        digits_value(d.take(i)) * 10 + (d[i] as int - '0' as int) > u64::MAX,
    ensures
        parsed_count_of_digits(d) is None,
{
    if all_digits(d) {
        assert(d.take(i + 1).drop_last() =~= d.take(i));
        lemma_digits_grow(d, i + 1);
    }
}

pub open spec fn parsed_count_of_digits(d: Seq<char>) -> Option<u64> {
    if d.len() > 0 && all_digits(d) && digits_value(d) <= u64::MAX {
        Some(digits_value(d) as u64)
    } else {
        None
    }
}


/// A character that an n-gram key may hold: NUL, or ASCII from 0x04 on (0x01
/// to 0x03 stand for the regions).
pub open spec fn allowed_key_char(c: char) -> bool {
    c == '\0' || ('\x04' <= c && c <= '\x7f')
}

/// The packed key of a string of bytes, first byte highest.
pub open spec fn packed_key(k: Seq<char>) -> nat
    decreases k.len(),
{
    if k.len() == 0 {
        0
    } else {
        packed_key(k.drop_last()) * 256 + k.last() as nat
    }
}

/// Why a row of an n-gram file is rejected.
#[derive(Clone, Copy, Debug, PartialEq, Eq, Structural)]
pub enum RowError {
    MissingKey,
    Escape(EscapeError),
    /// The key does not have the length of the table's n-grams.
    InvalidKey,
    MissingValue,
    InvalidValue,
}

/// What a row of an n-gram file does to the table.
pub enum RowOutcome {
    /// Its key holds a character that no key may hold: it is passed over.
    Skip,
    /// It sets the count of a key.
    Assign(nat, u64),
    Fail(RowError),
}

/// What a row does in a table of `n`-grams: column 0 is the escaped key,
/// column 1 the count.
pub open spec fn row_outcome(fields: Seq<Seq<char>>, n: nat) -> RowOutcome {
    if fields.len() == 0 {
        RowOutcome::Fail(RowError::MissingKey)
    } else {
        match unescaped(true, fields[0]) {
            Err(e) => RowOutcome::Fail(RowError::Escape(e)),
            Ok(k) => if !(forall|i: int| 0 <= i < k.len() ==> allowed_key_char(#[trigger] k[i])) {
                RowOutcome::Skip
            } else if k.len() != n {
                RowOutcome::Fail(RowError::InvalidKey)
            } else if fields.len() < 2 {
                RowOutcome::Fail(RowError::MissingValue)
            } else {
                match parsed_count(fields[1]) {
                    None => RowOutcome::Fail(RowError::InvalidValue),
                    Some(v) => RowOutcome::Assign(packed_key(k), v),
                }
            },
        }
    }
}

/// The table of `size` counts, all zero at first, after the first `upto`
/// rows, each setting the count of its key; the first failing row and its
/// error where one fails.
pub open spec fn table_after(rows: Seq<Seq<Seq<char>>>, n: nat, size: nat, upto: nat) -> Result<Seq<u64>, (nat, RowError)>
    decreases upto,
{
    if upto == 0 {
        Ok(Seq::new(size, |i: int| 0u64))
    } else {
        match table_after(rows, n, size, (upto - 1) as nat) {
            Err(e) => Err(e),
            Ok(t) => match row_outcome(rows[upto - 1], n) {
                RowOutcome::Skip => Ok(t),
                RowOutcome::Assign(k, v) => Ok(t.update(k as int, v)),
                RowOutcome::Fail(e) => Err(((upto - 1) as nat, e)),
            },
        }
    }
}

/// Once a row fails, the rows after it change nothing.
proof fn lemma_failure_sticks(rows: Seq<Seq<Seq<char>>>, n: nat, size: nat, a: nat, b: nat)
    requires
        a <= b,
        table_after(rows, n, size, a) is Err,
    ensures
        table_after(rows, n, size, b) == table_after(rows, n, size, a),
    decreases b,
{
    if a < b {
        lemma_failure_sticks(rows, n, size, a, (b - 1) as nat);
    }
}

/// The row of a failure comes before the rows read.
proof fn lemma_failure_row(rows: Seq<Seq<Seq<char>>>, n: nat, size: nat, a: nat)
    ensures
        table_after(rows, n, size, a) matches Err((row, _)) ==> row < a,
    decreases a,
{
    if a > 0 {
        lemma_failure_row(rows, n, size, (a - 1) as nat);
    }
}

/// Why an n-gram file does not hold a table.
#[derive(Debug)]
pub enum NgramError {
    /// The file is not a tab-separated file that csv reads.
    Tsv(csv::Error),
    /// Row `row` (counted from 0) is rejected.
    Row { row: usize, error: RowError },
}

fn all_allowed(k: &Vec<char>) -> (r: bool)
    ensures
        r == forall|i: int| 0 <= i < k@.len() ==> allowed_key_char(#[trigger] k@[i]),
{
    let mut i: usize = 0;
    while i < k.len()
        invariant
            i <= k@.len(),
            forall|j: int| 0 <= j < i ==> allowed_key_char(#[trigger] k@[j]),
        decreases k.len() - i,
    {
        let c = k[i];
        if !(c == '\0' || ('\x04' <= c && c <= '\x7f')) {
            return false;
        }
        i = i + 1;
    }
    true
}

fn pack_key(k: &Vec<char>) -> (key: usize)
    requires
        k@.len() <= 3,
        forall|i: int| 0 <= i < k@.len() ==> allowed_key_char(#[trigger] k@[i]),
    ensures
        key == packed_key(k@),
        key < TRIGRAM_TABLE_LEN,
        k@.len() <= 2 ==> key < BIGRAM_TABLE_LEN,
        k@.len() <= 1 ==> key < UNIGRAM_TABLE_LEN,
{
    let mut key: usize = 0;
    let mut i: usize = 0;
    while i < k.len()
        invariant
            i <= k@.len() <= 3,
            forall|i: int| 0 <= i < k@.len() ==> allowed_key_char(#[trigger] k@[i]),
            key == packed_key(k@.take(i as int)),
            i == 0 ==> key < 1,
            i == 1 ==> key < 256,
            i == 2 ==> key < 65536,
            i == 3 ==> key < 16777216,
        decreases k.len() - i,
    {
        let c = k[i];
        assert(allowed_key_char(k@[i as int]));
        assert(k@.take(i + 1).drop_last() =~= k@.take(i as int));
        key = key * 256 + (c as u32) as usize;
        i = i + 1;
    }
    assert(k@.take(k@.len() as int) =~= k@);
    key
}

/// The table of `n`-grams that the records set, with `size` cells: see
/// [`table_after`].
pub fn ngram_table_from_fields(rows: &Vec<Vec<Vec<char>>>, n: usize, size: usize) -> (r: Result<Vec<u64>, (usize, RowError)>)
    requires
        1 <= n <= 3,
        size == if n == 1 {
            UNIGRAM_TABLE_LEN
        } else if n == 2 {
            BIGRAM_TABLE_LEN
        } else {
            TRIGRAM_TABLE_LEN
        },
    ensures
        match table_after(deep_fields(rows@), n as nat, size as nat, rows@.len()) {
            Ok(t) => r matches Ok(v) && v@ == t,
            Err((row, e)) => r == Err::<Vec<u64>, (usize, RowError)>((row as usize, e)),
        },
{
    let ghost fs = deep_fields(rows@);
    let mut table: Vec<u64> = Vec::new();
    let mut j: usize = 0;
    while j < size
        invariant
            j <= size,
            table@ == Seq::new(j as nat, |i: int| 0u64),
        decreases size - j,
    {
        table.push(0);
        j = j + 1;
        assert(table@ =~= Seq::new(j as nat, |i: int| 0u64));
    }
    let mut r: usize = 0;
    while r < rows.len()
        invariant
            r <= rows@.len(),
            1 <= n <= 3,
            size == if n == 1 { UNIGRAM_TABLE_LEN } else if n == 2 { BIGRAM_TABLE_LEN } else { TRIGRAM_TABLE_LEN },
            fs == deep_fields(rows@),
            table@.len() == size,
            table_after(fs, n as nat, size as nat, r as nat) == Ok::<Seq<u64>, (nat, RowError)>(table@),
        decreases rows.len() - r,
    {
        let fields = &rows[r];
        assert(fs[r as int] == fields@.map_values(|f: Vec<char>| f@));
        let ghost fr = fs[r as int];
        if fields.len() == 0 {
            proof {
                lemma_failure_sticks(fs, n as nat, size as nat, (r + 1) as nat, rows@.len());
            }
            return Err((r, RowError::MissingKey));
        }
        assert(fr[0] == fields@[0]@);
        let k = match unescape::<true>(fields[0].as_slice()) {
            Ok(k) => k,
            Err(e) => {
                proof {
                    lemma_failure_sticks(fs, n as nat, size as nat, (r + 1) as nat, rows@.len());
                }
                return Err((r, RowError::Escape(e)));
            },
        };
        if all_allowed(&k) {
            if k.len() != n {
                proof {
                    lemma_failure_sticks(fs, n as nat, size as nat, (r + 1) as nat, rows@.len());
                }
                return Err((r, RowError::InvalidKey));
            }
            if fields.len() < 2 {
                proof {
                    lemma_failure_sticks(fs, n as nat, size as nat, (r + 1) as nat, rows@.len());
                }
                return Err((r, RowError::MissingValue));
            }
            assert(fr[1] == fields@[1]@);
            let v = match parse_count(fields[1].as_slice()) {
                Some(v) => v,
                None => {
                    proof {
                        lemma_failure_sticks(fs, n as nat, size as nat, (r + 1) as nat, rows@.len());
                    }
                    return Err((r, RowError::InvalidValue));
                },
            };
            let key = pack_key(&k);
            table.set(key, v);
        }
        r = r + 1;
    }
    Ok(table)
}

/// Reads a table of `n`-gram counts from a tab-separated file; csv splits the
/// records, and [`ngram_table_from_fields`] reads them.
fn read_ngram_table(bytes: &[u8], n: usize, size: usize) -> (r: Result<Vec<u64>, NgramError>)
    requires
        1 <= n <= 3,
        size == if n == 1 {
            UNIGRAM_TABLE_LEN
        } else if n == 2 {
            BIGRAM_TABLE_LEN
        } else {
            TRIGRAM_TABLE_LEN
        },
    ensures
        r matches Ok(t) ==> table_after(tsv_fields(bytes@), n as nat, size as nat, tsv_fields(bytes@).len()) == Ok::<Seq<u64>, (nat, RowError)>(t@),
        r matches Err(NgramError::Row { row, error }) ==> table_after(tsv_fields(bytes@), n as nat, size as nat, tsv_fields(bytes@).len()) == Err::<Seq<u64>, (nat, RowError)>((row as nat, error)),
        r matches Err(NgramError::Tsv(_)) <==> !tsv_reads(bytes@),
        tsv_reads(bytes@) && table_after(tsv_fields(bytes@), n as nat, size as nat, tsv_fields(bytes@).len()) is Ok ==> r is Ok,
{
    match read_tsv(bytes) {
        Err(e) => Err(NgramError::Tsv(e)),
        Ok(rows) => {
            proof {
                lemma_failure_row(deep_fields(rows@), n as nat, size as nat, rows@.len());
                assert(deep_fields(rows@).len() == rows@.len());
            }
            match ngram_table_from_fields(&rows, n, size) {
                Ok(t) => Ok(t),
                Err((row, error)) => {
                    proof {
                        let all = table_after(deep_fields(rows@), n as nat, size as nat, rows@.len());
                        assert(all is Err);
                        let (srow, serr) = all->Err_0;
                        assert(srow < rows@.len());
                        assert(row == srow as usize);
                        assert(row as nat == srow);
                    }
                    Err(NgramError::Row { row, error })
                },
            }
        },
    }
}
/// Reads a unigram table: see [`ngram_table_from_fields`].
pub fn read_unigram_table(bytes: &[u8]) -> (r: Result<Vec<u64>, NgramError>)
    ensures
        r matches Ok(t) ==> table_after(tsv_fields(bytes@), 1, UNIGRAM_TABLE_LEN as nat, tsv_fields(bytes@).len()) == Ok::<Seq<u64>, (nat, RowError)>(t@),
        r matches Err(NgramError::Row { row, error }) ==> table_after(tsv_fields(bytes@), 1, UNIGRAM_TABLE_LEN as nat, tsv_fields(bytes@).len()) == Err::<Seq<u64>, (nat, RowError)>((row as nat, error)),
        r matches Err(NgramError::Tsv(_)) <==> !tsv_reads(bytes@),
        tsv_reads(bytes@) && table_after(tsv_fields(bytes@), 1, UNIGRAM_TABLE_LEN as nat, tsv_fields(bytes@).len()) is Ok ==> r is Ok,
{
    read_ngram_table(bytes, 1, UNIGRAM_TABLE_LEN)
}

/// Reads a bigram table: see [`ngram_table_from_fields`].
pub fn read_bigram_table(bytes: &[u8]) -> (r: Result<Vec<u64>, NgramError>)
    ensures
        r matches Ok(t) ==> table_after(tsv_fields(bytes@), 2, BIGRAM_TABLE_LEN as nat, tsv_fields(bytes@).len()) == Ok::<Seq<u64>, (nat, RowError)>(t@),
        r matches Err(NgramError::Row { row, error }) ==> table_after(tsv_fields(bytes@), 2, BIGRAM_TABLE_LEN as nat, tsv_fields(bytes@).len()) == Err::<Seq<u64>, (nat, RowError)>((row as nat, error)),
        r matches Err(NgramError::Tsv(_)) <==> !tsv_reads(bytes@),
        tsv_reads(bytes@) && table_after(tsv_fields(bytes@), 2, BIGRAM_TABLE_LEN as nat, tsv_fields(bytes@).len()) is Ok ==> r is Ok,
{
    read_ngram_table(bytes, 2, BIGRAM_TABLE_LEN)
}

/// Reads a trigram table: see [`ngram_table_from_fields`].
pub fn read_trigram_table(bytes: &[u8]) -> (r: Result<Vec<u64>, NgramError>)
    ensures
        r matches Ok(t) ==> table_after(tsv_fields(bytes@), 3, TRIGRAM_TABLE_LEN as nat, tsv_fields(bytes@).len()) == Ok::<Seq<u64>, (nat, RowError)>(t@),
        r matches Err(NgramError::Row { row, error }) ==> table_after(tsv_fields(bytes@), 3, TRIGRAM_TABLE_LEN as nat, tsv_fields(bytes@).len()) == Err::<Seq<u64>, (nat, RowError)>((row as nat, error)),
        r matches Err(NgramError::Tsv(_)) <==> !tsv_reads(bytes@),
        tsv_reads(bytes@) && table_after(tsv_fields(bytes@), 3, TRIGRAM_TABLE_LEN as nat, tsv_fields(bytes@).len()) is Ok ==> r is Ok,
{
    read_ngram_table(bytes, 3, TRIGRAM_TABLE_LEN)
}

} // verus!
