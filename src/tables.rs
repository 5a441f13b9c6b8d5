use vstd::prelude::*;

verus! {

/// A grid of `R` rows and `C` columns of optional cells.
pub struct Table<const C: usize, const R: usize, T>(pub [[Option<T>; C]; R]);

/// The cells of a grid, row by row.
pub open spec fn cells_of<const C: usize, const R: usize, T>(g: [[T; C]; R]) -> Seq<Seq<T>> {
    g@.map_values(|row: [T; C]| row@)
}

impl<const C: usize, const R: usize, T: Copy> Table<C, R, T> {
    pub open spec fn view(&self) -> Seq<Seq<Option<T>>> {
        cells_of(self.0)
    }

    /// A table whose cells are all empty.
    pub fn empty() -> (t: Self)
        ensures
            forall|r: int, c: int| 0 <= r < R && 0 <= c < C ==> #[trigger] t.view()[r][c] is None,
    {
        Table([[None; C]; R])
    }
}


/// A cell of a table file as JSON holds it.
pub enum JsonCell {
    Null,
    /// A number, with its value where it is a `u64`.
    Number(Option<u64>),
    Text(Vec<char>),
    /// Any other JSON value.
    Other,
}

/// A row of a table file: an array of cells, or something else.
pub enum JsonRow {
    Cells(Vec<JsonCell>),
    NotArray,
}

/// The data of a table file: an array of rows, or something else.
pub enum JsonGrid {
    Rows(Vec<JsonRow>),
    NotArray,
}

/// Why a cell does not hold a value.
#[derive(Clone, Copy, Debug, PartialEq, Eq, Structural)]
pub enum CellError {
    /// A number other than 1, 2 or 3, with its value where it is a `u64`.
    InvalidKeyNumber(Option<u64>),
    /// A string that is not one ASCII character.
    InvalidKeyText,
    /// One of the characters that stand for the regions.
    ReservedKeyText,
    /// A string that is not a hand and a finger.
    InvalidDigitText,
    /// A value of another type.
    InvalidType,
}

/// Why a table file does not hold a table.
#[derive(Clone, Copy, Debug, PartialEq, Eq, Structural)]
pub enum TableError {
    NotArray,
    TooManyRows { max: usize },
    RowNotArray { row: usize },
    TooManyColumns { row: usize, max: usize },
    InvalidCell { row: usize, column: usize, error: CellError },
}

/// A value that a table cell can hold, and its JSON form.
pub trait GridCell: Sized + Copy {
    /// `j` is the JSON form of `self`.
    spec fn encodes(self, j: JsonCell) -> bool;

    /// `self` has a JSON form that reads back.
    spec fn valid(self) -> bool;

    proof fn lemma_encodes_unique(a: Self, b: Self, j: JsonCell)
        requires
            a.encodes(j),
            b.encodes(j),
        ensures
            a == b,
    ;

    proof fn lemma_encodes_not_null(a: Self, j: JsonCell)
        requires
            a.encodes(j),
        ensures
            !(j is Null),
    ;

    fn to_json(&self) -> (j: JsonCell)
        ensures
            self.encodes(j),
    ;

    fn from_json(j: &JsonCell) -> (r: Result<Self, CellError>)
        ensures
            r matches Ok(v) ==> v.encodes(*j) && v.valid(),
            forall|v: Self| v.valid() && v.encodes(*j) ==> r is Ok,
    ;
}

pub open spec fn row_len_ok<T>(rows: Seq<JsonRow>, r: int, columns: nat) -> bool {
    match rows[r] {
        JsonRow::Cells(cs) => cs@.len() <= columns,
        JsonRow::NotArray => false,
    }
}

/// The JSON cell at row `r`, column `c` of a table file: null where the
/// file leaves it out.
pub open spec fn json_cell_at(rows: Seq<JsonRow>, r: int, c: int) -> JsonCell {
    if 0 <= r < rows.len() {
        match rows[r] {
            JsonRow::Cells(cs) => if 0 <= c < cs@.len() {
                cs@[c]
            } else {
                JsonCell::Null
            },
            JsonRow::NotArray => JsonCell::Null,
        }
    } else {
        JsonCell::Null
    }
}

/// Table cell `v` is what JSON cell `j` reads as.
pub open spec fn cell_reads_as<T: GridCell>(j: JsonCell, v: Option<T>) -> bool {
    match j {
        JsonCell::Null => v is None,
        _ => v matches Some(x) && x.encodes(j),
    }
}

/// The rows of a table file have the shape of a table of `R × C`.
pub open spec fn fits_shape(rows: Seq<JsonRow>, rows_max: nat, columns_max: nat) -> bool {
    &&& rows.len() <= rows_max
    &&& forall|r: int| 0 <= r < rows.len() ==> match #[trigger] rows[r] {
        JsonRow::Cells(cs) => cs@.len() <= columns_max,
        JsonRow::NotArray => false,
    }
}

/// Every cell of the table file reads as a value.
pub open spec fn cells_readable<T: GridCell>(rows: Seq<JsonRow>, rows_max: nat, columns_max: nat) -> bool {
    forall|r: int, c: int|
        0 <= r < rows_max && 0 <= c < columns_max ==> (#[trigger] json_cell_at(rows, r, c) is Null || exists|v: T|
            v.valid() && v.encodes(json_cell_at(rows, r, c)))
}

impl<const C: usize, const R: usize, T: GridCell> Table<C, R, T> {
    /// Reads a table file: at most `R` rows of at most `C` cells, each null or
    /// the JSON form of a value; what is not there is empty.
    pub fn from_json(grid: &JsonGrid) -> (r: Result<Self, TableError>)
        ensures
            r matches Ok(t) ==> grid matches JsonGrid::Rows(rows) && fits_shape(rows@, R as nat, C as nat) && forall|i: int, j: int|
                0 <= i < R && 0 <= j < C ==> cell_reads_as(json_cell_at(rows@, i, j), #[trigger] t.view()[i][j]),
            (grid matches JsonGrid::Rows(rows) && fits_shape(rows@, R as nat, C as nat) && cells_readable::<T>(rows@, R as nat, C as nat)) ==> r is Ok,
    {
        let rows = match grid {
            JsonGrid::Rows(rows) => rows,
            JsonGrid::NotArray => return Err(TableError::NotArray),
        };
        if rows.len() > R {
            return Err(TableError::TooManyRows { max: R });
        }
        let mut table = Self::empty();
        let mut r: usize = 0;
        while r < rows.len()
            invariant
                r <= rows@.len() <= R,
                grid == JsonGrid::Rows(*rows),
                forall|i: int| 0 <= i < r ==> match #[trigger] rows@[i] {
                    JsonRow::Cells(cs) => cs@.len() <= C,
                    JsonRow::NotArray => false,
                },
                forall|i: int, j: int| r <= i < R && 0 <= j < C ==> #[trigger] table.view()[i][j] is None,
                forall|i: int, j: int| 0 <= i < r && 0 <= j < C ==> cell_reads_as(json_cell_at(rows@, i, j), #[trigger] table.view()[i][j]),
                (cells_readable::<T>(rows@, R as nat, C as nat) ==> true),
            decreases rows.len() - r,
        {
            let cells = match &rows[r] {
                JsonRow::Cells(cells) => cells,
                JsonRow::NotArray => return Err(TableError::RowNotArray { row: r }),
            };
            if cells.len() > C {
                return Err(TableError::TooManyColumns { row: r, max: C });
            }
            let mut c: usize = 0;
            while c < cells.len()
                invariant
                    r < rows@.len() <= R,
                    c <= cells@.len() <= C,
                    grid == JsonGrid::Rows(*rows),
                    rows@[r as int] == JsonRow::Cells(*cells),
                    forall|i: int| 0 <= i < r ==> match #[trigger] rows@[i] {
                        JsonRow::Cells(cs) => cs@.len() <= C,
                        JsonRow::NotArray => false,
                    },
                    forall|i: int, j: int| (r < i < R && 0 <= j < C) || (i == r && c <= j < C) ==> #[trigger] table.view()[i][j] is None,
                    forall|i: int, j: int|
                        (0 <= i < r && 0 <= j < C) || (i == r && 0 <= j < c) ==> cell_reads_as(json_cell_at(rows@, i, j), #[trigger] table.view()[i][j]),
                decreases cells.len() - c,
            {
                let cell = &cells[c];
                assert(json_cell_at(rows@, r as int, c as int) == *cell);
                let value = match cell {
                    JsonCell::Null => None,
                    _ => match T::from_json(cell) {
                        Ok(v) => Some(v),
                        Err(e) => return Err(TableError::InvalidCell { row: r, column: c, error: e }),
                    },
                };
                let ghost before = table.view();
                table.0[r][c] = value;
                proof {
                    assert forall|i: int, j: int| 0 <= i < R && 0 <= j < C && !(i == r && j == c) implies #[trigger] table.view()[i][j] == before[i][j] by {
                        assert(table.0@[i]@[j] == before[i][j]);
                    }
                    assert(table.view()[r as int][c as int] == value);
                }
                c = c + 1;
            }
            proof {
                assert forall|j: int| cells@.len() <= j < C implies json_cell_at(rows@, r as int, j) is Null by {}
            }
            r = r + 1;
        }
        proof {
            assert forall|i: int, j: int| rows@.len() <= i < R && 0 <= j < C implies json_cell_at(rows@, i, j) is Null by {}
        }
        Ok(table)
    }
}


/// JSON cell `j` is how table cell `v` is written: null for an empty cell.
pub open spec fn cell_written_as<T: GridCell>(v: Option<T>, j: JsonCell) -> bool {
    match v {
        None => j is Null,
        Some(x) => x.encodes(j),
    }
}

/// The rows are how table `t` is written, cell by cell.
pub open spec fn written_as<T: GridCell>(t: Seq<Seq<Option<T>>>, rows: Seq<JsonRow>, rows_max: nat, columns_max: nat) -> bool {
    &&& fits_shape(rows, rows_max, columns_max)
    &&& forall|i: int, j: int|
        0 <= i < rows_max && 0 <= j < columns_max ==> cell_written_as(#[trigger] t[i][j], json_cell_at(rows, i, j))
}

fn is_null_cell(j: &JsonCell) -> (r: bool)
    ensures
        r == (*j is Null),
{
    match j {
        JsonCell::Null => true,
        _ => false,
    }
}

fn is_empty_row(row: &JsonRow) -> (r: bool)
    ensures
        r == (*row matches JsonRow::Cells(cs) && cs@.len() == 0),
{
    match row {
        JsonRow::Cells(cs) => cs.len() == 0,
        JsonRow::NotArray => false,
    }
}

/// Writing a table and reading what was written gives the table back: the
/// nulls that writing leaves out at the end of rows and of the table read as
/// empty cells.
pub proof fn lemma_table_round_trip<T: GridCell>(
    t: Seq<Seq<Option<T>>>,
    rows: Seq<JsonRow>,
    back: Seq<Seq<Option<T>>>,
    rows_max: nat,
    columns_max: nat,
)
    requires
        forall|i: int, j: int| 0 <= i < rows_max && 0 <= j < columns_max ==> (#[trigger] t[i][j] matches Some(v) ==> v.valid()),
        written_as(t, rows, rows_max, columns_max),
        forall|i: int, j: int|
            0 <= i < rows_max && 0 <= j < columns_max ==> cell_reads_as(json_cell_at(rows, i, j), #[trigger] back[i][j]),
    ensures
        cells_readable::<T>(rows, rows_max, columns_max),
        forall|i: int, j: int| 0 <= i < rows_max && 0 <= j < columns_max ==> #[trigger] back[i][j] == t[i][j],
{
    assert forall|i: int, j: int| 0 <= i < rows_max && 0 <= j < columns_max implies #[trigger] back[i][j] == t[i][j] by {
        let c = json_cell_at(rows, i, j);
        assert(cell_written_as(t[i][j], c));
        match t[i][j] {
            None => {},
            Some(x) => {
                T::lemma_encodes_not_null(x, c);
                T::lemma_encodes_unique(x, back[i][j]->Some_0, c);
            },
        }
    }
    assert forall|i: int, j: int| 0 <= i < rows_max && 0 <= j < columns_max implies (#[trigger] json_cell_at(rows, i, j) is Null
        || exists|v: T| v.valid() && v.encodes(json_cell_at(rows, i, j))) by {
        assert(cell_written_as(t[i][j], json_cell_at(rows, i, j)));
        if let Some(x) = t[i][j] {
            assert(x.valid() && x.encodes(json_cell_at(rows, i, j)));
        }
    }
}

impl<const C: usize, const R: usize, T: GridCell> Table<C, R, T> {
    /// Writes the table as a table file: each row an array of its cells, null
    /// for an empty cell, without the nulls that end a row and without the
    /// empty rows that end the table.
    pub fn to_json(&self) -> (g: JsonGrid)
        ensures
            g matches JsonGrid::Rows(rows) && written_as(self.view(), rows@, R as nat, C as nat) && (rows@.len() > 0 ==> !(
            rows@.last() matches JsonRow::Cells(cs) && cs@.len() == 0)) && forall|i: int|
                0 <= i < rows@.len() ==> (#[trigger] rows@[i] matches JsonRow::Cells(cs) && (cs@.len() > 0 ==> !(cs@.last() is Null))),
    {
        let mut rows: Vec<JsonRow> = Vec::new();
        let mut r: usize = 0;
        while r < R
            invariant
                r <= R,
                rows@.len() == r,
                forall|i: int| 0 <= i < r ==> (#[trigger] rows@[i] matches JsonRow::Cells(cs) && cs@.len() <= C && (cs@.len() > 0 ==> !(cs@.last() is Null))),
                forall|i: int, j: int| 0 <= i < r && 0 <= j < C ==> cell_written_as(#[trigger] self.view()[i][j], json_cell_at(rows@, i, j)),
            decreases R - r,
        {
            let mut cells: Vec<JsonCell> = Vec::new();
            let mut c: usize = 0;
            while c < C
                invariant
                    r < R,
                    c <= C,
                    cells@.len() == c,
                    forall|j: int| 0 <= j < c ==> cell_written_as(#[trigger] self.view()[r as int][j], cells@[j]),
                decreases C - c,
            {
                let j = match &self.0[r][c] {
                    None => JsonCell::Null,
                    Some(v) => v.to_json(),
                };
                assert(self.view()[r as int][c as int] == self.0@[r as int]@[c as int]);
                cells.push(j);
                c = c + 1;
            }
            while cells.len() > 0 && is_null_cell(&cells[cells.len() - 1])
                invariant
                    r < R,
                    cells@.len() <= C,
                    forall|j: int| 0 <= j < C ==> cell_written_as(#[trigger] self.view()[r as int][j], if j < cells@.len() {
                        cells@[j]
                    } else {
                        JsonCell::Null
                    }),
                decreases cells.len(),
            {
                cells.pop();
            }
            let ghost before = rows@;
            rows.push(JsonRow::Cells(cells));
            proof {
                assert forall|i: int, j: int| 0 <= i < r + 1 && 0 <= j < C implies cell_written_as(#[trigger] self.view()[i][j], json_cell_at(rows@, i, j)) by {
                    if i < r {
                        assert(rows@[i] == before[i]);
                    } else {
                        assert(self.view()[r as int][j] == self.view()[i][j]);
                    }
                }
                assert forall|i: int| 0 <= i < r + 1 implies (#[trigger] rows@[i] matches JsonRow::Cells(cs) && cs@.len() <= C && (cs@.len() > 0 ==> !(cs@.last() is Null))) by {
                    if i < r {
                        assert(rows@[i] == before[i]);
                    }
                }
            }
            r = r + 1;
        }
        while rows.len() > 0 && is_empty_row(&rows[rows.len() - 1])
            invariant
                rows@.len() <= R,
                forall|i: int| 0 <= i < rows@.len() ==> (#[trigger] rows@[i] matches JsonRow::Cells(cs) && cs@.len() <= C && (cs@.len() > 0 ==> !(cs@.last() is Null))),
                forall|i: int, j: int| 0 <= i < R && 0 <= j < C ==> cell_written_as(#[trigger] self.view()[i][j], json_cell_at(rows@, i, j)),
            decreases rows.len(),
        {
            let ghost before = rows@;
            rows.pop();
            proof {
                assert forall|i: int, j: int| 0 <= i < R && 0 <= j < C implies cell_written_as(#[trigger] self.view()[i][j], json_cell_at(rows@, i, j)) by {
                    if i < rows@.len() {
                        assert(rows@[i] == before[i]);
                    }
                    assert(json_cell_at(rows@, i, j) == json_cell_at(before, i, j));
                }
            }
        }
        JsonGrid::Rows(rows)
    }
}

} // verus!
