use vstd::prelude::*;

use crate::tables::{cells_of, CellError, GridCell, JsonCell, JsonGrid, Table, TableError};

verus! {

/// What a key of the key table holds: a byte, or the marker of a region whose
/// bytes the search permutes.
#[derive(Clone, Copy, Debug, PartialEq, Eq, Structural, PartialOrd, Ord)]
pub enum Key {
    Byte(u8),
    One,
    Two,
    Three,
}

impl GridCell for Key {
    /// A region marker is written as its number; a byte as a one-character string.
    open spec fn encodes(self, j: JsonCell) -> bool {
        match self {
            Key::Byte(b) => j matches JsonCell::Text(s) && s@ == seq![b as char],
            Key::One => j == JsonCell::Number(Some(1)),
            Key::Two => j == JsonCell::Number(Some(2)),
            Key::Three => j == JsonCell::Number(Some(3)),
        }
    }

    /// A byte is ASCII and not one of the region markers' codes.
    open spec fn valid(self) -> bool {
        match self {
            Key::Byte(b) => b < 128 && !(1 <= b <= 3),
            _ => true,
        }
    }

    proof fn lemma_encodes_unique(a: Self, b: Self, j: JsonCell) {
        if let (Key::Byte(x), Key::Byte(y)) = (a, b) {
            if let JsonCell::Text(s) = j {
                assert(seq![x as char][0] == seq![y as char][0]);
            }
        }
    }

    proof fn lemma_encodes_not_null(a: Self, j: JsonCell) {
    }

    fn to_json(&self) -> (j: JsonCell) {
        match self {
            Key::Byte(b) => {
                let mut s: Vec<char> = Vec::new();
                s.push(*b as char);
                proof {
                    assert(s@ =~= seq![*b as char]);
                }
                JsonCell::Text(s)
            },
            Key::One => JsonCell::Number(Some(1)),
            Key::Two => JsonCell::Number(Some(2)),
            Key::Three => JsonCell::Number(Some(3)),
        }
    }

    fn from_json(j: &JsonCell) -> (r: Result<Self, CellError>) {
        match j {
            JsonCell::Number(Some(n)) => {
                if *n == 1 {
                    Ok(Key::One)
                } else if *n == 2 {
                    Ok(Key::Two)
                } else if *n == 3 {
                    Ok(Key::Three)
                } else {
                    Err(CellError::InvalidKeyNumber(Some(*n)))
                }
            },
            JsonCell::Number(None) => Err(CellError::InvalidKeyNumber(None)),
            JsonCell::Text(s) => {
                if s.len() != 1 {
                    proof {
                        assert forall|v: Key| !(v.valid() && v.encodes(*j)) by {
                            if let Key::Byte(b) = v {
                                if v.encodes(*j) {
                                    assert(s@.len() == seq![b as char].len());
                                }
                            }
                        }
                    }
                    return Err(CellError::InvalidKeyText);
                }
                let ch = s[0];
                let mut b: u8 = 0;
                while b < 128 && (b as char) != ch
                    invariant
                        b <= 128,
                        forall|x: u8| x < b ==> #[trigger] byte_char(x) != ch,
                    decreases 128 - b,
                {
                    b = b + 1;
                }
                if b == 128 {
                    proof {
                        assert forall|v: Key| !(v.valid() && v.encodes(*j)) by {
                            if let Key::Byte(x) = v {
                                if v.encodes(*j) {
                                    assert(s@[0] == seq![x as char][0]);
                                    assert(byte_char(x) == ch);
                                }
                            }
                        }
                    }
                    Err(CellError::InvalidKeyText)
                } else if 1 <= b && b <= 3 {
                    proof {
                        assert forall|v: Key| !(v.valid() && v.encodes(*j)) by {
                            if let Key::Byte(x) = v {
                                if v.encodes(*j) {
                                    assert(s@[0] == seq![x as char][0]);
                                    assert((x as char) == (b as char));
                                    assert(x as u32 == b as u32);
                                }
                            }
                        }
                    }
                    Err(CellError::ReservedKeyText)
                } else {
                    proof {
                        assert(s@ =~= seq![b as char]);
                    }
                    Ok(Key::Byte(b))
                }
            },
            _ => Err(CellError::InvalidType),
        }
    }
}

pub open spec fn byte_char(x: u8) -> char {
    x as char
}

/// The byte that stands for a cell in a byte matrix: 0 for an empty cell, 1
/// to 3 for the region markers.
pub open spec fn byte_of(cell: Option<Key>) -> u8 {
    match cell {
        None => 0,
        Some(Key::Byte(b)) => b,
        Some(Key::One) => 1,
        Some(Key::Two) => 2,
        Some(Key::Three) => 3,
    }
}

/// The cell that a byte of a byte matrix stands for.
pub open spec fn cell_of_byte(b: u8) -> Option<Key> {
    if b == 0 {
        None
    } else if b == 1 {
        Some(Key::One)
    } else if b == 2 {
        Some(Key::Two)
    } else if b == 3 {
        Some(Key::Three)
    } else {
        Some(Key::Byte(b))
    }
}

/// The positions `(r, c)`, `c < n`, of row `r` that hold `marker`, left to right.
pub open spec fn row_positions(row: Seq<Option<Key>>, r: nat, n: nat, marker: Key) -> Seq<(usize, usize)>
    decreases n,
{
    if n == 0 {
        seq![]
    } else {
        row_positions(row, r, (n - 1) as nat, marker) + if row[n - 1] == Some(marker) {
            seq![(r as usize, (n - 1) as usize)]
        } else {
            seq![]
        }
    }
}

/// The positions of the first `n` rows that hold `marker`, row by row.
pub open spec fn grid_positions(g: Seq<Seq<Option<Key>>>, n: nat, marker: Key) -> Seq<(usize, usize)>
    decreases n,
{
    if n == 0 {
        seq![]
    } else {
        grid_positions(g, (n - 1) as nat, marker) + row_positions(g[n - 1], (n - 1) as nat, g[n - 1].len(), marker)
    }
}

proof fn lemma_row_positions_hold(row: Seq<Option<Key>>, r: nat, n: nat, marker: Key)
    requires
        n <= row.len(),
        r <= usize::MAX,
        n <= usize::MAX,
    ensures
        forall|k: int| 0 <= k < row_positions(row, r, n, marker).len() ==> {
            let p = #[trigger] row_positions(row, r, n, marker)[k];
            p.0 == r && p.1 < n && row[p.1 as int] == Some(marker)
        },
    decreases n,
{
    if n > 0 {
        lemma_row_positions_hold(row, r, (n - 1) as nat, marker);
        let a = row_positions(row, r, (n - 1) as nat, marker);
        assert forall|k: int| 0 <= k < row_positions(row, r, n, marker).len() implies {
            let p = #[trigger] row_positions(row, r, n, marker)[k];
            p.0 == r && p.1 < n && row[p.1 as int] == Some(marker)
        } by {
            if k < a.len() {
                assert(row_positions(row, r, n, marker)[k] == a[k]);
            }
        }
    }
}

proof fn lemma_grid_positions_hold(g: Seq<Seq<Option<Key>>>, n: nat, columns: nat, marker: Key)
    requires
        n <= g.len(),
        n <= usize::MAX,
        columns <= usize::MAX,
        forall|i: int| 0 <= i < g.len() ==> (#[trigger] g[i]).len() == columns,
    ensures
        forall|k: int| 0 <= k < grid_positions(g, n, marker).len() ==> {
            let p = #[trigger] grid_positions(g, n, marker)[k];
            p.0 < n && p.1 < columns && g[p.0 as int][p.1 as int] == Some(marker)
        },
    decreases n,
{
    if n > 0 {
        lemma_grid_positions_hold(g, (n - 1) as nat, columns, marker);
        lemma_row_positions_hold(g[n - 1], (n - 1) as nat, columns, marker);
        let a = grid_positions(g, (n - 1) as nat, marker);
        let b = row_positions(g[n - 1], (n - 1) as nat, columns, marker);
        assert forall|k: int| 0 <= k < grid_positions(g, n, marker).len() implies {
            let p = #[trigger] grid_positions(g, n, marker)[k];
            p.0 < n && p.1 < columns && g[p.0 as int][p.1 as int] == Some(marker)
        } by {
            if k < a.len() {
                assert(grid_positions(g, n, marker)[k] == a[k]);
            } else {
                assert(grid_positions(g, n, marker)[k] == b[k - a.len()]);
            }
        }
    }
}

/// The keys of each position of the keyboard.
pub struct KeyTable<const C: usize, const R: usize>(pub Table<C, R, Key>);

impl<const C: usize, const R: usize> KeyTable<C, R> {
    pub open spec fn view(&self) -> Seq<Seq<Option<Key>>> {
        self.0.view()
    }

    /// The table whose cells the bytes stand for.
    pub fn from_byte_matrix(slice: &[[u8; C]; R]) -> (t: Self)
        ensures
            forall|r: int, c: int| 0 <= r < R && 0 <= c < C ==> #[trigger] t.view()[r][c] == cell_of_byte(cells_of(*slice)[r][c]),
    {
        let mut t = Table::<C, R, Key>::empty();
        let mut r: usize = 0;
        while r < R
            invariant
                r <= R,
                forall|i: int, j: int| 0 <= i < r && 0 <= j < C ==> #[trigger] t.view()[i][j] == cell_of_byte(cells_of(*slice)[i][j]),
            decreases R - r,
        {
            let mut c: usize = 0;
            while c < C
                invariant
                    r < R,
                    c <= C,
                    forall|i: int, j: int| ((0 <= i < r && 0 <= j < C) || (i == r && 0 <= j < c)) ==> #[trigger] t.view()[i][j] == cell_of_byte(cells_of(*slice)[i][j]),
                decreases C - c,
            {
                let b = slice[r][c];
                let cell = if b == 0 {
                    None
                } else if b == 1 {
                    Some(Key::One)
                } else if b == 2 {
                    Some(Key::Two)
                } else if b == 3 {
                    Some(Key::Three)
                } else {
                    Some(Key::Byte(b))
                };
                let ghost before = t.view();
                t.0[r][c] = cell;
                proof {
                    assert forall|i: int, j: int| ((0 <= i < r && 0 <= j < C) || (i == r && 0 <= j < c + 1)) implies #[trigger] t.view()[i][j] == cell_of_byte(cells_of(*slice)[i][j]) by {
                        if !(i == r && j == c) {
                            assert(t.0@[i]@[j] == before[i][j]);
                        }
                    }
                }
                c = c + 1;
            }
            r = r + 1;
        }
        KeyTable(t)
    }

    /// The bytes that stand for the cells.
    pub fn to_byte_matrix(&self) -> (m: [[u8; C]; R])
        ensures
            forall|r: int, c: int| 0 <= r < R && 0 <= c < C ==> #[trigger] cells_of(m)[r][c] == byte_of(self.view()[r][c]),
    {
        let mut m = [[0u8; C]; R];
        let mut r: usize = 0;
        while r < R
            invariant
                r <= R,
                forall|i: int, j: int| 0 <= i < r && 0 <= j < C ==> #[trigger] cells_of(m)[i][j] == byte_of(self.view()[i][j]),
            decreases R - r,
        {
            let mut c: usize = 0;
            while c < C
                invariant
                    r < R,
                    c <= C,
                    forall|i: int, j: int| ((0 <= i < r && 0 <= j < C) || (i == r && 0 <= j < c)) ==> #[trigger] cells_of(m)[i][j] == byte_of(self.view()[i][j]),
                decreases C - c,
            {
                let b = match self.0.0[r][c] {
                    None => 0,
                    Some(Key::Byte(b)) => b,
                    Some(Key::One) => 1,
                    Some(Key::Two) => 2,
                    Some(Key::Three) => 3,
                };
                assert(self.view()[r as int][c as int] == self.0.0@[r as int]@[c as int]);
                let ghost before = cells_of(m);
                m[r][c] = b;
                proof {
                    assert forall|i: int, j: int| ((0 <= i < r && 0 <= j < C) || (i == r && 0 <= j < c + 1)) implies #[trigger] cells_of(m)[i][j] == byte_of(self.view()[i][j]) by {
                        if !(i == r && j == c) {
                            assert(cells_of(m)[i][j] == before[i][j]);
                        }
                    }
                }
                c = c + 1;
            }
            r = r + 1;
        }
        m
    }

    /// The positions that hold `marker`, row by row: see [`grid_positions`].
    pub fn positions_of(&self, marker: Key) -> (ps: Vec<(usize, usize)>)
        ensures
            ps@ == grid_positions(self.view(), R as nat, marker),
            forall|k: int| 0 <= k < ps@.len() ==> (#[trigger] ps@[k]).0 < R && ps@[k].1 < C && self.view()[ps@[k].0 as int][ps@[k].1 as int] == Some(marker),
    {
        let mut ps: Vec<(usize, usize)> = Vec::new();
        let mut r: usize = 0;
        while r < R
            invariant
                r <= R,
                self.view().len() == R,
                forall|i: int| 0 <= i < R ==> (#[trigger] self.view()[i]).len() == C,
                ps@ == grid_positions(self.view(), r as nat, marker),
            decreases R - r,
        {
            let mut c: usize = 0;
            while c < C
                invariant
                    r < R,
                    c <= C,
                    self.view().len() == R,
                    forall|i: int| 0 <= i < R ==> (#[trigger] self.view()[i]).len() == C,
                    ps@ == grid_positions(self.view(), r as nat, marker) + row_positions(self.view()[r as int], r as nat, c as nat, marker),
                decreases C - c,
            {
                assert(self.view()[r as int][c as int] == self.0.0@[r as int]@[c as int]);
                if self.0.0[r][c] == Some(marker) {
                    ps.push((r, c));
                }
                c = c + 1;
                assert(ps@ =~= grid_positions(self.view(), r as nat, marker) + row_positions(self.view()[r as int], r as nat, c as nat, marker));
            }
            r = r + 1;
            assert(ps@ =~= grid_positions(self.view(), r as nat, marker));
        }
        proof {
            lemma_grid_positions_hold(self.view(), R as nat, C as nat, marker);
        }
        ps
    }

    /// Reads a key table file: see [`Table::from_json`].
    pub fn from_json(grid: &JsonGrid) -> (r: Result<Self, TableError>)
        ensures
            r matches Ok(t) ==> grid matches JsonGrid::Rows(rows) && crate::tables::fits_shape(rows@, R as nat, C as nat) && forall|i: int, j: int|
                0 <= i < R && 0 <= j < C ==> crate::tables::cell_reads_as(crate::tables::json_cell_at(rows@, i, j), #[trigger] t.view()[i][j]),
    {
        match Table::<C, R, Key>::from_json(grid) {
            Ok(t) => Ok(KeyTable(t)),
            Err(e) => Err(e),
        }
    }

    /// Writes a key table file: see [`Table::to_json`].
    pub fn to_json(&self) -> (g: JsonGrid)
        ensures
            g matches JsonGrid::Rows(rows) && crate::tables::written_as(self.view(), rows@, R as nat, C as nat),
    {
        self.0.to_json()
    }
}

} // verus!
