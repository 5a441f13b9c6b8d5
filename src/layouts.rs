use vstd::prelude::*;

use crate::tables::{
    cell_reads_as, fits_shape, json_cell_at, written_as, CellError, GridCell, JsonCell, JsonGrid, Table, TableError,
};

verus! {

/// The hand that types a key.
#[derive(Clone, Copy, Debug, PartialEq, Eq, Structural, PartialOrd, Ord)]
pub enum Laterality {
    Left,
    Right,
}

impl Laterality {
    pub open spec fn spec_char(self) -> char {
        match self {
            Laterality::Left => 'l',
            Laterality::Right => 'r',
        }
    }

    pub fn as_char(&self) -> (ch: char)
        ensures
            ch == self.spec_char(),
    {
        match self {
            Laterality::Left => 'l',
            Laterality::Right => 'r',
        }
    }

    /// The laterality written as `ch`, if any.
    pub fn from_char(ch: char) -> (r: Option<Laterality>)
        ensures
            r matches Some(l) ==> l.spec_char() == ch,
            r is None ==> ch != 'l' && ch != 'r',
    {
        if ch == 'l' {
            Some(Laterality::Left)
        } else if ch == 'r' {
            Some(Laterality::Right)
        } else {
            None
        }
    }
}

/// The finger that types a key.
#[derive(Clone, Copy, Debug, PartialEq, Eq, Structural, PartialOrd, Ord)]
pub enum Position {
    Thumb,
    Index,
    Middle,
    Ring,
    Pinky,
}

impl Position {
    pub open spec fn spec_char(self) -> char {
        match self {
            Position::Thumb => 't',
            Position::Index => 'i',
            Position::Middle => 'm',
            Position::Ring => 'r',
            Position::Pinky => 'p',
        }
    }

    pub fn as_char(&self) -> (ch: char)
        ensures
            ch == self.spec_char(),
    {
        match self {
            Position::Thumb => 't',
            Position::Index => 'i',
            Position::Middle => 'm',
            Position::Ring => 'r',
            Position::Pinky => 'p',
        }
    }

    /// The finger written as `ch`, if any.
    pub fn from_char(ch: char) -> (r: Option<Position>)
        ensures
            r matches Some(p) ==> p.spec_char() == ch,
            r is None ==> ch != 't' && ch != 'i' && ch != 'm' && ch != 'r' && ch != 'p',
    {
        if ch == 't' {
            Some(Position::Thumb)
        } else if ch == 'i' {
            Some(Position::Index)
        } else if ch == 'm' {
            Some(Position::Middle)
        } else if ch == 'r' {
            Some(Position::Ring)
        } else if ch == 'p' {
            Some(Position::Pinky)
        } else {
            None
        }
    }
}

/// A hand and a finger of it.
#[derive(Clone, Copy, Debug, PartialEq, Eq, Structural, PartialOrd, Ord)]
pub struct Digit(pub Laterality, pub Position);

impl Digit {
    /// The two characters that write this digit: hand, then finger.
    pub open spec fn spec_chars(self) -> Seq<char> {
        seq![self.0.spec_char(), self.1.spec_char()]
    }

    pub fn as_chars(&self) -> (s: Vec<char>)
        ensures
            s@ == self.spec_chars(),
    {
        let mut s = Vec::new();
        s.push(self.0.as_char());
        s.push(self.1.as_char());
        s
    }

    /// The digit written as the two characters `s`, if any.
    pub fn from_chars(s: &Vec<char>) -> (r: Option<Digit>)
        ensures
            r matches Some(d) ==> d.spec_chars() == s@,
            r is None ==> forall|d: Digit| d.spec_chars() != s@,
    {
        if s.len() != 2 {
            return None;
        }
        match (Laterality::from_char(s[0]), Position::from_char(s[1])) {
            (Some(l), Some(p)) => {
                assert(Digit(l, p).spec_chars() =~= s@);
                Some(Digit(l, p))
            },
            _ => {
                assert forall|d: Digit| d.spec_chars() != s@ by {
                    if d.spec_chars() == s@ {
                        assert(d.spec_chars()[0] == s@[0]);
                        assert(d.spec_chars()[1] == s@[1]);
                    }
                }
                None
            },
        }
    }
}

/// The digit that types each position of the keyboard.
pub struct LayoutTable<const C: usize, const R: usize>(pub Table<C, R, Digit>);

impl<const C: usize, const R: usize> LayoutTable<C, R> {
    pub open spec fn view(&self) -> Seq<Seq<Option<Digit>>> {
        self.0.view()
    }

    /// Empties each cell whose digit `keep` rejects; leaves the others as they are.
    pub fn mask<F: Fn(usize, usize, Digit) -> bool>(&mut self, keep: F)
        requires
            forall|r: usize, c: usize, d: Digit| keep.requires((r, c, d)),
        ensures
            forall|r: int, c: int|
                0 <= r < R && 0 <= c < C ==> {
                    let before = #[trigger] old(self).view()[r][c];
                    let after = final(self).view()[r][c];
                    match before {
                        None => after is None,
                        Some(d) => (after == before && keep.ensures((r as usize, c as usize, d), true))
                            || (after is None && keep.ensures((r as usize, c as usize, d), false)),
                    }
                },
    {
        let mut r: usize = 0;
        while r < R
            invariant
                r <= R,
                forall|r: usize, c: usize, d: Digit| keep.requires((r, c, d)),
                forall|i: int, c: int|
                    r <= i < R && 0 <= c < C ==> #[trigger] self.view()[i][c] == old(self).view()[i][c],
                forall|i: int, c: int|
                    0 <= i < r && 0 <= c < C ==> {
                        let before = #[trigger] old(self).view()[i][c];
                        let after = self.view()[i][c];
                        match before {
                            None => after is None,
                            Some(d) => (after == before && keep.ensures((i as usize, c as usize, d), true))
                                || (after is None && keep.ensures((i as usize, c as usize, d), false)),
                        }
                    },
            decreases R - r,
        {
            let mut c: usize = 0;
            while c < C
                invariant
                    r < R,
                    c <= C,
                    forall|r: usize, c: usize, d: Digit| keep.requires((r, c, d)),
                    forall|i: int, j: int|
                        (r < i < R && 0 <= j < C) || (i == r && c <= j < C) ==> #[trigger] self.view()[i][j]
                            == old(self).view()[i][j],
                    forall|i: int, j: int|
                        (0 <= i < r && 0 <= j < C) || (i == r && 0 <= j < c) ==> {
                            let before = #[trigger] old(self).view()[i][j];
                            let after = self.view()[i][j];
                            match before {
                                None => after is None,
                                Some(d) => (after == before && keep.ensures((i as usize, j as usize, d), true))
                                    || (after is None && keep.ensures((i as usize, j as usize, d), false)),
                            }
                        },
                decreases C - c,
            {
                if let Some(d) = self.0.0[r][c] {
                    if !keep(r, c, d) {
                        self.0.0[r][c] = None;
                    }
                }
                c = c + 1;
            }
            r = r + 1;
        }
    }
}


impl GridCell for Digit {
    /// A digit is written as the string of its two characters.
    open spec fn encodes(self, j: JsonCell) -> bool {
        j matches JsonCell::Text(s) && s@ == self.spec_chars()
    }

    open spec fn valid(self) -> bool {
        true
    }

    proof fn lemma_encodes_unique(a: Self, b: Self, j: JsonCell) {
        assert(a.spec_chars()[0] == b.spec_chars()[0]);
        assert(a.spec_chars()[1] == b.spec_chars()[1]);
    }

    proof fn lemma_encodes_not_null(a: Self, j: JsonCell) {
    }

    fn to_json(&self) -> (j: JsonCell) {
        JsonCell::Text(self.as_chars())
    }

    fn from_json(j: &JsonCell) -> (r: Result<Self, CellError>) {
        match j {
            JsonCell::Text(s) => match Digit::from_chars(s) {
                Some(d) => Ok(d),
                None => Err(CellError::InvalidDigitText),
            },
            _ => Err(CellError::InvalidType),
        }
    }
}

impl<const C: usize, const R: usize> LayoutTable<C, R> {
    /// Reads a layout table file: see [`Table::from_json`].
    pub fn from_json(grid: &JsonGrid) -> (r: Result<Self, TableError>)
        ensures
            r matches Ok(t) ==> grid matches JsonGrid::Rows(rows) && fits_shape(rows@, R as nat, C as nat) && forall|i: int, j: int|
                0 <= i < R && 0 <= j < C ==> cell_reads_as(json_cell_at(rows@, i, j), #[trigger] t.view()[i][j]),
    {
        match Table::<C, R, Digit>::from_json(grid) {
            Ok(t) => Ok(LayoutTable(t)),
            Err(e) => Err(e),
        }
    }

    /// Writes a layout table file: see [`Table::to_json`].
    pub fn to_json(&self) -> (g: JsonGrid)
        ensures
            g matches JsonGrid::Rows(rows) && written_as(self.view(), rows@, R as nat, C as nat),
    {
        self.0.to_json()
    }
}

} // verus!
