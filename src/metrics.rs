use vstd::prelude::*;

use crate::fingerings::{
    all_bigrams, all_trigrams, grid_unigrams, same_place, small_grid, BigramFingering, TrigramFingering,
    UnigramFingering,
};
use crate::goals::Goal;
use crate::layouts::{Laterality, LayoutTable, Position};
use crate::scores::{
    bigrams_fit, lemma_filter_fits_bigram, lemma_filter_fits_trigram, trigrams_fit, unigrams_fit,
};

verus! {

pub open spec fn is_middle_or_ring(p: Position) -> bool {
    p == Position::Middle || p == Position::Ring
}

pub open spec fn abs_diff(a: usize, b: usize) -> nat {
    if a >= b {
        (a - b) as nat
    } else {
        (b - a) as nat
    }
}

fn abs_diff_exec(a: usize, b: usize) -> (d: usize)
    ensures
        d == abs_diff(a, b),
{
    if a >= b {
        a - b
    } else {
        b - a
    }
}

/// The unigram metrics: a hand and a finger, or a whole hand.
#[derive(Clone, Copy, Debug, PartialEq, Eq, Structural, PartialOrd, Ord)]
pub enum UnigramMetric {
    Lt,
    Li,
    Lm,
    Lr,
    Lp,
    Lh,
    Rt,
    Ri,
    Rm,
    Rr,
    Rp,
    Rh,
}

impl UnigramMetric {
    /// Every unigram metric, in declaration order.
    pub fn variants() -> (v: Vec<UnigramMetric>)
        ensures
            v@ == UnigramMetric::spec_all(),
            v@.len() == 12,
            forall|i: int| 0 <= i < 12 ==> (#[trigger] v@[i]).spec_index() == i,
    {
        vec![
            UnigramMetric::Lt,
            UnigramMetric::Li,
            UnigramMetric::Lm,
            UnigramMetric::Lr,
            UnigramMetric::Lp,
            UnigramMetric::Lh,
            UnigramMetric::Rt,
            UnigramMetric::Ri,
            UnigramMetric::Rm,
            UnigramMetric::Rr,
            UnigramMetric::Rp,
            UnigramMetric::Rh,
        ]
    }

    pub open spec fn spec_index(self) -> nat {
        match self {
            UnigramMetric::Lt => 0,
            UnigramMetric::Li => 1,
            UnigramMetric::Lm => 2,
            UnigramMetric::Lr => 3,
            UnigramMetric::Lp => 4,
            UnigramMetric::Lh => 5,
            UnigramMetric::Rt => 6,
            UnigramMetric::Ri => 7,
            UnigramMetric::Rm => 8,
            UnigramMetric::Rr => 9,
            UnigramMetric::Rp => 10,
            UnigramMetric::Rh => 11,
        }
    }

    pub fn as_usize(self) -> (i: usize)
        ensures
            i == self.spec_index(),
    {
        match self {
            UnigramMetric::Lt => 0,
            UnigramMetric::Li => 1,
            UnigramMetric::Lm => 2,
            UnigramMetric::Lr => 3,
            UnigramMetric::Lp => 4,
            UnigramMetric::Lh => 5,
            UnigramMetric::Rt => 6,
            UnigramMetric::Ri => 7,
            UnigramMetric::Rm => 8,
            UnigramMetric::Rr => 9,
            UnigramMetric::Rp => 10,
            UnigramMetric::Rh => 11,
        }
    }

    /// The hand of the metric, and its finger unless it counts the whole hand.
    pub open spec fn spec_digit(self) -> (Laterality, Option<Position>) {
        match self {
            UnigramMetric::Lt => (Laterality::Left, Some(Position::Thumb)),
            UnigramMetric::Li => (Laterality::Left, Some(Position::Index)),
            UnigramMetric::Lm => (Laterality::Left, Some(Position::Middle)),
            UnigramMetric::Lr => (Laterality::Left, Some(Position::Ring)),
            UnigramMetric::Lp => (Laterality::Left, Some(Position::Pinky)),
            UnigramMetric::Lh => (Laterality::Left, None),
            UnigramMetric::Rt => (Laterality::Right, Some(Position::Thumb)),
            UnigramMetric::Ri => (Laterality::Right, Some(Position::Index)),
            UnigramMetric::Rm => (Laterality::Right, Some(Position::Middle)),
            UnigramMetric::Rr => (Laterality::Right, Some(Position::Ring)),
            UnigramMetric::Rp => (Laterality::Right, Some(Position::Pinky)),
            UnigramMetric::Rh => (Laterality::Right, None),
        }
    }

    /// The fingering is typed by the hand, and finger, of the metric.
    pub open spec fn spec_accepts(self, f: UnigramFingering) -> bool {
        let (l, p) = self.spec_digit();
        f.0.2 == l && match p {
            Some(p) => f.0.3 == p,
            None => true,
        }
    }

    pub fn accepts(self, f: &UnigramFingering) -> (r: bool)
        ensures
            r == self.spec_accepts(*f),
    {
        let (l, p) = match self {
            UnigramMetric::Lt => (Laterality::Left, Some(Position::Thumb)),
            UnigramMetric::Li => (Laterality::Left, Some(Position::Index)),
            UnigramMetric::Lm => (Laterality::Left, Some(Position::Middle)),
            UnigramMetric::Lr => (Laterality::Left, Some(Position::Ring)),
            UnigramMetric::Lp => (Laterality::Left, Some(Position::Pinky)),
            UnigramMetric::Lh => (Laterality::Left, None),
            UnigramMetric::Rt => (Laterality::Right, Some(Position::Thumb)),
            UnigramMetric::Ri => (Laterality::Right, Some(Position::Index)),
            UnigramMetric::Rm => (Laterality::Right, Some(Position::Middle)),
            UnigramMetric::Rr => (Laterality::Right, Some(Position::Ring)),
            UnigramMetric::Rp => (Laterality::Right, Some(Position::Pinky)),
            UnigramMetric::Rh => (Laterality::Right, None),
        };
        f.0.2 == l && match p {
            Some(p) => f.0.3 == p,
            None => true,
        }
    }

    /// Whether a search on this metric maximises or minimises it.
    pub open spec fn spec_goal(self) -> Goal {
        match self {
            UnigramMetric::Lr | UnigramMetric::Lp | UnigramMetric::Rr | UnigramMetric::Rp => Goal::Min,
            _ => Goal::Max,
        }
    }

    /// Whether a search on this metric maximises or minimises it.
    pub fn goal(self) -> (g: Goal)
        ensures
            g == self.spec_goal(),
    {
        match self {
            UnigramMetric::Lr | UnigramMetric::Lp | UnigramMetric::Rr | UnigramMetric::Rp => Goal::Min,
            _ => Goal::Max,
        }
    }

    /// Every metric of this arity, in declaration order.
    pub open spec fn spec_all() -> Seq<UnigramMetric> {
        seq![UnigramMetric::Lt, UnigramMetric::Li, UnigramMetric::Lm, UnigramMetric::Lr, UnigramMetric::Lp, UnigramMetric::Lh, UnigramMetric::Rt, UnigramMetric::Ri, UnigramMetric::Rm, UnigramMetric::Rr, UnigramMetric::Rp, UnigramMetric::Rh]
    }

    /// The metric's name in lower case.
    pub open spec fn spec_name(self) -> Seq<char> {
        match self {
            UnigramMetric::Lt => seq!['l', 't'],
            UnigramMetric::Li => seq!['l', 'i'],
            UnigramMetric::Lm => seq!['l', 'm'],
            UnigramMetric::Lr => seq!['l', 'r'],
            UnigramMetric::Lp => seq!['l', 'p'],
            UnigramMetric::Lh => seq!['l', 'h'],
            UnigramMetric::Rt => seq!['r', 't'],
            UnigramMetric::Ri => seq!['r', 'i'],
            UnigramMetric::Rm => seq!['r', 'm'],
            UnigramMetric::Rr => seq!['r', 'r'],
            UnigramMetric::Rp => seq!['r', 'p'],
            UnigramMetric::Rh => seq!['r', 'h'],
        }
    }

    /// The metric's name in lower case, as filters write it.
    pub fn name(self) -> (s: &'static str)
        ensures
            s@ == self.spec_name(),
    {
        match self {
            UnigramMetric::Lt => {
                proof {
                    reveal_strlit("lt");
                }
                "lt"
            },
            UnigramMetric::Li => {
                proof {
                    reveal_strlit("li");
                }
                "li"
            },
            UnigramMetric::Lm => {
                proof {
                    reveal_strlit("lm");
                }
                "lm"
            },
            UnigramMetric::Lr => {
                proof {
                    reveal_strlit("lr");
                }
                "lr"
            },
            UnigramMetric::Lp => {
                proof {
                    reveal_strlit("lp");
                }
                "lp"
            },
            UnigramMetric::Lh => {
                proof {
                    reveal_strlit("lh");
                }
                "lh"
            },
            UnigramMetric::Rt => {
                proof {
                    reveal_strlit("rt");
                }
                "rt"
            },
            UnigramMetric::Ri => {
                proof {
                    reveal_strlit("ri");
                }
                "ri"
            },
            UnigramMetric::Rm => {
                proof {
                    reveal_strlit("rm");
                }
                "rm"
            },
            UnigramMetric::Rr => {
                proof {
                    reveal_strlit("rr");
                }
                "rr"
            },
            UnigramMetric::Rp => {
                proof {
                    reveal_strlit("rp");
                }
                "rp"
            },
            UnigramMetric::Rh => {
                proof {
                    reveal_strlit("rh");
                }
                "rh"
            },
        }
    }
}

/// The bigram metrics.
#[derive(Clone, Copy, Debug, PartialEq, Eq, Structural, PartialOrd, Ord)]
pub enum BigramMetric {
    Fsb,
    Hsb,
    Irb,
    Lsb,
    Orb,
    Sfb,
}

/// Full scissor: one hand, columns apart, rows more than one apart, the
/// middle or ring finger on the lower row.
pub open spec fn is_fsb(f: BigramFingering) -> bool {
    let (a, b) = (f.0, f.1);
    a.2 == b.2 && abs_diff(a.1, b.1) >= 1 && abs_diff(a.0, b.0) > 1 && ((is_middle_or_ring(a.3) && a.0 > b.0)
        || (is_middle_or_ring(b.3) && b.0 > a.0))
}

/// Half scissor: as a full scissor, with rows one apart.
pub open spec fn is_hsb(f: BigramFingering) -> bool {
    let (a, b) = (f.0, f.1);
    a.2 == b.2 && abs_diff(a.1, b.1) >= 1 && abs_diff(a.0, b.0) == 1 && ((is_middle_or_ring(a.3) && a.0 > b.0)
        || (is_middle_or_ring(b.3) && b.0 > a.0))
}

/// Lateral stretch: index and middle finger of one hand, two columns apart or more.
pub open spec fn is_lsb(f: BigramFingering) -> bool {
    let (a, b) = (f.0, f.1);
    a.2 == b.2 && abs_diff(a.1, b.1) >= 2 && ((a.3 == Position::Middle && b.3 == Position::Index) || (a.3
        == Position::Index && b.3 == Position::Middle))
}

/// Inward roll: one hand, one row, adjacent columns, towards the index finger.
pub open spec fn is_irb(f: BigramFingering) -> bool {
    let (a, b) = (f.0, f.1);
    a.2 == b.2 && a.0 == b.0 && abs_diff(a.1, b.1) == 1 && ((a.3 == Position::Pinky && b.3 == Position::Ring)
        || (a.3 == Position::Ring && b.3 == Position::Middle) || (a.3 == Position::Middle && b.3
        == Position::Index))
}

/// Outward roll: one hand, one row, adjacent columns, towards the pinky.
pub open spec fn is_orb(f: BigramFingering) -> bool {
    let (a, b) = (f.0, f.1);
    a.2 == b.2 && a.0 == b.0 && abs_diff(a.1, b.1) == 1 && ((a.3 == Position::Index && b.3 == Position::Middle)
        || (a.3 == Position::Middle && b.3 == Position::Ring) || (a.3 == Position::Ring && b.3
        == Position::Pinky))
}

/// Same finger: one finger of one hand types both keys.
pub open spec fn is_sfb(f: BigramFingering) -> bool {
    f.0.2 == f.1.2 && f.0.3 == f.1.3
}

impl BigramMetric {
    pub fn variants() -> (v: Vec<BigramMetric>)
        ensures
            v@ == BigramMetric::spec_all(),
            v@.len() == 6,
            forall|i: int| 0 <= i < 6 ==> (#[trigger] v@[i]).spec_index() == i,
    {
        vec![BigramMetric::Fsb, BigramMetric::Hsb, BigramMetric::Irb, BigramMetric::Lsb, BigramMetric::Orb, BigramMetric::Sfb]
    }

    pub open spec fn spec_index(self) -> nat {
        match self {
            BigramMetric::Fsb => 0,
            BigramMetric::Hsb => 1,
            BigramMetric::Irb => 2,
            BigramMetric::Lsb => 3,
            BigramMetric::Orb => 4,
            BigramMetric::Sfb => 5,
        }
    }

    pub fn as_usize(self) -> (i: usize)
        ensures
            i == self.spec_index(),
    {
        match self {
            BigramMetric::Fsb => 0,
            BigramMetric::Hsb => 1,
            BigramMetric::Irb => 2,
            BigramMetric::Lsb => 3,
            BigramMetric::Orb => 4,
            BigramMetric::Sfb => 5,
        }
    }

    pub open spec fn spec_accepts(self, f: BigramFingering) -> bool {
        match self {
            BigramMetric::Fsb => is_fsb(f),
            BigramMetric::Hsb => is_hsb(f),
            BigramMetric::Irb => is_irb(f),
            BigramMetric::Lsb => is_lsb(f),
            BigramMetric::Orb => is_orb(f),
            BigramMetric::Sfb => is_sfb(f),
        }
    }

    pub fn accepts(self, f: &BigramFingering) -> (r: bool)
        ensures
            r == self.spec_accepts(*f),
    {
        let (a, b) = (f.0, f.1);
        let same_hand = a.2 == b.2;
        let dc = abs_diff_exec(a.1, b.1);
        let dr = abs_diff_exec(a.0, b.0);
        let a_mr = a.3 == Position::Middle || a.3 == Position::Ring;
        let b_mr = b.3 == Position::Middle || b.3 == Position::Ring;
        let scissor_lower = (a_mr && a.0 > b.0) || (b_mr && b.0 > a.0);
        match self {
            BigramMetric::Fsb => same_hand && dc >= 1 && dr > 1 && scissor_lower,
            BigramMetric::Hsb => same_hand && dc >= 1 && dr == 1 && scissor_lower,
            BigramMetric::Irb => same_hand && a.0 == b.0 && dc == 1 && ((a.3 == Position::Pinky && b.3 == Position::Ring)
                || (a.3 == Position::Ring && b.3 == Position::Middle) || (a.3 == Position::Middle && b.3
                == Position::Index)),
            BigramMetric::Lsb => same_hand && dc >= 2 && ((a.3 == Position::Middle && b.3 == Position::Index) || (a.3
                == Position::Index && b.3 == Position::Middle)),
            BigramMetric::Orb => same_hand && a.0 == b.0 && dc == 1 && ((a.3 == Position::Index && b.3 == Position::Middle)
                || (a.3 == Position::Middle && b.3 == Position::Ring) || (a.3 == Position::Ring && b.3
                == Position::Pinky)),
            BigramMetric::Sfb => same_hand && a.3 == b.3,
        }
    }

    pub open spec fn spec_goal(self) -> Goal {
        match self {
            BigramMetric::Irb | BigramMetric::Orb => Goal::Max,
            _ => Goal::Min,
        }
    }

    pub fn goal(self) -> (g: Goal)
        ensures
            g == self.spec_goal(),
    {
        match self {
            BigramMetric::Irb | BigramMetric::Orb => Goal::Max,
            _ => Goal::Min,
        }
    }

    /// Every metric of this arity, in declaration order.
    pub open spec fn spec_all() -> Seq<BigramMetric> {
        seq![BigramMetric::Fsb, BigramMetric::Hsb, BigramMetric::Irb, BigramMetric::Lsb, BigramMetric::Orb, BigramMetric::Sfb]
    }

    /// The metric's name in lower case.
    pub open spec fn spec_name(self) -> Seq<char> {
        match self {
            BigramMetric::Fsb => seq!['f', 's', 'b'],
            BigramMetric::Hsb => seq!['h', 's', 'b'],
            BigramMetric::Irb => seq!['i', 'r', 'b'],
            BigramMetric::Lsb => seq!['l', 's', 'b'],
            BigramMetric::Orb => seq!['o', 'r', 'b'],
            BigramMetric::Sfb => seq!['s', 'f', 'b'],
        }
    }

    /// The metric's name in lower case, as filters write it.
    pub fn name(self) -> (s: &'static str)
        ensures
            s@ == self.spec_name(),
    {
        match self {
            BigramMetric::Fsb => {
                proof {
                    reveal_strlit("fsb");
                }
                "fsb"
            },
            BigramMetric::Hsb => {
                proof {
                    reveal_strlit("hsb");
                }
                "hsb"
            },
            BigramMetric::Irb => {
                proof {
                    reveal_strlit("irb");
                }
                "irb"
            },
            BigramMetric::Lsb => {
                proof {
                    reveal_strlit("lsb");
                }
                "lsb"
            },
            BigramMetric::Orb => {
                proof {
                    reveal_strlit("orb");
                }
                "orb"
            },
            BigramMetric::Sfb => {
                proof {
                    reveal_strlit("sfb");
                }
                "sfb"
            },
        }
    }
}

/// The trigram metrics.
#[derive(Clone, Copy, Debug, PartialEq, Eq, Structural, PartialOrd, Ord)]
pub enum TrigramMetric {
    Alt,
    One,
    Red,
    Rol,
}

/// Alternation: first and last key on one hand, the middle one on the other.
pub open spec fn is_alt(f: TrigramFingering) -> bool {
    f.0.2 == f.2.2 && f.1.2 != f.0.2
}

pub open spec fn three_fingers_one_hand(f: TrigramFingering) -> bool {
    f.0.2 == f.1.2 && f.1.2 == f.2.2 && f.0.3 != f.1.3 && f.1.3 != f.2.3 && f.0.3 != f.2.3
}

/// One direction: three fingers of one hand, columns in one direction.
pub open spec fn is_one(f: TrigramFingering) -> bool {
    three_fingers_one_hand(f) && ((f.0.1 < f.1.1 && f.1.1 < f.2.1) || (f.0.1 > f.1.1 && f.1.1 > f.2.1))
}

/// Redirect: three fingers of one hand, columns changing direction.
pub open spec fn is_red(f: TrigramFingering) -> bool {
    three_fingers_one_hand(f) && ((f.0.1 < f.1.1 && f.1.1 > f.2.1) || (f.0.1 > f.1.1 && f.1.1 < f.2.1))
}

/// Roll: two different fingers of one hand, then the other hand, or the reverse.
pub open spec fn is_rol(f: TrigramFingering) -> bool {
    (f.0.2 == f.1.2 && f.0.2 != f.2.2 && f.0.3 != f.1.3) || (f.1.2 == f.2.2 && f.1.2 != f.0.2 && f.1.3 != f.2.3)
}

impl TrigramMetric {
    pub fn variants() -> (v: Vec<TrigramMetric>)
        ensures
            v@ == TrigramMetric::spec_all(),
            v@.len() == 4,
            forall|i: int| 0 <= i < 4 ==> (#[trigger] v@[i]).spec_index() == i,
    {
        vec![TrigramMetric::Alt, TrigramMetric::One, TrigramMetric::Red, TrigramMetric::Rol]
    }

    pub open spec fn spec_index(self) -> nat {
        match self {
            TrigramMetric::Alt => 0,
            TrigramMetric::One => 1,
            TrigramMetric::Red => 2,
            TrigramMetric::Rol => 3,
        }
    }

    pub fn as_usize(self) -> (i: usize)
        ensures
            i == self.spec_index(),
    {
        match self {
            TrigramMetric::Alt => 0,
            TrigramMetric::One => 1,
            TrigramMetric::Red => 2,
            TrigramMetric::Rol => 3,
        }
    }

    pub open spec fn spec_accepts(self, f: TrigramFingering) -> bool {
        match self {
            TrigramMetric::Alt => is_alt(f),
            TrigramMetric::One => is_one(f),
            TrigramMetric::Red => is_red(f),
            TrigramMetric::Rol => is_rol(f),
        }
    }

    pub fn accepts(self, f: &TrigramFingering) -> (r: bool)
        ensures
            r == self.spec_accepts(*f),
    {
        let (a, b, c) = (f.0, f.1, f.2);
        let three = a.2 == b.2 && b.2 == c.2 && a.3 != b.3 && b.3 != c.3 && a.3 != c.3;
        match self {
            TrigramMetric::Alt => a.2 == c.2 && b.2 != a.2,
            TrigramMetric::One => three && ((a.1 < b.1 && b.1 < c.1) || (a.1 > b.1 && b.1 > c.1)),
            TrigramMetric::Red => three && ((a.1 < b.1 && b.1 > c.1) || (a.1 > b.1 && b.1 < c.1)),
            TrigramMetric::Rol => (a.2 == b.2 && a.2 != c.2 && a.3 != b.3) || (b.2 == c.2 && b.2 != a.2 && b.3 != c.3),
        }
    }

    pub open spec fn spec_goal(self) -> Goal {
        Goal::Min
    }

    pub fn goal(self) -> (g: Goal)
        ensures
            g == self.spec_goal(),
    {
        Goal::Min
    }

    /// Every metric of this arity, in declaration order.
    pub open spec fn spec_all() -> Seq<TrigramMetric> {
        seq![TrigramMetric::Alt, TrigramMetric::One, TrigramMetric::Red, TrigramMetric::Rol]
    }

    /// The metric's name in lower case.
    pub open spec fn spec_name(self) -> Seq<char> {
        match self {
            TrigramMetric::Alt => seq!['a', 'l', 't'],
            TrigramMetric::One => seq!['o', 'n', 'e'],
            TrigramMetric::Red => seq!['r', 'e', 'd'],
            TrigramMetric::Rol => seq!['r', 'o', 'l'],
        }
    }

    /// The metric's name in lower case, as filters write it.
    pub fn name(self) -> (s: &'static str)
        ensures
            s@ == self.spec_name(),
    {
        match self {
            TrigramMetric::Alt => {
                proof {
                    reveal_strlit("alt");
                }
                "alt"
            },
            TrigramMetric::One => {
                proof {
                    reveal_strlit("one");
                }
                "one"
            },
            TrigramMetric::Red => {
                proof {
                    reveal_strlit("red");
                }
                "red"
            },
            TrigramMetric::Rol => {
                proof {
                    reveal_strlit("rol");
                }
                "rol"
            },
        }
    }
}

/// A metric of any arity.
#[derive(Clone, Copy, Debug, PartialEq, Eq, Structural, PartialOrd, Ord)]
pub enum Metric {
    Unigram(UnigramMetric),
    Bigram(BigramMetric),
    Trigram(TrigramMetric),
}

/// The names of all metrics, lower case: the unigram metrics, then the
/// bigram and the trigram metrics, each in declaration order.
pub open spec fn metric_names() -> Seq<Seq<char>> {
    UnigramMetric::spec_all().map_values(|m: UnigramMetric| m.spec_name()) + BigramMetric::spec_all().map_values(
        |m: BigramMetric| m.spec_name(),
    ) + TrigramMetric::spec_all().map_values(|m: TrigramMetric| m.spec_name())
}

impl Metric {
    /// The names of all metrics, lower case, unigram metrics first.
    pub fn get_variables() -> (names: Vec<&'static str>)
        ensures
            names@.len() == 22,
            forall|k: int| 0 <= k < 22 ==> (#[trigger] names@[k])@ == metric_names()[k],
    {
        let mut names: Vec<&'static str> = Vec::new();
        let us = UnigramMetric::variants();
        let bs = BigramMetric::variants();
        let ts = TrigramMetric::variants();
        let mut i: usize = 0;
        while i < us.len()
            invariant
                i <= us@.len(),
                us@ == UnigramMetric::spec_all(),
                names@.len() == i,
                forall|k: int| 0 <= k < i ==> (#[trigger] names@[k])@ == metric_names()[k],
            decreases us.len() - i,
        {
            names.push(us[i].name());
            i = i + 1;
        }
        let mut i: usize = 0;
        while i < bs.len()
            invariant
                i <= bs@.len(),
                bs@ == BigramMetric::spec_all(),
                names@.len() == 12 + i,
                forall|k: int| 0 <= k < 12 + i ==> (#[trigger] names@[k])@ == metric_names()[k],
            decreases bs.len() - i,
        {
            names.push(bs[i].name());
            i = i + 1;
        }
        let mut i: usize = 0;
        while i < ts.len()
            invariant
                i <= ts@.len(),
                ts@ == TrigramMetric::spec_all(),
                names@.len() == 18 + i,
                forall|k: int| 0 <= k < 18 + i ==> (#[trigger] names@[k])@ == metric_names()[k],
            decreases ts.len() - i,
        {
            names.push(ts[i].name());
            i = i + 1;
        }
        names
    }

    /// The goal of the metric.
    pub open spec fn spec_goal(self) -> Goal {
        match self {
            Metric::Unigram(m) => m.spec_goal(),
            Metric::Bigram(m) => m.spec_goal(),
            Metric::Trigram(m) => m.spec_goal(),
        }
    }

    pub fn goal(self) -> (g: Goal)
        ensures
            g == self.spec_goal(),
    {
        match self {
            Metric::Unigram(m) => m.goal(),
            Metric::Bigram(m) => m.goal(),
            Metric::Trigram(m) => m.goal(),
        }
    }
}

/// Ascending or descending.
#[derive(Clone, Copy, Debug, PartialEq, Eq, Structural, PartialOrd, Ord)]
pub enum SortDirection {
    Ascending,
    Descending,
}

/// Sort records by the sum of a metric, in a direction.
#[derive(Clone, Copy, Debug, PartialEq, Eq, Structural, PartialOrd, Ord)]
pub struct SortRule {
    pub metric: Metric,
    pub sort_direction: SortDirection,
}

/// The metrics of the rules, split by arity, each list in the rules' order.
pub fn partition_sort_rules(sort_rules: &[SortRule]) -> (r: (Vec<UnigramMetric>, Vec<BigramMetric>, Vec<TrigramMetric>))
    ensures
        r.0@ == sort_rules@.filter_map(|s: SortRule| match s.metric {
            Metric::Unigram(m) => Some(m),
            _ => None,
        }),
        r.1@ == sort_rules@.filter_map(|s: SortRule| match s.metric {
            Metric::Bigram(m) => Some(m),
            _ => None,
        }),
        r.2@ == sort_rules@.filter_map(|s: SortRule| match s.metric {
            Metric::Trigram(m) => Some(m),
            _ => None,
        }),
{
    let mut us: Vec<UnigramMetric> = Vec::new();
    let mut bs: Vec<BigramMetric> = Vec::new();
    let mut ts: Vec<TrigramMetric> = Vec::new();
    let ghost fu = |s: SortRule| match s.metric {
        Metric::Unigram(m) => Some(m),
        _ => None,
    };
    let ghost fb = |s: SortRule| match s.metric {
        Metric::Bigram(m) => Some(m),
        _ => None,
    };
    let ghost ft = |s: SortRule| match s.metric {
        Metric::Trigram(m) => Some(m),
        _ => None,
    };
    let mut i: usize = 0;
    while i < sort_rules.len()
        invariant
            i <= sort_rules@.len(),
            fu == (|s: SortRule| match s.metric {
                Metric::Unigram(m) => Some(m),
                _ => None,
            }),
            fb == (|s: SortRule| match s.metric {
                Metric::Bigram(m) => Some(m),
                _ => None,
            }),
            ft == (|s: SortRule| match s.metric {
                Metric::Trigram(m) => Some(m),
                _ => None,
            }),
            us@ == sort_rules@.take(i as int).filter_map(fu),
            bs@ == sort_rules@.take(i as int).filter_map(fb),
            ts@ == sort_rules@.take(i as int).filter_map(ft),
        decreases sort_rules.len() - i,
    {
        proof {
            sort_rules@.lemma_filter_map_take_succ(fu, i as int);
            sort_rules@.lemma_filter_map_take_succ(fb, i as int);
            sort_rules@.lemma_filter_map_take_succ(ft, i as int);
        }
        match sort_rules[i].metric {
            Metric::Unigram(m) => us.push(m),
            Metric::Bigram(m) => bs.push(m),
            Metric::Trigram(m) => ts.push(m),
        }
        i = i + 1;
    }
    proof {
        assert(sort_rules@.take(sort_rules@.len() as int) =~= sort_rules@);
    }
    (us, bs, ts)
}


/// Without a metric: every unigram; with one: those that the metric accepts.
pub open spec fn unigram_kept(choice: Option<UnigramMetric>, f: UnigramFingering) -> bool {
    match choice {
        None => true,
        Some(m) => m.spec_accepts(f),
    }
}

/// Without a metric: the bigrams over two distinct positions; with one: those
/// that the metric accepts.
pub open spec fn bigram_kept(choice: Option<BigramMetric>, f: BigramFingering) -> bool {
    match choice {
        None => !same_place(f.0, f.1),
        Some(m) => m.spec_accepts(f),
    }
}

/// Without a metric: the trigrams over three distinct positions; with one:
/// those that the metric accepts.
pub open spec fn trigram_kept(choice: Option<TrigramMetric>, f: TrigramFingering) -> bool {
    match choice {
        None => !same_place(f.0, f.1) && !same_place(f.0, f.2) && !same_place(f.1, f.2),
        Some(m) => m.spec_accepts(f),
    }
}

/// The unigram fingerings that `choice` keeps: see [`unigram_kept`].
fn keep_unigrams(fs: &Vec<UnigramFingering>, choice: Option<UnigramMetric>) -> (r: Vec<UnigramFingering>)
    ensures
        r@ == fs@.filter(|f: UnigramFingering| unigram_kept(choice, f)),
{
    let ghost p = |f: UnigramFingering| unigram_kept(choice, f);
    let mut r: Vec<UnigramFingering> = Vec::new();
    let mut i: usize = 0;
    while i < fs.len()
        invariant
            i <= fs@.len(),
            p == (|f: UnigramFingering| unigram_kept(choice, f)),
            r@ == fs@.take(i as int).filter(p),
        decreases fs.len() - i,
    {
        let f = fs[i];
        let keep = match choice {
            None => true,
            Some(m) => m.accepts(&f),
        };
        proof {
            reveal(Seq::filter);
            assert(fs@.take(i + 1).drop_last() =~= fs@.take(i as int));
            assert(fs@.take(i + 1).last() == f);
        }
        if keep {
            r.push(f);
        }
        i = i + 1;
    }
    assert(fs@.take(fs@.len() as int) =~= fs@);
    r
}

/// The bigram fingerings that `choice` keeps: see [`bigram_kept`].
fn keep_bigrams(fs: &Vec<BigramFingering>, choice: Option<BigramMetric>) -> (r: Vec<BigramFingering>)
    ensures
        r@ == fs@.filter(|f: BigramFingering| bigram_kept(choice, f)),
{
    let ghost p = |f: BigramFingering| bigram_kept(choice, f);
    let mut r: Vec<BigramFingering> = Vec::new();
    let mut i: usize = 0;
    while i < fs.len()
        invariant
            i <= fs@.len(),
            p == (|f: BigramFingering| bigram_kept(choice, f)),
            r@ == fs@.take(i as int).filter(p),
        decreases fs.len() - i,
    {
        let f = fs[i];
        let keep = match choice {
            None => !(f.0.0 == f.1.0 && f.0.1 == f.1.1),
            Some(m) => m.accepts(&f),
        };
        proof {
            reveal(Seq::filter);
            assert(fs@.take(i + 1).drop_last() =~= fs@.take(i as int));
            assert(fs@.take(i + 1).last() == f);
        }
        if keep {
            r.push(f);
        }
        i = i + 1;
    }
    assert(fs@.take(fs@.len() as int) =~= fs@);
    r
}

/// The trigram fingerings that `choice` keeps: see [`trigram_kept`].
fn keep_trigrams(fs: &Vec<TrigramFingering>, choice: Option<TrigramMetric>) -> (r: Vec<TrigramFingering>)
    ensures
        r@ == fs@.filter(|f: TrigramFingering| trigram_kept(choice, f)),
{
    let ghost p = |f: TrigramFingering| trigram_kept(choice, f);
    let mut r: Vec<TrigramFingering> = Vec::new();
    let mut i: usize = 0;
    while i < fs.len()
        invariant
            i <= fs@.len(),
            p == (|f: TrigramFingering| trigram_kept(choice, f)),
            r@ == fs@.take(i as int).filter(p),
        decreases fs.len() - i,
    {
        let f = fs[i];
        let keep = match choice {
            None => !(f.0.0 == f.1.0 && f.0.1 == f.1.1) && !(f.0.0 == f.2.0 && f.0.1 == f.2.1) && !(f.1.0 == f.2.0 && f.1.1 == f.2.1),
            Some(m) => m.accepts(&f),
        };
        proof {
            reveal(Seq::filter);
            assert(fs@.take(i + 1).drop_last() =~= fs@.take(i as int));
            assert(fs@.take(i + 1).last() == f);
        }
        if keep {
            r.push(f);
        }
        i = i + 1;
    }
    assert(fs@.take(fs@.len() as int) =~= fs@);
    r
}

/// The unigram fingerings of a layout, and for each metric those that it accepts.
pub struct UnigramFingerings {
    all: Vec<UnigramFingering>,
    by_metric: Vec<Vec<UnigramFingering>>,
}

impl UnigramFingerings {
    pub closed spec fn wf(&self) -> bool {
        &&& self.by_metric@.len() == 12
        &&& forall|m: UnigramMetric| #[trigger] self.by_metric@[m.spec_index() as int]@ == self.all@.filter(
            |f: UnigramFingering| m.spec_accepts(f),
        )
    }

    pub closed spec fn spec_all(&self) -> Seq<UnigramFingering> {
        self.all@
    }

    pub fn get(&self) -> (r: &Vec<UnigramFingering>)
        ensures
            r@ == self.spec_all(),
    {
        &self.all
    }

    pub fn get_by_metric(&self, metric: UnigramMetric) -> (r: &Vec<UnigramFingering>)
        requires
            self.wf(),
        ensures
            r@ == self.spec_all().filter(|f: UnigramFingering| metric.spec_accepts(f)),
    {
        assert(self.by_metric@[metric.spec_index() as int]@ == self.all@.filter(|f: UnigramFingering| metric.spec_accepts(f)));
        &self.by_metric[metric.as_usize()]
    }

    fn build(all: Vec<UnigramFingering>) -> (s: Self)
        ensures
            s.wf(),
            s.spec_all() == all@,
    {
        let metrics = UnigramMetric::variants();
        let mut by_metric: Vec<Vec<UnigramFingering>> = Vec::new();
        let mut i: usize = 0;
        while i < metrics.len()
            invariant
                i <= metrics@.len(),
                metrics@.len() == 12,
                forall|j: int| 0 <= j < 12 ==> (#[trigger] metrics@[j]).spec_index() == j,
                by_metric@.len() == i,
                forall|j: int| 0 <= j < i ==> (#[trigger] by_metric@[j])@ == all@.filter(
                    |f: UnigramFingering| metrics@[j].spec_accepts(f),
                ),
            decreases metrics.len() - i,
        {
            let kept = keep_unigrams(&all, Some(metrics[i]));
            assert((|f: UnigramFingering| unigram_kept(Some(metrics@[i as int]), f)) =~= (|f: UnigramFingering| metrics@[i as int].spec_accepts(f)));
            by_metric.push(kept);
            i = i + 1;
        }
        let s = UnigramFingerings { all, by_metric };
        assert forall|m: UnigramMetric| #[trigger] s.by_metric@[m.spec_index() as int]@ == s.all@.filter(
            |f: UnigramFingering| m.spec_accepts(f),
        ) by {
            let j = m.spec_index() as int;
            assert(metrics@[j].spec_index() == j);
            lemma_unigrams_index_injective(metrics@[j], m);
        }
        s
    }
}

proof fn lemma_unigrams_index_injective(a: UnigramMetric, b: UnigramMetric)
    requires
        a.spec_index() == b.spec_index(),
    ensures
        a == b,
{
}

/// The bigram fingerings of a layout, and for each metric those that it accepts.
pub struct BigramFingerings {
    all: Vec<BigramFingering>,
    by_metric: Vec<Vec<BigramFingering>>,
}

impl BigramFingerings {
    pub closed spec fn wf(&self) -> bool {
        &&& self.by_metric@.len() == 6
        &&& forall|m: BigramMetric| #[trigger] self.by_metric@[m.spec_index() as int]@ == self.all@.filter(
            |f: BigramFingering| m.spec_accepts(f),
        )
    }

    pub closed spec fn spec_all(&self) -> Seq<BigramFingering> {
        self.all@
    }

    pub fn get(&self) -> (r: &Vec<BigramFingering>)
        ensures
            r@ == self.spec_all(),
    {
        &self.all
    }

    pub fn get_by_metric(&self, metric: BigramMetric) -> (r: &Vec<BigramFingering>)
        requires
            self.wf(),
        ensures
            r@ == self.spec_all().filter(|f: BigramFingering| metric.spec_accepts(f)),
    {
        assert(self.by_metric@[metric.spec_index() as int]@ == self.all@.filter(|f: BigramFingering| metric.spec_accepts(f)));
        &self.by_metric[metric.as_usize()]
    }

    fn build(all: Vec<BigramFingering>) -> (s: Self)
        ensures
            s.wf(),
            s.spec_all() == all@,
    {
        let metrics = BigramMetric::variants();
        let mut by_metric: Vec<Vec<BigramFingering>> = Vec::new();
        let mut i: usize = 0;
        while i < metrics.len()
            invariant
                i <= metrics@.len(),
                metrics@.len() == 6,
                forall|j: int| 0 <= j < 6 ==> (#[trigger] metrics@[j]).spec_index() == j,
                by_metric@.len() == i,
                forall|j: int| 0 <= j < i ==> (#[trigger] by_metric@[j])@ == all@.filter(
                    |f: BigramFingering| metrics@[j].spec_accepts(f),
                ),
            decreases metrics.len() - i,
        {
            let kept = keep_bigrams(&all, Some(metrics[i]));
            assert((|f: BigramFingering| bigram_kept(Some(metrics@[i as int]), f)) =~= (|f: BigramFingering| metrics@[i as int].spec_accepts(f)));
            by_metric.push(kept);
            i = i + 1;
        }
        let s = BigramFingerings { all, by_metric };
        assert forall|m: BigramMetric| #[trigger] s.by_metric@[m.spec_index() as int]@ == s.all@.filter(
            |f: BigramFingering| m.spec_accepts(f),
        ) by {
            let j = m.spec_index() as int;
            assert(metrics@[j].spec_index() == j);
            lemma_bigrams_index_injective(metrics@[j], m);
        }
        s
    }
}

proof fn lemma_bigrams_index_injective(a: BigramMetric, b: BigramMetric)
    requires
        a.spec_index() == b.spec_index(),
    ensures
        a == b,
{
}

/// The trigram fingerings of a layout, and for each metric those that it accepts.
pub struct TrigramFingerings {
    all: Vec<TrigramFingering>,
    by_metric: Vec<Vec<TrigramFingering>>,
}

impl TrigramFingerings {
    pub closed spec fn wf(&self) -> bool {
        &&& self.by_metric@.len() == 4
        &&& forall|m: TrigramMetric| #[trigger] self.by_metric@[m.spec_index() as int]@ == self.all@.filter(
            |f: TrigramFingering| m.spec_accepts(f),
        )
    }

    pub closed spec fn spec_all(&self) -> Seq<TrigramFingering> {
        self.all@
    }

    pub fn get(&self) -> (r: &Vec<TrigramFingering>)
        ensures
            r@ == self.spec_all(),
    {
        &self.all
    }

    pub fn get_by_metric(&self, metric: TrigramMetric) -> (r: &Vec<TrigramFingering>)
        requires
            self.wf(),
        ensures
            r@ == self.spec_all().filter(|f: TrigramFingering| metric.spec_accepts(f)),
    {
        assert(self.by_metric@[metric.spec_index() as int]@ == self.all@.filter(|f: TrigramFingering| metric.spec_accepts(f)));
        &self.by_metric[metric.as_usize()]
    }

    fn build(all: Vec<TrigramFingering>) -> (s: Self)
        ensures
            s.wf(),
            s.spec_all() == all@,
    {
        let metrics = TrigramMetric::variants();
        let mut by_metric: Vec<Vec<TrigramFingering>> = Vec::new();
        let mut i: usize = 0;
        while i < metrics.len()
            invariant
                i <= metrics@.len(),
                metrics@.len() == 4,
                forall|j: int| 0 <= j < 4 ==> (#[trigger] metrics@[j]).spec_index() == j,
                by_metric@.len() == i,
                forall|j: int| 0 <= j < i ==> (#[trigger] by_metric@[j])@ == all@.filter(
                    |f: TrigramFingering| metrics@[j].spec_accepts(f),
                ),
            decreases metrics.len() - i,
        {
            let kept = keep_trigrams(&all, Some(metrics[i]));
            assert((|f: TrigramFingering| trigram_kept(Some(metrics@[i as int]), f)) =~= (|f: TrigramFingering| metrics@[i as int].spec_accepts(f)));
            by_metric.push(kept);
            i = i + 1;
        }
        let s = TrigramFingerings { all, by_metric };
        assert forall|m: TrigramMetric| #[trigger] s.by_metric@[m.spec_index() as int]@ == s.all@.filter(
            |f: TrigramFingering| m.spec_accepts(f),
        ) by {
            let j = m.spec_index() as int;
            assert(metrics@[j].spec_index() == j);
            lemma_trigrams_index_injective(metrics@[j], m);
        }
        s
    }
}

proof fn lemma_trigrams_index_injective(a: TrigramMetric, b: TrigramMetric)
    requires
        a.spec_index() == b.spec_index(),
    ensures
        a == b,
{
}

impl<const C: usize, const R: usize> LayoutTable<C, R> {
    /// The unigram fingerings of the layout, row by row.
    pub fn unigram_fingerings(&self) -> (r: UnigramFingerings)
        ensures
            r.wf(),
            r.spec_all() == grid_unigrams(self.view(), R as nat),
            unigrams_fit(r.spec_all(), R as nat, C as nat),
    {
        proof {
            crate::fingerings::lemma_unigrams_on_grid(self.view(), R as nat, C as nat);
        }
        UnigramFingerings::build(self.iter_f())
    }

    /// The bigram fingerings over two distinct positions of the layout.
    pub fn bigram_fingerings(&self) -> (r: BigramFingerings)
        requires
            small_grid(R as nat, C as nat),
        ensures
            r.wf(),
            r.spec_all() == all_bigrams(grid_unigrams(self.view(), R as nat), grid_unigrams(self.view(), R as nat).len()).filter(
                |f: BigramFingering| bigram_kept(None, f),
            ),
            forall|k: int| 0 <= k < r.spec_all().len() ==> !same_place((#[trigger] r.spec_all()[k]).0, r.spec_all()[k].1),
            bigrams_fit(r.spec_all(), R as nat, C as nat),
    {
        let every = self.iter_fp();
        let all = keep_bigrams(&every, None);
        proof {
            assert(bigrams_fit(every@, R as nat, C as nat));
            lemma_filter_fits_bigram(every@, |f: BigramFingering| bigram_kept(None, f), R as nat, C as nat);
            assert forall|k: int| 0 <= k < all@.len() implies !same_place((#[trigger] all@[k]).0, all@[k].1) by {
                let p = |f: BigramFingering| bigram_kept(None, f);
                let s = all_bigrams(grid_unigrams(self.view(), R as nat), grid_unigrams(self.view(), R as nat).len());
                s.lemma_filter_pred(p, k);
            }
        }
        BigramFingerings::build(all)
    }

    /// The trigram fingerings over three pairwise distinct positions of the layout.
    pub fn trigram_fingerings(&self) -> (r: TrigramFingerings)
        requires
            small_grid(R as nat, C as nat),
        ensures
            r.wf(),
            r.spec_all() == all_trigrams(grid_unigrams(self.view(), R as nat), grid_unigrams(self.view(), R as nat).len()).filter(
                |f: TrigramFingering| trigram_kept(None, f),
            ),
            forall|k: int|
                0 <= k < r.spec_all().len() ==> {
                    let f = #[trigger] r.spec_all()[k];
                    !same_place(f.0, f.1) && !same_place(f.0, f.2) && !same_place(f.1, f.2)
                },
            trigrams_fit(r.spec_all(), R as nat, C as nat),
    {
        let every = self.iter_ft();
        let all = keep_trigrams(&every, None);
        proof {
            assert(trigrams_fit(every@, R as nat, C as nat));
            lemma_filter_fits_trigram(every@, |f: TrigramFingering| trigram_kept(None, f), R as nat, C as nat);
            assert forall|k: int| 0 <= k < all@.len() implies {
                let f = #[trigger] all@[k];
                !same_place(f.0, f.1) && !same_place(f.0, f.2) && !same_place(f.1, f.2)
            } by {
                let p = |f: TrigramFingering| trigram_kept(None, f);
                let s = all_trigrams(grid_unigrams(self.view(), R as nat), grid_unigrams(self.view(), R as nat).len());
                s.lemma_filter_pred(p, k);
            }
        }
        TrigramFingerings::build(all)
    }
}
} // verus!
