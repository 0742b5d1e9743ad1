//! The states a single cell of the grid can be in.

use vstd::prelude::*;

verus! {

/// How many bombs touch a revealed cell, as far as the game tells: the
/// exact count is only known up to one of five classes.
#[derive(Clone, Copy, Debug, PartialEq, Eq, Structural)]
pub enum Bucket {
    /// No bomb among the neighbours.
    Green,
    /// One or two bombs among the neighbours.
    Blue,
    /// Three or four bombs among the neighbours.
    Red,
    /// Five or six bombs among the neighbours.
    Silver,
    /// Seven or eight bombs among the neighbours.
    Gold,
}

impl Bucket {
    /// The class a neighbouring-bomb count falls into. A cell has at most
    /// eight neighbours, so larger counts have no class.
    pub open spec fn of_count(count: int) -> Option<Bucket> {
        if count == 0 {
            Some(Bucket::Green)
        } else if 1 <= count <= 2 {
            Some(Bucket::Blue)
        } else if 3 <= count <= 4 {
            Some(Bucket::Red)
        } else if 5 <= count <= 6 {
            Some(Bucket::Silver)
        } else if 7 <= count <= 8 {
            Some(Bucket::Gold)
        } else {
            None
        }
    }

    /// Classifies a neighbouring-bomb count.
    pub fn from_count(count: u8) -> (bucket: Option<Bucket>)
        ensures
            bucket == Bucket::of_count(count as int),
    {
        match count {
            0 => Some(Bucket::Green),
            1 | 2 => Some(Bucket::Blue),
            3 | 4 => Some(Bucket::Red),
            5 | 6 => Some(Bucket::Silver),
            7 | 8 => Some(Bucket::Gold),
            _ => None,
        }
    }
}

/// A probability kept as an exact fraction, so that repeated updates cannot
/// drift the way floating-point accumulation would.
#[derive(Clone, Copy, Debug, PartialEq, Eq, Structural)]
pub struct Probability {
    /// The numerator of the fraction.
    pub num: u128,
    /// The denominator of the fraction.
    pub den: u128,
}

impl Probability {
    /// A fraction is a probability when it lies between zero and one.
    pub open spec fn valid(self) -> bool {
        0 < self.den && self.num <= self.den
    }

    /// The fraction `num / den`, or `None` where that is no probability.
    pub fn new(num: u128, den: u128) -> (p: Option<Probability>)
        ensures
            p == if 0 < den && num <= den {
                Some(Probability { num, den })
            } else {
                None
            },
    {
        if 0 < den && num <= den {
            Some(Probability { num, den })
        } else {
            None
        }
    }

    /// The probability zero.
    pub fn zero() -> (p: Probability)
        ensures
            p == (Probability { num: 0, den: 1 }),
    {
        Probability { num: 0, den: 1 }
    }

    /// Whether the event cannot happen.
    pub fn is_zero(&self) -> (b: bool)
        ensures
            b == (self.num == 0),
    {
        self.num == 0
    }

    /// Whether the event is certain.
    pub fn is_certain(&self) -> (b: bool)
        ensures
            b == (self.num == self.den),
    {
        self.num == self.den
    }
}

/// What is known of one cell.
#[derive(Clone, Copy, Debug, PartialEq, Eq, Structural)]
pub enum Cell {
    /// Revealed and free of a bomb; the bucket tells how many bombs touch it.
    Clue(Bucket),
    /// Revealed or declared to hold a bomb.
    Bomb,
    /// Not revealed; carries the current estimate that it holds a bomb.
    Hidden(Probability),
    /// Not revealed, but every placement that agrees with the clues puts a
    /// bomb here.
    Suspect,
}

impl Default for Cell {
    /// A cell of the standard field before anything is revealed: hidden,
    /// and as likely as any of the thirty cells to hold one of the eight
    /// bombs.
    fn default() -> (cell: Cell)
        ensures
            cell == Cell::Hidden(Probability { num: 8, den: 30 }),
    {
        Cell::Hidden(Probability { num: 8, den: 30 })
    }
}

impl Cell {
    /// Two cell values describe the same thing when both are unrevealed, or
    /// both are bombs, or both are clues of one bucket. The estimate a hidden
    /// cell carries plays no part.
    pub open spec fn same_kind(self, other: Cell) -> bool {
        match (self, other) {
            (Cell::Clue(a), Cell::Clue(b)) => a == b,
            (Cell::Bomb, Cell::Bomb) => true,
            (Cell::Clue(_), _) | (Cell::Bomb, _) => false,
            (_, Cell::Clue(_)) | (_, Cell::Bomb) => false,
            _ => true,
        }
    }

    /// The cell with what the player has not said taken away: a clue or a
    /// marked bomb stays, anything else is a hidden cell with no estimate.
    pub open spec fn blank(self) -> Cell {
        match self {
            Cell::Clue(bucket) => Cell::Clue(bucket),
            Cell::Bomb => Cell::Bomb,
            _ => Cell::Hidden(Probability { num: 0, den: 1 }),
        }
    }

    /// The cell with what the player has not said taken away.
    pub fn blanked(&self) -> (cell: Cell)
        ensures
            cell == self.blank(),
    {
        match self {
            Cell::Clue(bucket) => Cell::Clue(*bucket),
            Cell::Bomb => Cell::Bomb,
            _ => Cell::Hidden(Probability::zero()),
        }
    }

    /// Whether writing `other` over this cell would tell nothing new.
    pub fn is_same_kind(&self, other: &Cell) -> (b: bool)
        ensures
            b == self.same_kind(*other),
    {
        match (self, other) {
            (Cell::Clue(a), Cell::Clue(b)) => *a == *b,
            (Cell::Bomb, Cell::Bomb) => true,
            (Cell::Clue(_), _) | (Cell::Bomb, _) => false,
            (_, Cell::Clue(_)) | (_, Cell::Bomb) => false,
            _ => true,
        }
    }
}

} // verus!
