//! The commands a player can type, one per line.

use crate::cell::{Bucket, Cell, Probability};
use vstd::prelude::*;

verus! {

/// What a line of input asks for.
#[derive(Clone, Copy, Debug, PartialEq, Eq, Structural)]
pub enum Command {
    /// Leave the game.
    Quit,
    /// Start over with a fresh field.
    NewGame,
    /// Tell what was found in a cell.
    Mark { row: i32, column: i32, value: Cell },
    /// Not a command: the line is passed over.
    Nothing,
}

/// The value of a decimal digit, or `None` for any other character.
pub open spec fn digit_of(c: char) -> Option<i32> {
    if '0' <= c <= '9' {
        Some((c as u32 - '0' as u32) as i32)
    } else {
        None
    }
}

/// The cell value a symbol stands for. Symbols that stand for nothing
/// clear the cell.
pub open spec fn symbol_of(c: char) -> Cell {
    if c == 'G' || c == 'g' {
        Cell::Clue(Bucket::Green)
    } else if c == 'B' || c == 'b' {
        Cell::Clue(Bucket::Blue)
    } else if c == 'R' || c == 'r' {
        Cell::Clue(Bucket::Red)
    } else if c == 'S' || c == 's' {
        Cell::Clue(Bucket::Silver)
    } else if c == '!' {
        Cell::Clue(Bucket::Gold)
    } else if c == '*' {
        Cell::Bomb
    } else {
        Cell::Hidden(Probability { num: 0, den: 1 })
    }
}

/// What a line asks for. A line that starts with `q` quits and one that
/// starts with `n` starts a new game, in either case of the letter. Any
/// other line must start with the digit of a row, the digit of a column
/// and a symbol; what follows them is not looked at.
pub open spec fn command_of(line: Seq<char>) -> Command {
    if line.len() == 0 {
        Command::Nothing
    } else if line[0] == 'q' || line[0] == 'Q' {
        Command::Quit
    } else if line[0] == 'n' || line[0] == 'N' {
        Command::NewGame
    } else if line.len() < 3 {
        Command::Nothing
    } else {
        match (digit_of(line[0]), digit_of(line[1])) {
            (Some(row), Some(column)) => Command::Mark { row, column, value: symbol_of(line[2]) },
            _ => Command::Nothing,
        }
    }
}

/// The value of a decimal digit, or `None` for any other character.
pub fn parse_digit(c: char) -> (digit: Option<i32>)
    ensures
        digit == digit_of(c),
        digit matches Some(d) ==> 0 <= d <= 9,
{
    if '0' <= c && c <= '9' {
        Some((c as u32 - '0' as u32) as i32)
    } else {
        None
    }
}

/// The cell value a symbol stands for.
pub fn parse_symbol(c: char) -> (value: Cell)
    ensures
        value == symbol_of(c),
{
    if c == 'G' || c == 'g' {
        Cell::Clue(Bucket::Green)
    } else if c == 'B' || c == 'b' {
        Cell::Clue(Bucket::Blue)
    } else if c == 'R' || c == 'r' {
        Cell::Clue(Bucket::Red)
    } else if c == 'S' || c == 's' {
        Cell::Clue(Bucket::Silver)
    } else if c == '!' {
        Cell::Clue(Bucket::Gold)
    } else if c == '*' {
        Cell::Bomb
    } else {
        Cell::Hidden(Probability::zero())
    }
}

/// Reads one line of input, given as its characters without the
/// surrounding white space.
pub fn parse_command(line: &Vec<char>) -> (command: Command)
    ensures
        command == command_of(line@),
{
    if line.len() == 0 {
        return Command::Nothing;
    }
    let first = line[0];
    if first == 'q' || first == 'Q' {
        return Command::Quit;
    }
    if first == 'n' || first == 'N' {
        return Command::NewGame;
    }
    if line.len() < 3 {
        return Command::Nothing;
    }
    let row = match parse_digit(first) {
        Some(d) => d,
        None => {
            return Command::Nothing;
        },
    };
    let column = match parse_digit(line[1]) {
        Some(d) => d,
        None => {
            return Command::Nothing;
        },
    };
    Command::Mark { row, column, value: parse_symbol(line[2]) }
}

} // verus!
