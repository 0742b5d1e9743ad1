use thrill_digger::command::{parse_digit, parse_symbol};
use thrill_digger::{parse_command, Bucket, Cell, Command, Field, Probability};

fn parse(line: &str) -> Command {
    let chars: Vec<char> = line.chars().collect();
    parse_command(&chars)
}

fn blank() -> Cell {
    Cell::Hidden(Probability { num: 0, den: 1 })
}

#[test]
fn session_commands() {
    assert_eq!(parse("q"), Command::Quit);
    assert_eq!(parse("Q"), Command::Quit);
    assert_eq!(parse("quit now"), Command::Quit);
    assert_eq!(parse("n"), Command::NewGame);
    assert_eq!(parse("New"), Command::NewGame);
    assert_eq!(parse(""), Command::Nothing);
}

#[test]
fn cell_commands() {
    assert_eq!(
        parse("12G"),
        Command::Mark { row: 1, column: 2, value: Cell::Clue(Bucket::Green) }
    );
    assert_eq!(
        parse("00g"),
        Command::Mark { row: 0, column: 0, value: Cell::Clue(Bucket::Green) }
    );
    assert_eq!(parse("45b"), Command::Mark { row: 4, column: 5, value: Cell::Clue(Bucket::Blue) });
    assert_eq!(parse("45B"), Command::Mark { row: 4, column: 5, value: Cell::Clue(Bucket::Blue) });
    assert_eq!(parse("31R"), Command::Mark { row: 3, column: 1, value: Cell::Clue(Bucket::Red) });
    assert_eq!(parse("31r"), Command::Mark { row: 3, column: 1, value: Cell::Clue(Bucket::Red) });
    assert_eq!(
        parse("20s"),
        Command::Mark { row: 2, column: 0, value: Cell::Clue(Bucket::Silver) }
    );
    assert_eq!(
        parse("20S"),
        Command::Mark { row: 2, column: 0, value: Cell::Clue(Bucket::Silver) }
    );
    assert_eq!(parse("99!"), Command::Mark { row: 9, column: 9, value: Cell::Clue(Bucket::Gold) });
    assert_eq!(parse("03*"), Command::Mark { row: 0, column: 3, value: Cell::Bomb });
    // what follows the symbol is not looked at
    assert_eq!(parse("03* and more"), Command::Mark { row: 0, column: 3, value: Cell::Bomb });
}

#[test]
fn unknown_symbols_clear_the_cell() {
    assert_eq!(parse("12?"), Command::Mark { row: 1, column: 2, value: blank() });
    assert_eq!(parse("12 "), Command::Mark { row: 1, column: 2, value: blank() });
    assert_eq!(parse("123"), Command::Mark { row: 1, column: 2, value: blank() });
    assert_eq!(parse_symbol('x'), blank());
    assert_eq!(parse_symbol('*'), Cell::Bomb);
}

#[test]
fn malformed_lines_are_passed_over() {
    assert_eq!(parse("1"), Command::Nothing);
    assert_eq!(parse("12"), Command::Nothing);
    assert_eq!(parse("a2G"), Command::Nothing);
    assert_eq!(parse("1bG"), Command::Nothing);
    assert_eq!(parse("-1G"), Command::Nothing);
    assert_eq!(parse("+1G"), Command::Nothing);
    assert_eq!(parse(" 12G"), Command::Nothing);
    assert_eq!(parse("G12"), Command::Nothing);
}

#[test]
fn digits() {
    assert_eq!(parse_digit('0'), Some(0));
    assert_eq!(parse_digit('7'), Some(7));
    assert_eq!(parse_digit('9'), Some(9));
    assert_eq!(parse_digit('/'), None);
    assert_eq!(parse_digit(':'), None);
    assert_eq!(parse_digit('a'), None);
    assert_eq!(parse_digit('٣'), None);
}

#[test]
fn a_command_reaches_the_field() {
    let mut field = Field::new();
    if let Command::Mark { row, column, value } = parse("41g") {
        assert_eq!(field.set_cell(column, row, value), Ok(()));
    } else {
        panic!("not a cell command");
    }
    assert_eq!(field.get(1, 4), Some(Cell::Clue(Bucket::Green)));
    assert_eq!(field.grid().cell_at(4 * 6 + 1), Cell::Clue(Bucket::Green));
}

#[test]
fn lowest_estimate() {
    let mut field = Field::new();
    assert_eq!(field.lowest(), Some(Probability { num: 8 * 5852925, den: 30 * 5852925 }));
    assert_eq!(field.set_cell(0, 0, Cell::Clue(Bucket::Green)), Ok(()));
    let least = field.lowest().unwrap();
    assert_eq!(least.num, 0);
    assert_eq!(least.den, field.denominator());
    assert_eq!(field.get(1, 1), Some(Cell::Hidden(least)));
    let full = Field::with_config(2, 2, 4).unwrap();
    assert_eq!(full.lowest(), None);
}

#[test]
fn default_cell() {
    assert_eq!(Cell::default(), Cell::Hidden(Probability { num: 8, den: 30 }));
    // the same estimate as in a fresh field, over another denominator
    match Field::new().get(3, 3) {
        Some(Cell::Hidden(p)) => assert_eq!(p.num * 30, p.den * 8),
        other => panic!("no estimate: {:?}", other),
    }
}
