use thrill_digger::{Bucket, Cell, Field, Probability, SolveError};

fn chance(field: &Field, x: i32, y: i32) -> f64 {
    match field.get(x, y) {
        Some(Cell::Hidden(p)) => p.num as f64 / p.den as f64,
        Some(Cell::Suspect) | Some(Cell::Bomb) => 1.0,
        other => panic!("no estimate for {:?}", other),
    }
}

fn hidden_sum(field: &Field) -> f64 {
    let mut sum = 0.0;
    for y in 0..field.grid().height() as i32 {
        for x in 0..field.grid().width() as i32 {
            if let Some(Cell::Hidden(p)) = field.get(x, y) {
                sum += p.num as f64 / p.den as f64;
            }
        }
    }
    sum
}

fn snapshot(field: &Field) -> Vec<Option<Cell>> {
    let mut cells = Vec::new();
    for y in 0..field.grid().height() as i32 {
        for x in 0..field.grid().width() as i32 {
            cells.push(field.get(x, y));
        }
    }
    cells
}

#[test]
fn fresh_field_is_uniform() {
    let field = Field::new();
    for y in 0..5 {
        for x in 0..6 {
            assert!((chance(&field, x, y) - 8.0 / 30.0).abs() < 1e-12);
            // 8/30 over the common denominator 30 * C(30, 8)
            assert_eq!(
                field.get(x, y),
                Some(Cell::Hidden(Probability { num: 8 * 5852925, den: 30 * 5852925 }))
            );
        }
    }
    assert_eq!(field.denominator(), 30 * 5852925);
    assert_eq!(field.bombs_remain(true), 8);
    assert_eq!(field.bombs_remain(false), 8);
    assert!((hidden_sum(&field) - 8.0).abs() < 1e-4);
}

#[test]
fn green_corner_clears_its_neighbours() {
    let mut field = Field::new();
    assert_eq!(field.set_cell(0, 0, Cell::Clue(Bucket::Green)), Ok(()));
    assert_eq!(field.get(0, 0), Some(Cell::Clue(Bucket::Green)));
    for (x, y) in [(1, 0), (0, 1), (1, 1)] {
        assert_eq!(chance(&field, x, y), 0.0);
    }
    let mut untouched = 0;
    for y in 0..5 {
        for x in 0..6 {
            if x > 1 || y > 1 {
                untouched += 1;
                assert!((chance(&field, x, y) - 8.0 / 26.0).abs() < 1e-12);
                // 8/26 over the common denominator 26 * C(26, 8)
                assert_eq!(
                    field.get(x, y),
                    Some(Cell::Hidden(Probability { num: 8 * 1562275, den: 26 * 1562275 }))
                );
            }
        }
    }
    assert_eq!(untouched, 26);
    assert!((hidden_sum(&field) - 8.0).abs() < 1e-4);
}

#[test]
fn bomb_beside_green_is_refused() {
    let mut field = Field::new();
    assert_eq!(field.set_cell(0, 0, Cell::Clue(Bucket::Green)), Ok(()));
    let before = snapshot(&field);
    let scale = field.denominator();
    assert_eq!(field.set_cell(1, 1, Cell::Bomb), Err(SolveError::Unsatisfiable));
    let after = snapshot(&field);
    assert_eq!(before, after);
    assert_eq!(field.denominator(), scale);
    for cell in after {
        if let Some(Cell::Hidden(p)) = cell {
            assert!(p.den > 0);
            assert!(p.num <= p.den);
            assert!(!(p.num as f64 / p.den as f64).is_nan());
        }
    }
}

#[test]
fn coordinates_outside_the_grid_are_refused() {
    let mut field = Field::new();
    let before = snapshot(&field);
    assert_eq!(field.set_cell(-1, 0, Cell::Bomb), Err(SolveError::OutOfBounds));
    assert_eq!(field.set_cell(0, -1, Cell::Bomb), Err(SolveError::OutOfBounds));
    assert_eq!(field.set_cell(6, 0, Cell::Bomb), Err(SolveError::OutOfBounds));
    assert_eq!(field.set_cell(0, 5, Cell::Bomb), Err(SolveError::OutOfBounds));
    assert_eq!(field.set_cell(i32::MAX, i32::MIN, Cell::Bomb), Err(SolveError::OutOfBounds));
    assert_eq!(snapshot(&field), before);
    assert_eq!(field.get(6, 0), None);
    assert_eq!(field.get(-1, 2), None);
    assert!(field.get(5, 4).is_some());
}

#[test]
fn writing_the_same_value_changes_nothing() {
    let mut field = Field::new();
    assert_eq!(field.set_cell(2, 2, Cell::Clue(Bucket::Blue)), Ok(()));
    assert_eq!(field.set_cell(4, 1, Cell::Bomb), Ok(()));
    let before = snapshot(&field);
    let scale = field.denominator();
    assert_eq!(field.set_cell(2, 2, Cell::Clue(Bucket::Blue)), Ok(()));
    assert_eq!(field.set_cell(4, 1, Cell::Bomb), Ok(()));
    // a hidden value over a hidden cell, whatever estimate it carries
    assert_eq!(field.set_cell(0, 0, Cell::Hidden(Probability { num: 1, den: 2 })), Ok(()));
    assert_eq!(field.set_cell(5, 4, Cell::Suspect), Ok(()));
    assert_eq!(snapshot(&field), before);
    assert_eq!(field.denominator(), scale);
}

#[test]
fn marked_bomb_lowers_the_rest() {
    let mut field = Field::new();
    assert_eq!(field.set_cell(3, 3, Cell::Bomb), Ok(()));
    assert_eq!(field.get(3, 3), Some(Cell::Bomb));
    for y in 0..5 {
        for x in 0..6 {
            if (x, y) != (3, 3) {
                assert!((chance(&field, x, y) - 7.0 / 29.0).abs() < 1e-12);
            }
        }
    }
    assert_eq!(field.bombs_remain(false), 7);
    assert!((hidden_sum(&field) - 7.0).abs() < 1e-4);
}

#[test]
fn certain_bomb_becomes_suspect_and_reverts() {
    // three cells in a row, one bomb
    let mut field = Field::with_config(3, 1, 1).unwrap();
    assert_eq!(field.get(1, 0), Some(Cell::Hidden(Probability { num: 3, den: 9 })));
    // one or two bombs touch the left cell: the bomb is in the middle
    assert_eq!(field.set_cell(0, 0, Cell::Clue(Bucket::Blue)), Ok(()));
    assert_eq!(field.get(1, 0), Some(Cell::Suspect));
    assert_eq!(chance(&field, 2, 0), 0.0);
    assert_eq!(field.bombs_remain(true), 0);
    assert_eq!(field.bombs_remain(false), 1);
    // the clue is taken back: nothing is certain any more
    assert_eq!(field.set_cell(0, 0, Cell::Hidden(Probability { num: 0, den: 1 })), Ok(()));
    let fresh = Field::with_config(3, 1, 1).unwrap();
    for x in 0..3 {
        assert_eq!(field.get(x, 0), Some(Cell::Hidden(Probability { num: 3, den: 9 })));
        assert_eq!(field.get(x, 0), fresh.get(x, 0));
    }
    assert_eq!(field.bombs_remain(true), 1);
    // the clue is overwritten: the certainty moves to the right cell
    assert_eq!(field.set_cell(0, 0, Cell::Clue(Bucket::Blue)), Ok(()));
    assert_eq!(field.get(1, 0), Some(Cell::Suspect));
    assert_eq!(field.set_cell(0, 0, Cell::Clue(Bucket::Green)), Ok(()));
    assert_eq!(chance(&field, 1, 0), 0.0);
    assert!(matches!(field.get(1, 0), Some(Cell::Hidden(_))));
    assert_eq!(field.get(2, 0), Some(Cell::Suspect));
}

#[test]
fn revealing_a_suspect_as_a_clue_is_refused() {
    let mut field = Field::with_config(3, 1, 1).unwrap();
    assert_eq!(field.set_cell(0, 0, Cell::Clue(Bucket::Blue)), Ok(()));
    assert_eq!(field.get(1, 0), Some(Cell::Suspect));
    let before = snapshot(&field);
    assert_eq!(field.set_cell(1, 0, Cell::Clue(Bucket::Green)), Err(SolveError::Unsatisfiable));
    assert_eq!(snapshot(&field), before);
    // declaring it a bomb agrees with everything
    assert_eq!(field.set_cell(1, 0, Cell::Bomb), Ok(()));
    assert_eq!(field.get(1, 0), Some(Cell::Bomb));
    assert_eq!(chance(&field, 2, 0), 0.0);
}

#[test]
fn all_bombs_found_leaves_zero_everywhere() {
    let mut field = Field::with_config(3, 3, 2).unwrap();
    assert_eq!(field.set_cell(0, 0, Cell::Bomb), Ok(()));
    assert_eq!(field.set_cell(2, 2, Cell::Bomb), Ok(()));
    assert_eq!(field.bombs_remain(true), 0);
    for y in 0..3 {
        for x in 0..3 {
            if let Some(Cell::Hidden(p)) = field.get(x, y) {
                assert_eq!(p.num, 0);
                assert!(p.den > 0);
            }
        }
    }
    // one bomb too many
    assert_eq!(field.set_cell(1, 1, Cell::Bomb), Err(SolveError::Unsatisfiable));
}

#[test]
fn estimates_add_up_after_every_move() {
    let mut field = Field::new();
    let moves = [
        (0, 0, Cell::Clue(Bucket::Green)),
        (2, 0, Cell::Clue(Bucket::Blue)),
        (5, 4, Cell::Bomb),
        (3, 2, Cell::Clue(Bucket::Blue)),
        (2, 0, Cell::Hidden(Probability { num: 0, den: 1 })),
        (0, 4, Cell::Clue(Bucket::Green)),
    ];
    for (x, y, value) in moves {
        assert_eq!(field.set_cell(x, y, value), Ok(()));
        let confirmed = 8 - field.bombs_remain(true);
        assert!((hidden_sum(&field) - (8 - confirmed) as f64).abs() < 1e-4);
        let scale = field.denominator();
        let mut numerators: u128 = 0;
        for cell in snapshot(&field) {
            if let Some(Cell::Hidden(p)) = cell {
                assert_eq!(p.den, scale);
                assert!(p.num < p.den);
                numerators += p.num;
            }
        }
        assert_eq!(numerators, (8 - confirmed) as u128 * scale);
    }
}

#[test]
fn field_shapes_are_checked() {
    assert!(Field::with_config(0, 5, 0).is_none());
    assert!(Field::with_config(5, 0, 0).is_none());
    assert!(Field::with_config(9, 8, 3).is_none());
    assert!(Field::with_config(3, 3, 10).is_none());
    assert!(Field::with_config(8, 8, 10).is_some());
    let full = Field::with_config(2, 2, 4).unwrap();
    for y in 0..2 {
        for x in 0..2 {
            assert_eq!(full.get(x, y), Some(Cell::Suspect));
        }
    }
    let empty = Field::with_config(2, 2, 0).unwrap();
    assert_eq!(empty.get(1, 1), Some(Cell::Hidden(Probability { num: 0, den: 4 })));
}

#[test]
fn many_touched_cells() {
    let mut field = Field::new();
    for (x, y) in [(1, 1), (4, 1), (1, 3), (4, 3)] {
        assert_eq!(field.set_cell(x, y, Cell::Clue(Bucket::Blue)), Ok(()));
        assert!((hidden_sum(&field) - field.bombs_remain(true) as f64).abs() < 1e-4);
    }
    let part = field.grid().partition();
    assert_eq!(part.touched.len(), 26);
    assert_eq!(part.untouched.len(), 0);
    // by symmetry the four corners are equally likely
    assert_eq!(field.get(0, 0), field.get(5, 0));
    assert_eq!(field.get(0, 0), field.get(0, 4));
    assert_eq!(field.get(0, 0), field.get(5, 4));
}
