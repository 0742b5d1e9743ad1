use thrill_digger::{Bucket, Cell, Field, Probability};

fn agrees_with_reference(field: &Field) {
    let grid = field.grid();
    // what the player has revealed, without what was deduced from it
    let revealed = (0..grid.size()).map(|pos| grid.cell_at(pos).blanked()).collect();
    let reference = grid.with_cells(revealed).reference_tally();
    assert!(reference.total > 0);
    // taking the suspects for bombs leaves the same placements
    let deduced = grid.reference_tally();
    assert_eq!(deduced.total, reference.total);
    assert_eq!(deduced.counts, reference.counts);
    for pos in 0..grid.size() {
        let (x, y) = grid.coordinates_of(pos);
        match field.get(x, y) {
            Some(Cell::Hidden(p)) => {
                assert_eq!(p.num * reference.total, p.den * reference.counts[pos]);
                let canonical = p.num as f64 / p.den as f64;
                let brute = reference.counts[pos] as f64 / reference.total as f64;
                assert!((canonical - brute).abs() < 1e-9);
            }
            Some(Cell::Suspect) | Some(Cell::Bomb) => {
                assert_eq!(reference.counts[pos], reference.total);
            }
            Some(Cell::Clue(_)) => assert_eq!(reference.counts[pos], 0),
            None => panic!("cell {} is missing", pos),
        }
    }
}

#[test]
fn census_agrees_with_reference_on_three_by_three() {
    let mut field = Field::with_config(3, 3, 1).unwrap();
    agrees_with_reference(&field);
    assert_eq!(field.grid().reference_tally().total, 9);
    assert_eq!(field.set_cell(0, 0, Cell::Clue(Bucket::Green)), Ok(()));
    agrees_with_reference(&field);
    assert_eq!(field.grid().reference_tally().total, 5);
    match field.get(2, 2) {
        Some(Cell::Hidden(p)) => assert_eq!(p.num * 5, p.den),
        other => panic!("no estimate: {:?}", other),
    }
    assert_eq!(field.set_cell(2, 2, Cell::Clue(Bucket::Blue)), Ok(()));
    agrees_with_reference(&field);
    assert_eq!(field.grid().reference_tally().total, 2);
    assert_eq!(field.set_cell(0, 0, Cell::Hidden(Probability { num: 0, den: 1 })), Ok(()));
    agrees_with_reference(&field);
    assert_eq!(field.set_cell(1, 2, Cell::Bomb), Ok(()));
    agrees_with_reference(&field);
}

#[test]
fn census_agrees_with_reference_with_more_bombs() {
    let mut field = Field::with_config(4, 3, 3).unwrap();
    agrees_with_reference(&field);
    assert_eq!(field.grid().reference_tally().total, 220);
    let moves = [
        (1, 1, Cell::Clue(Bucket::Blue)),
        (3, 0, Cell::Bomb),
        (3, 2, Cell::Clue(Bucket::Green)),
        (0, 1, Cell::Clue(Bucket::Blue)),
    ];
    for (x, y, value) in moves {
        assert_eq!(field.set_cell(x, y, value), Ok(()));
        agrees_with_reference(&field);
    }
}

#[test]
fn reference_counts_add_up_to_the_bombs() {
    let mut field = Field::with_config(3, 3, 2).unwrap();
    assert_eq!(field.set_cell(1, 1, Cell::Clue(Bucket::Blue)), Ok(()));
    let reference = field.grid().reference_tally();
    // every pair of cells around the centre has one or two bombs beside it
    assert_eq!(reference.total, 28);
    assert_eq!(reference.mass, 2 * 28);
    assert_eq!(reference.counts.iter().sum::<u128>(), reference.mass);
    assert_eq!(reference.counts[4], 0);
    assert_eq!(reference.counts[0], 7);
}
