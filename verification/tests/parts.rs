use thrill_digger::binomial::binom;
use thrill_digger::grid::contains;
use thrill_digger::selection::subsets_of_size;
use thrill_digger::{Bucket, Cell, Grid, Probability, Tally};

fn blank() -> Cell {
    Cell::Hidden(Probability { num: 0, den: 1 })
}

#[test]
fn binomial_coefficients() {
    assert_eq!(binom(0, 0), 1);
    assert_eq!(binom(5, 0), 1);
    assert_eq!(binom(5, 5), 1);
    assert_eq!(binom(5, 2), 10);
    assert_eq!(binom(3, 5), 0);
    assert_eq!(binom(30, 8), 5852925);
    assert_eq!(binom(26, 8), 1562275);
    assert_eq!(binom(64, 32), 1832624140942590534);
    assert_eq!(binom(120, 60), 96614908840363322603893139521372656);
}

#[test]
fn buckets_by_count() {
    assert_eq!(Bucket::from_count(0), Some(Bucket::Green));
    assert_eq!(Bucket::from_count(1), Some(Bucket::Blue));
    assert_eq!(Bucket::from_count(2), Some(Bucket::Blue));
    assert_eq!(Bucket::from_count(3), Some(Bucket::Red));
    assert_eq!(Bucket::from_count(4), Some(Bucket::Red));
    assert_eq!(Bucket::from_count(5), Some(Bucket::Silver));
    assert_eq!(Bucket::from_count(6), Some(Bucket::Silver));
    assert_eq!(Bucket::from_count(7), Some(Bucket::Gold));
    assert_eq!(Bucket::from_count(8), Some(Bucket::Gold));
    assert_eq!(Bucket::from_count(9), None);
}

#[test]
fn probabilities_are_validated() {
    assert_eq!(Probability::new(1, 2), Some(Probability { num: 1, den: 2 }));
    assert_eq!(Probability::new(2, 2), Some(Probability { num: 2, den: 2 }));
    assert_eq!(Probability::new(3, 2), None);
    assert_eq!(Probability::new(0, 0), None);
    assert!(Probability::zero().is_zero());
    assert!(!Probability::zero().is_certain());
    assert!(Probability { num: 7, den: 7 }.is_certain());
}

#[test]
fn cells_of_one_kind() {
    let hidden = Cell::Hidden(Probability { num: 1, den: 3 });
    assert!(hidden.is_same_kind(&blank()));
    assert!(hidden.is_same_kind(&Cell::Suspect));
    assert!(Cell::Bomb.is_same_kind(&Cell::Bomb));
    assert!(!Cell::Bomb.is_same_kind(&Cell::Suspect));
    assert!(Cell::Clue(Bucket::Red).is_same_kind(&Cell::Clue(Bucket::Red)));
    assert!(!Cell::Clue(Bucket::Red).is_same_kind(&Cell::Clue(Bucket::Blue)));
    assert!(!Cell::Clue(Bucket::Red).is_same_kind(&hidden));
    assert_eq!(Cell::Suspect.blanked(), blank());
    assert_eq!(hidden.blanked(), blank());
    assert_eq!(Cell::Bomb.blanked(), Cell::Bomb);
    assert_eq!(Cell::Clue(Bucket::Gold).blanked(), Cell::Clue(Bucket::Gold));
}

#[test]
fn subsets_of_every_size() {
    let items = vec![1, 2, 3];
    assert_eq!(subsets_of_size(&items, 0), vec![Vec::<usize>::new()]);
    assert_eq!(subsets_of_size(&items, 2), vec![vec![1, 2], vec![1, 3], vec![2, 3]]);
    assert_eq!(subsets_of_size(&items, 3), vec![vec![1, 2, 3]]);
    assert_eq!(subsets_of_size(&items, 4), Vec::<Vec<usize>>::new());
    let five = vec![0, 2, 4, 6, 8];
    let triples = subsets_of_size(&five, 3);
    assert_eq!(triples.len(), 10);
    for triple in &triples {
        assert_eq!(triple.len(), 3);
        assert!(triple[0] < triple[1] && triple[1] < triple[2]);
        assert!(triple.iter().all(|x| five.contains(x)));
    }
    for pair in triples.windows(2) {
        assert!(pair[0] < pair[1]);
    }
    assert_eq!(triples[0], vec![0, 2, 4]);
    assert_eq!(triples[9], vec![4, 6, 8]);
    assert_eq!(subsets_of_size(&Vec::new(), 0), vec![Vec::<usize>::new()]);
    assert_eq!(subsets_of_size(&Vec::new(), 1), Vec::<Vec<usize>>::new());
}

#[test]
fn membership_in_a_list() {
    assert!(contains(&vec![3, 1, 4], 4));
    assert!(!contains(&vec![3, 1, 4], 2));
    assert!(!contains(&Vec::new(), 0));
}

#[test]
fn grid_access_is_bounds_checked() {
    let mut grid = Grid::new(6, 5, 8, blank()).unwrap();
    assert_eq!(grid.width(), 6);
    assert_eq!(grid.height(), 5);
    assert_eq!(grid.bombs(), 8);
    assert_eq!(grid.size(), 30);
    assert_eq!(grid.index_of(0, 0), Some(0));
    assert_eq!(grid.index_of(5, 4), Some(29));
    assert_eq!(grid.index_of(2, 3), Some(20));
    assert_eq!(grid.index_of(6, 0), None);
    assert_eq!(grid.index_of(0, 5), None);
    assert_eq!(grid.index_of(-1, 0), None);
    assert_eq!(grid.index_of(0, -1), None);
    assert_eq!(grid.coordinates_of(0), (0, 0));
    assert_eq!(grid.coordinates_of(20), (2, 3));
    assert_eq!(grid.coordinates_of(29), (5, 4));
    assert!(grid.set(2, 3, Cell::Bomb));
    assert_eq!(grid.get(2, 3), Some(Cell::Bomb));
    assert_eq!(grid.cell_at(20), Cell::Bomb);
    assert!(!grid.set(6, 3, Cell::Bomb));
    assert!(!grid.set(-1, 3, Cell::Bomb));
    assert!(!grid.set(2, 5, Cell::Bomb));
    assert_eq!(grid.get(6, 3), None);
    let mut bombs = 0;
    for pos in 0..30 {
        if grid.cell_at(pos) == Cell::Bomb {
            bombs += 1;
        }
    }
    assert_eq!(bombs, 1);
    grid.put(0, Cell::Clue(Bucket::Green));
    assert_eq!(grid.get(0, 0), Some(Cell::Clue(Bucket::Green)));
    assert!(Grid::new(0, 1, 0, blank()).is_none());
    assert!(Grid::new(65, 1, 0, blank()).is_none());
    assert!(Grid::new(64, 1, 65, blank()).is_none());
    assert!(Grid::new(64, 1, 64, blank()).is_some());
    assert!(Grid::new(usize::MAX, usize::MAX, 0, blank()).is_none());
}

#[test]
fn neighbours_stay_inside_the_grid() {
    let grid = Grid::new(6, 5, 8, blank()).unwrap();
    assert_eq!(grid.neighbors(0), vec![1, 6, 7]);
    assert_eq!(grid.neighbors(5), vec![4, 10, 11]);
    assert_eq!(grid.neighbors(29), vec![22, 23, 28]);
    assert_eq!(grid.neighbors(24), vec![18, 19, 25]);
    assert_eq!(grid.neighbors(3), vec![2, 4, 8, 9, 10]);
    assert_eq!(grid.neighbors(6), vec![0, 1, 7, 12, 13]);
    assert_eq!(grid.neighbors(14), vec![7, 8, 9, 13, 15, 19, 20, 21]);
    let line = Grid::new(1, 4, 0, blank()).unwrap();
    assert_eq!(line.neighbors(0), vec![1]);
    assert_eq!(line.neighbors(2), vec![1, 3]);
    let dot = Grid::new(1, 1, 0, blank()).unwrap();
    assert_eq!(dot.neighbors(0), Vec::<usize>::new());
}

#[test]
fn bombs_next_to_a_cell() {
    let grid = Grid::new(6, 5, 8, blank()).unwrap();
    let bombs = vec![0, 1, 7, 14, 29];
    assert_eq!(grid.bombs_nearby_pos(&bombs, 6), 3);
    assert_eq!(grid.bombs_nearby_pos(&bombs, 7), 3);
    assert_eq!(grid.bombs_nearby_pos(&bombs, 0), 2);
    assert_eq!(grid.bombs_nearby_pos(&bombs, 14), 1);
    assert_eq!(grid.bombs_nearby_pos(&bombs, 26), 0);
    assert_eq!(grid.bombs_nearby_pos(&Vec::new(), 14), 0);
    let all: Vec<usize> = (0..30).collect();
    assert_eq!(grid.bombs_nearby_pos(&all, 14), 8);
    assert_eq!(grid.bombs_nearby_pos(&all, 0), 3);
}

#[test]
fn placements_against_the_clues() {
    let mut grid = Grid::new(3, 3, 2, blank()).unwrap();
    assert!(grid.matches_preset(&vec![]));
    assert!(grid.matches_preset(&vec![0, 8]));
    grid.put(4, Cell::Clue(Bucket::Blue));
    assert!(!grid.matches_preset(&vec![]));
    assert!(grid.matches_preset(&vec![0]));
    assert!(grid.matches_preset(&vec![0, 8]));
    assert!(!grid.matches_preset(&vec![0, 1, 2]));
    // the clue does not count itself
    assert!(!grid.matches_preset(&vec![4]));
    assert!(grid.avoids_clues(&vec![0, 8]));
    assert!(!grid.avoids_clues(&vec![0, 4]));
    grid.put(0, Cell::Bomb);
    assert!(grid.matches_preset(&vec![0]));
    assert!(!grid.matches_preset(&vec![1]));
    grid.put(1, Cell::Suspect);
    assert!(!grid.matches_preset(&vec![0]));
    assert!(grid.matches_preset(&vec![1, 0]));
    grid.put(4, Cell::Clue(Bucket::Red));
    assert!(!grid.matches_preset(&vec![1, 0]));
    assert!(grid.matches_preset(&vec![0, 1, 8]));
    assert!(grid.matches_preset(&vec![0, 1, 2, 3]));
    assert!(!grid.matches_preset(&vec![0, 1, 2, 3, 5]));
}

#[test]
fn cells_sorted_by_what_is_known() {
    let mut grid = Grid::new(6, 5, 8, blank()).unwrap();
    let part = grid.partition();
    assert_eq!(part.confirmed, Vec::<usize>::new());
    assert_eq!(part.touched, Vec::<usize>::new());
    assert_eq!(part.untouched, (0..30).collect::<Vec<usize>>());
    grid.put(0, Cell::Clue(Bucket::Green));
    grid.put(7, Cell::Bomb);
    grid.put(29, Cell::Suspect);
    grid.put(14, Cell::Clue(Bucket::Blue));
    let part = grid.partition();
    assert_eq!(part.confirmed, vec![7, 29]);
    assert_eq!(part.touched, vec![1, 6, 8, 9, 13, 15, 19, 20, 21]);
    let mut rest: Vec<usize> = (0..30).collect();
    rest.retain(|pos| ![0, 7, 29, 14, 1, 6, 8, 9, 13, 15, 19, 20, 21].contains(pos));
    assert_eq!(part.untouched, rest);
    assert_eq!(part.confirmed.len() + part.touched.len() + part.untouched.len() + 2, 30);
    assert_eq!(grid.bombs_remain(false), 7);
    assert_eq!(grid.bombs_remain(true), 6);
}

#[test]
fn bombs_left_never_go_below_zero() {
    let mut grid = Grid::new(2, 2, 1, blank()).unwrap();
    grid.put(0, Cell::Bomb);
    grid.put(1, Cell::Bomb);
    assert_eq!(grid.bombs_remain(false), 0);
    assert_eq!(grid.bombs_remain(true), 0);
    assert!(grid.resolve().is_none());
}

#[test]
fn levels_and_their_sum() {
    let mut grid = Grid::new(6, 5, 8, blank()).unwrap();
    grid.put(0, Cell::Clue(Bucket::Blue));
    let part = grid.partition();
    assert_eq!(part.touched, vec![1, 6, 7]);
    let spare = part.untouched.len();
    assert_eq!(spare, 26);
    let none = grid.tally_level(&part.confirmed, &part.touched, spare, 8, 0);
    assert_eq!(none.total, 0);
    assert_eq!(none.mass, 0);
    let one = grid.tally_level(&part.confirmed, &part.touched, spare, 8, 1);
    assert_eq!(one.total, 3 * binom(26, 7));
    assert_eq!(one.mass, one.total);
    assert_eq!(one.counts[1], binom(26, 7));
    assert_eq!(one.counts[6], binom(26, 7));
    assert_eq!(one.counts[7], binom(26, 7));
    assert_eq!(one.counts[2], 0);
    let two = grid.tally_level(&part.confirmed, &part.touched, spare, 8, 2);
    assert_eq!(two.total, 3 * binom(26, 6));
    assert_eq!(two.mass, 2 * two.total);
    assert_eq!(two.counts[1], 2 * binom(26, 6));
    let three = grid.tally_level(&part.confirmed, &part.touched, spare, 8, 3);
    assert_eq!(three.total, 0);
    let beyond = grid.tally_level(&part.confirmed, &part.touched, spare, 8, 4);
    assert_eq!(beyond.total, 0);
    let sum = one.merge(&two).unwrap();
    let all = grid.enumerate(&part.confirmed, &part.touched, spare, 8);
    assert_eq!(all.total, sum.total);
    assert_eq!(all.mass, sum.mass);
    assert_eq!(all.counts, sum.counts);
    assert_eq!(all.total, 3 * binom(26, 7) + 3 * binom(26, 6));
    assert_eq!(all.counts.iter().sum::<u128>(), all.mass);
}

#[test]
fn tallies_merge_entry_by_entry() {
    let a = Tally { total: 3, mass: 4, counts: vec![1, 0, 3] };
    let b = Tally { total: 10, mass: 20, counts: vec![5, 15, 0] };
    let sum = a.merge(&b).unwrap();
    assert_eq!(sum.total, 13);
    assert_eq!(sum.mass, 24);
    assert_eq!(sum.counts, vec![6, 15, 3]);
    let again = b.merge(&a).unwrap();
    assert_eq!(again.counts, sum.counts);
    let zero = Tally::zero(3);
    assert_eq!(zero.counts, vec![0, 0, 0]);
    assert_eq!(a.merge(&zero).unwrap().counts, a.counts);
    assert!(a.merge(&Tally::zero(2)).is_none());
    let huge = Tally { total: u128::MAX, mass: 0, counts: vec![0, 0, 0] };
    assert!(a.merge(&huge).is_none());
    let heavy = Tally { total: 0, mass: u128::MAX, counts: vec![0, 0, 0] };
    assert!(a.merge(&heavy).is_none());
    let tall = Tally { total: 0, mass: 0, counts: vec![0, 0, u128::MAX] };
    assert!(a.merge(&tall).is_none());
}

#[test]
fn resolving_a_grid() {
    let mut grid = Grid::new(3, 1, 1, blank()).unwrap();
    let (fresh, scale) = grid.resolve().unwrap();
    assert_eq!(scale, 9);
    assert_eq!(fresh.cell_at(0), Cell::Hidden(Probability { num: 3, den: 9 }));
    grid.put(0, Cell::Clue(Bucket::Blue));
    let (solved, scale) = grid.resolve().unwrap();
    assert_eq!(scale, 1);
    assert_eq!(solved.cell_at(0), Cell::Clue(Bucket::Blue));
    assert_eq!(solved.cell_at(1), Cell::Suspect);
    assert_eq!(solved.cell_at(2), Cell::Hidden(Probability { num: 0, den: 1 }));
    grid.put(0, Cell::Clue(Bucket::Red));
    assert!(grid.resolve().is_none());
    let same = grid.with_cells(vec![blank(), Cell::Bomb, blank()]);
    assert_eq!(same.cell_at(1), Cell::Bomb);
    assert_eq!(same.width(), 3);
}
