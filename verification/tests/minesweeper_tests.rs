use grid_games::minesweeper::{CellState, Minesweeper, OpenResult};

#[test]
fn minesweeper_test() {
    let mut ms = Minesweeper::new(10, 10, 5).unwrap();
    ms.open((5, 5));
    ms.toggle_flag((6, 6));
    ms.open((6, 6));

    println!("{:?}", ms);
}

#[test]
fn construction_counts_and_rejects() {
    // A random board always carries exactly the asked number of mines.
    let ms = Minesweeper::new(8, 8, 10).unwrap();
    let mut mines = 0;
    let mut lost = Minesweeper::new(8, 8, 10).unwrap();
    for y in 0..8 {
        for x in 0..8 {
            // Opening everything on a copy reveals every mine cell state.
            lost.open((x, y));
        }
    }
    for y in 0..8 {
        for x in 0..8 {
            if lost.cell_state((x, y)) == CellState::Mine {
                mines += 1;
            }
        }
    }
    assert_eq!(mines, 10);
    assert_eq!(ms.width(), 8);
    assert_eq!(ms.height(), 8);
    // Asking for as many mines as cells cannot terminate placement.
    assert!(Minesweeper::new(4, 4, 16).is_err());
    assert!(Minesweeper::new(0, 5, 0).is_err());
    // Duplicate or out-of-range forced mines are rejected.
    assert!(Minesweeper::from_mines(3, 3, vec![(1, 1), (1, 1)]).is_err());
    assert!(Minesweeper::from_mines(3, 3, vec![(3, 0)]).is_err());
}

#[test]
fn neighbor_counts_by_position() {
    let ms = Minesweeper::from_mines(3, 3, vec![(1, 1)]).unwrap();
    assert_eq!(ms.iter_neighbors((0, 0)).len(), 3);
    assert_eq!(ms.iter_neighbors((1, 0)).len(), 5);
    assert_eq!(ms.iter_neighbors((1, 1)).len(), 8);
    assert_eq!(ms.neighboring_mines((0, 0)), 1);
    assert_eq!(ms.neighboring_mines((1, 1)), 0);
    for p in ms.iter_neighbors((0, 0)) {
        assert!(p != (0, 0));
        assert!(p.0 < 3 && p.1 < 3);
    }
}

#[test]
fn one_row_flood_and_win() {
    // A 1x3 board with its single mine on the right end.
    let mut ms = Minesweeper::from_mines(3, 1, vec![(2, 0)]).unwrap();
    assert_eq!(ms.open((0, 0)), OpenResult::NoMine(0));
    // The zero cell flood-opened its neighbor, which borders the mine...
    assert_eq!(ms.cell_state((1, 0)), CellState::Opened(1));
    // ...but the mine itself stays concealed.
    assert_eq!(ms.cell_state((2, 0)), CellState::Concealed);
    assert!(!ms.is_lost());
    // Every safe cell is open, so the game is won.
    assert!(ms.is_won());
}

#[test]
fn losing_freezes_the_board() {
    let mut ms = Minesweeper::from_mines(2, 1, vec![(1, 0)]).unwrap();
    assert_eq!(ms.open((1, 0)), OpenResult::Mine);
    assert!(ms.is_lost());
    // A lost board shows its mines.
    assert_eq!(ms.cell_state((1, 0)), CellState::Mine);
    // No further call changes anything.
    assert_eq!(ms.open((0, 0)), OpenResult::NoEffect);
    assert!(!ms.toggle_flag((0, 0)));
    assert_eq!(ms.cell_state((0, 0)), CellState::Concealed);
    assert!(!ms.is_won());
}

#[test]
fn flags_block_opening() {
    let mut ms = Minesweeper::from_mines(2, 1, vec![(1, 0)]).unwrap();
    assert!(ms.toggle_flag((0, 0)));
    assert_eq!(ms.cell_state((0, 0)), CellState::Flagged);
    // A flagged cell cannot be opened...
    assert_eq!(ms.open((0, 0)), OpenResult::NoEffect);
    // ...until it is unflagged.
    assert!(ms.toggle_flag((0, 0)));
    assert_eq!(ms.open((0, 0)), OpenResult::NoMine(1));
    // An open cell cannot be flagged.
    assert!(!ms.toggle_flag((0, 0)));
    assert_eq!(ms.cell_state((0, 0)), CellState::Opened(1));
    // Out-of-range coordinates are a no-op.
    assert!(!ms.toggle_flag((5, 5)));
    assert_eq!(ms.open((5, 5)), OpenResult::NoEffect);
}

#[test]
fn chording_opens_the_rest() {
    // 2x2 with one mine; the opposite corner counts one neighbor mine.
    let mut ms = Minesweeper::from_mines(2, 2, vec![(0, 0)]).unwrap();
    assert_eq!(ms.open((1, 1)), OpenResult::NoMine(1));
    // With no flag placed the chord is unsatisfied and changes nothing.
    assert_eq!(ms.open((1, 1)), OpenResult::NoEffect);
    assert_eq!(ms.cell_state((1, 0)), CellState::Concealed);
    // Flag the mine, chord again: the two safe neighbors open.
    assert!(ms.toggle_flag((0, 0)));
    assert_eq!(ms.open((1, 1)), OpenResult::Chorded);
    assert_eq!(ms.cell_state((1, 0)), CellState::Opened(1));
    assert_eq!(ms.cell_state((0, 1)), CellState::Opened(1));
    assert!(ms.is_won());
    assert!(!ms.is_lost());
}

#[test]
fn chording_a_wrong_flag_loses() {
    // 2x2, mine in a corner; flag the wrong neighbor and chord.
    let mut ms = Minesweeper::from_mines(2, 2, vec![(0, 0)]).unwrap();
    assert_eq!(ms.open((1, 1)), OpenResult::NoMine(1));
    assert!(ms.toggle_flag((1, 0)));
    assert_eq!(ms.open((1, 1)), OpenResult::Chorded);
    assert!(ms.is_lost());
    assert_eq!(ms.cell_state((0, 0)), CellState::Mine);
}
