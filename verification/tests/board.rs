use n_dimensional_minesweeper::board::Board;
use n_dimensional_minesweeper::cell::{Cell, CellKind, CellState};
use n_dimensional_minesweeper::coordinates::{to_coords, to_index};
use n_dimensional_minesweeper::sampling::draw_mines;
use n_dimensional_minesweeper::setup::{count_cells, BoardError};

fn mine_count(board: &Board) -> usize {
    board.cells.iter().filter(|c| c.kind == CellKind::Mine).count()
}

#[test]
fn test_calculate_adjacent_mines_2d() {
    let dimensions = vec![3, 3];

    // Place mines at (0,0) [index 0] and (2,2) [index 8]
    let mut board = Board::with_mines(dimensions, &vec![0, 8]).unwrap();
    assert_eq!(board.cells.len(), 9);
    assert_eq!(board.num_mines(), 2);

    board.calculate_adjacent_mines();

    // Check adjacent mine counts for a few cells
    // Cell (1,0) [index 1] should have 1 neighbor mine.
    if let CellKind::Empty { adjacent_mines } = board.cells[1].kind {
        assert_eq!(adjacent_mines, 1);
    } else {
        panic!("Cell (1,0) should be empty");
    }

    // Cell (0,1) [index 3] should have 1 neighbor mine.
    if let CellKind::Empty { adjacent_mines } = board.cells[3].kind {
        assert_eq!(adjacent_mines, 1);
    } else {
        panic!("Cell (0,1) should be empty");
    }

    // Cell (1,1) [index 4] should have 2 neighbor mines.
    if let CellKind::Empty { adjacent_mines } = board.cells[4].kind {
        assert_eq!(adjacent_mines, 2);
    } else {
        panic!("Cell (1,1) should be empty");
    }

    // Ensure mine cells are untouched
    assert_eq!(board.cells[0].kind, CellKind::Mine);
    assert_eq!(board.cells[8].kind, CellKind::Mine);
}

#[test]
fn test_toggle_flag() {
    let mut board = Board::new(vec![2, 2], 0);
    let coords = vec![0, 0];

    // Initially hidden
    assert_eq!(board.cells[0].state, CellState::Hidden);

    // Toggle to flagged
    board.toggle_flag(&coords);
    assert_eq!(board.cells[0].state, CellState::Flagged);

    // Toggle back to hidden
    board.toggle_flag(&coords);
    assert_eq!(board.cells[0].state, CellState::Hidden);
}

#[test]
fn test_reveal_mine() {
    let mut board = Board::new(vec![2, 2], 1);
    // Find the mine
    let mine_index = board.cells.iter().position(|c| c.kind == CellKind::Mine).unwrap();
    let mine_coords = to_coords(mine_index, board.dimensions());

    // Reveal the mine
    let is_mine = board.reveal_at(&mine_coords);
    assert!(is_mine);
    assert_eq!(board.cells[mine_index].state, CellState::Revealed);
}

#[test]
fn test_reveal_empty_cell() {
    let mut board = Board::new(vec![3, 3], 0);
    board.cells[0].kind = CellKind::Mine; // Place a mine at (0,0)
    board.calculate_adjacent_mines();
    let coords = vec![1, 1]; // A cell with 1 adjacent mine

    // Reveal the cell
    let is_mine = board.reveal_at(&coords);
    assert!(!is_mine);
    let index = to_index(&coords, board.dimensions());
    assert_eq!(board.cells[index].state, CellState::Revealed);
}

#[test]
fn test_flood_fill_reveal() {
    let mut board = Board::new(vec![3, 3], 0);
    board.cells[0].kind = CellKind::Mine; // Mine at (0,0)
    board.calculate_adjacent_mines();

    // Reveal a cell with 0 adjacent mines
    let coords = vec![2, 2];
    board.reveal_at(&coords);

    // All cells except the mine at (0,0) should be revealed.
    // The mine is at index 0. All others should be revealed.
    for (i, cell) in board.cells.iter().enumerate() {
        if i == 0 {
            // The mine should not be revealed
            assert_ne!(cell.state, CellState::Revealed);
        } else {
            // All other cells should be revealed
            assert_eq!(cell.state, CellState::Revealed, "Cell at index {} was not revealed", i);
        }
    }
}

#[test]
fn new_cell_is_hidden_and_empty() {
    let cell = Cell::new();
    assert_eq!(cell.state, CellState::Hidden);
    assert_eq!(cell.kind, CellKind::Empty { adjacent_mines: 0 });
}

#[test]
fn new_board_has_the_mines_asked_for() {
    for (dimensions, num_mines) in [
        (vec![4, 4], 5),
        (vec![4, 4], 0),
        (vec![4, 4], 16),
        (vec![7], 3),
        (vec![2, 3, 4], 11),
        (vec![1], 1),
        (vec![20, 20], 15),
        (vec![30, 30], 600),
    ] {
        let total: usize = dimensions.iter().product();
        let board = Board::new(dimensions.clone(), num_mines);
        assert_eq!(board.cells.len(), total);
        assert_eq!(mine_count(&board), num_mines);
        assert_eq!(board.num_mines(), num_mines);
        assert_eq!(board.dimensions(), &dimensions[..]);
        assert!(board.cells.iter().all(|c| c.state == CellState::Hidden));
    }
}

#[test]
fn new_board_counts_the_mines_around_each_cell() {
    let board = Board::new(vec![5, 4, 3], 20);
    let mut again = Board::new(vec![5, 4, 3], 0);
    for (i, cell) in board.cells.iter().enumerate() {
        again.cells[i].kind = match cell.kind {
            CellKind::Mine => CellKind::Mine,
            CellKind::Empty { .. } => CellKind::Empty { adjacent_mines: 0 },
        };
    }
    again.calculate_adjacent_mines();
    for (cell, other) in board.cells.iter().zip(again.cells.iter()) {
        assert_eq!(cell.kind, other.kind);
    }
}

#[test]
fn draw_mines_gives_distinct_cells() {
    let mines = draw_mines(10, 3);
    assert_eq!(mines.len(), 3);
    for (i, mine) in mines.iter().enumerate() {
        assert!(*mine < 10);
        assert!(!mines[i + 1..].contains(mine));
    }
    assert_eq!(draw_mines(6, 6), vec![0, 1, 2, 3, 4, 5]);
    assert!(draw_mines(6, 0).is_empty());
    let mut most = draw_mines(6, 5);
    most.sort();
    most.dedup();
    assert_eq!(most.len(), 5);
    assert!(most.iter().all(|mine| *mine < 6));
}

#[test]
fn with_mines_places_exactly_the_given_mines() {
    let board = Board::with_mines(vec![3, 3], &vec![8, 0]).unwrap();
    let kinds: Vec<CellKind> = board.cells.iter().map(|c| c.kind).collect();
    let empty = |n: usize| CellKind::Empty { adjacent_mines: n };
    assert_eq!(
        kinds,
        vec![
            CellKind::Mine,
            empty(1),
            empty(0),
            empty(1),
            empty(2),
            empty(1),
            empty(0),
            empty(1),
            CellKind::Mine
        ]
    );
    assert_eq!(board.num_mines(), 2);
    assert_eq!(board.cells(), &board.cells);
}

#[test]
fn counts_above_255_are_stored_in_full() {
    let center = 364;
    let mines: Vec<usize> = (0..729).filter(|i| *i != center).collect();
    let board = Board::with_mines(vec![3, 3, 3, 3, 3, 3], &mines).unwrap();
    assert_eq!(board.cells[center].kind, CellKind::Empty { adjacent_mines: 728 });
    let fewer: Vec<usize> = (0..254).collect();
    let board = Board::with_mines(vec![3, 3, 3, 3, 3, 3], &fewer).unwrap();
    assert_eq!(board.cells[center].kind, CellKind::Empty { adjacent_mines: 254 });
    let more: Vec<usize> = (0..364).collect();
    let board = Board::with_mines(vec![3, 3, 3, 3, 3, 3], &more).unwrap();
    assert_eq!(board.cells[center].kind, CellKind::Empty { adjacent_mines: 364 });
    let mut seven = Board::try_new(vec![3, 3, 3, 3, 3, 3, 3], 0).unwrap();
    let middle = 1093;
    for (i, cell) in seven.cells.iter_mut().enumerate() {
        if i != middle {
            cell.kind = CellKind::Mine;
        }
    }
    seven.calculate_adjacent_mines();
    assert_eq!(seven.cells[middle].kind, CellKind::Empty { adjacent_mines: 2186 });
    assert_eq!(seven.cells[0].kind, CellKind::Mine);
}

#[test]
fn count_cells_multiplies_the_extents() {
    assert_eq!(count_cells(&[3, 3]), Ok(9));
    assert_eq!(count_cells(&[2, 3, 4]), Ok(24));
    assert_eq!(count_cells(&[7]), Ok(7));
    assert_eq!(count_cells(&[]), Err(BoardError::EmptyShape));
    assert_eq!(count_cells(&[3, 0, 3]), Err(BoardError::ZeroExtent));
    assert_eq!(count_cells(&[usize::MAX, 2]), Err(BoardError::TooManyCells));
    assert_eq!(count_cells(&[usize::MAX, 2, 0]), Err(BoardError::ZeroExtent));
    assert_eq!(count_cells(&[usize::MAX, 1]), Ok(usize::MAX));
}

#[test]
fn bad_construction_is_rejected() {
    assert_eq!(Board::try_new(vec![], 0).err(), Some(BoardError::EmptyShape));
    assert_eq!(Board::try_new(vec![3, 0], 0).err(), Some(BoardError::ZeroExtent));
    assert_eq!(Board::try_new(vec![usize::MAX, 3], 0).err(), Some(BoardError::TooManyCells));
    assert_eq!(Board::try_new(vec![3, 3], 10).err(), Some(BoardError::TooManyMines));
    assert_eq!(Board::try_new(vec![0], 1).err(), Some(BoardError::ZeroExtent));
    let board = Board::try_new(vec![3, 3], 9).unwrap();
    assert_eq!(mine_count(&board), 9);
    assert_eq!(Board::with_mines(vec![], &vec![]).err(), Some(BoardError::EmptyShape));
    assert_eq!(Board::with_mines(vec![3, 0], &vec![0]).err(), Some(BoardError::ZeroExtent));
    assert_eq!(Board::with_mines(vec![3, 3], &vec![9]).err(), Some(BoardError::MineOutOfRange));
    assert_eq!(Board::with_mines(vec![3, 3], &vec![4, 4]).err(), Some(BoardError::DuplicateMine));
    assert_eq!(
        Board::with_mines(vec![3, 3], &vec![4, 4, 9]).err(),
        Some(BoardError::MineOutOfRange)
    );
}

#[test]
fn every_error_has_a_message() {
    let errors = [
        BoardError::EmptyShape,
        BoardError::ZeroExtent,
        BoardError::TooManyCells,
        BoardError::TooManyMines,
        BoardError::MineOutOfRange,
        BoardError::DuplicateMine,
    ];
    for (i, error) in errors.iter().enumerate() {
        assert!(!error.message().is_empty());
        for other in errors.iter().skip(i + 1) {
            assert_ne!(error.message(), other.message());
        }
    }
    assert_eq!(BoardError::TooManyMines.message(), "more mines than cells");
}

#[test]
fn toggle_flag_leaves_revealed_cells_alone() {
    let mut board = Board::with_mines(vec![3, 3], &vec![0]).unwrap();
    assert!(!board.reveal_at(&vec![1, 1]));
    let before = board.cells.clone();
    board.toggle_flag(&vec![1, 1]);
    assert_eq!(board.cells, before);
    board.toggle_flag(&vec![2, 0]);
    for (i, cell) in board.cells.iter().enumerate() {
        if i == 2 {
            assert_eq!(cell.state, CellState::Flagged);
            assert_eq!(cell.kind, before[i].kind);
        } else {
            assert_eq!(*cell, before[i]);
        }
    }
}

#[test]
fn flag_protects_from_reveal() {
    let mut board = Board::with_mines(vec![3, 3], &vec![4]).unwrap();
    board.toggle_flag(&vec![1, 1]);
    board.toggle_flag(&vec![0, 0]);
    let before = board.cells.clone();
    assert!(!board.reveal_at(&vec![1, 1]));
    assert_eq!(board.cells, before);
    assert_eq!(board.cells[4].state, CellState::Flagged);
    assert!(!board.reveal_at(&vec![0, 0]));
    assert_eq!(board.cells, before);
    assert_eq!(board.cells[0].state, CellState::Flagged);
}

#[test]
fn reveal_of_a_revealed_cell_changes_nothing() {
    let mut board = Board::with_mines(vec![4, 4], &vec![0, 5]).unwrap();
    assert!(!board.reveal_at(&vec![3, 3]));
    let before = board.cells.clone();
    assert!(!board.reveal_at(&vec![3, 3]));
    assert_eq!(board.cells, before);
}

#[test]
fn reveal_of_a_mine_reveals_only_the_mine() {
    let mut board = Board::with_mines(vec![3, 3], &vec![4]).unwrap();
    assert!(board.reveal_at(&vec![1, 1]));
    for (i, cell) in board.cells.iter().enumerate() {
        let expected = if i == 4 { CellState::Revealed } else { CellState::Hidden };
        assert_eq!(cell.state, expected);
    }
    assert!(!board.reveal_at(&vec![1, 1]));
}

#[test]
fn reveal_of_a_numbered_cell_does_not_spread() {
    let mut board = Board::with_mines(vec![3, 3], &vec![0]).unwrap();
    assert!(!board.reveal_at(&vec![1, 0]));
    for (i, cell) in board.cells.iter().enumerate() {
        let expected = if i == 1 { CellState::Revealed } else { CellState::Hidden };
        assert_eq!(cell.state, expected);
    }
}

#[test]
fn flood_stops_at_numbered_and_flagged_cells() {
    // A 5x1 strip with a mine at the right end: cells 0..=2 are blank,
    // cell 3 carries a 1.
    let mut board = Board::with_mines(vec![5], &vec![4]).unwrap();
    assert!(!board.reveal_at(&vec![0]));
    let states: Vec<CellState> = board.cells.iter().map(|c| c.state).collect();
    assert_eq!(
        states,
        vec![
            CellState::Revealed,
            CellState::Revealed,
            CellState::Revealed,
            CellState::Revealed,
            CellState::Hidden
        ]
    );
    // A flag in the middle of a blank strip stops the flood.
    let mut board = Board::with_mines(vec![5], &vec![]).unwrap();
    board.toggle_flag(&vec![2]);
    assert!(!board.reveal_at(&vec![0]));
    let states: Vec<CellState> = board.cells.iter().map(|c| c.state).collect();
    assert_eq!(
        states,
        vec![
            CellState::Revealed,
            CellState::Revealed,
            CellState::Flagged,
            CellState::Hidden,
            CellState::Hidden
        ]
    );
    assert!(!board.is_cleared());
}

#[test]
fn flood_covers_a_large_empty_board() {
    let mut board = Board::with_mines(vec![60, 60], &vec![]).unwrap();
    assert!(!board.reveal_at(&vec![17, 42]));
    assert!(board.cells.iter().all(|c| c.state == CellState::Revealed));
    assert!(board.is_cleared());
}

#[test]
fn board_is_cleared_when_only_mines_stay_hidden() {
    let mut board = Board::with_mines(vec![2, 2], &vec![3]).unwrap();
    assert!(!board.is_cleared());
    assert!(!board.reveal_at(&vec![0, 0]));
    assert!(!board.reveal_at(&vec![1, 0]));
    assert!(!board.is_cleared());
    assert!(!board.reveal_at(&vec![0, 1]));
    assert!(board.is_cleared());
    assert!(board.reveal_at(&vec![1, 1]));
    assert!(!board.is_cleared());
}

#[test]
fn draw_mines_gives_every_cell_when_asked_for_more() {
    assert_eq!(draw_mines(3, 10), vec![0, 1, 2]);
    assert_eq!(draw_mines(3, 3), vec![0, 1, 2]);
    assert!(draw_mines(0, 4).is_empty());
    assert!(draw_mines(0, 0).is_empty());
}
