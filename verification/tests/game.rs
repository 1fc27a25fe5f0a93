use n_dimensional_minesweeper::board::Board;
use n_dimensional_minesweeper::cell::{CellKind, CellState};
use n_dimensional_minesweeper::game::{Game, GameState};
use n_dimensional_minesweeper::prelude::BoardError;

#[test]
fn new_game_is_in_progress() {
    let game = Game::new(vec![10, 10], 10);
    assert_eq!(*game.state(), GameState::InProgress);
    assert_eq!(game.board().cells.len(), 100);
    let mines = game.board().cells.iter().filter(|c| c.kind == CellKind::Mine).count();
    assert_eq!(mines, 10);
    assert!(!game.is_won());
}

#[test]
fn bad_games_are_rejected() {
    assert_eq!(Game::try_new(vec![], 0).err(), Some(BoardError::EmptyShape));
    assert_eq!(Game::try_new(vec![2, 0], 0).err(), Some(BoardError::ZeroExtent));
    assert_eq!(Game::try_new(vec![usize::MAX, 2], 0).err(), Some(BoardError::TooManyCells));
    assert_eq!(Game::try_new(vec![2, 2], 5).err(), Some(BoardError::TooManyMines));
    let game = Game::try_new(vec![2, 2], 4).unwrap();
    assert_eq!(*game.state(), GameState::InProgress);
}

#[test]
fn revealing_a_cell_of_a_board_without_mines_wins() {
    for start in [vec![0, 0], vec![1, 1], vec![2, 0], vec![2, 2]] {
        let mut game = Game::new(vec![3, 3], 0);
        game.reveal_at(&start);
        assert_eq!(*game.state(), GameState::Won);
        assert!(game.board().cells.iter().all(|c| c.state == CellState::Revealed));
    }
    let mut game = Game::new(vec![2, 3, 2, 2], 0);
    game.reveal_at(&vec![1, 2, 0, 1]);
    assert_eq!(*game.state(), GameState::Won);
}

#[test]
fn revealing_a_mine_loses() {
    let mut game = Game::on_board(Board::with_mines(vec![3, 3], &vec![4]).unwrap());
    game.reveal_at(&vec![0, 0]);
    assert_eq!(*game.state(), GameState::InProgress);
    game.reveal_at(&vec![1, 1]);
    assert_eq!(*game.state(), GameState::Lost);
    assert_eq!(game.board().cells[4].state, CellState::Revealed);
}

#[test]
fn revealing_the_last_empty_cell_wins() {
    let mut game = Game::on_board(Board::with_mines(vec![3, 3], &vec![0]).unwrap());
    game.reveal_at(&vec![2, 2]);
    assert_eq!(*game.state(), GameState::Won);
    assert!(game.is_won());
    assert_eq!(game.board().cells[0].state, CellState::Hidden);
}

#[test]
fn a_flagged_cell_is_not_revealed_by_the_game() {
    let mut game = Game::on_board(Board::with_mines(vec![3, 3], &vec![4]).unwrap());
    game.toggle_flag(&vec![1, 1]);
    assert_eq!(game.board().cells[4].state, CellState::Flagged);
    game.reveal_at(&vec![1, 1]);
    assert_eq!(*game.state(), GameState::InProgress);
    assert_eq!(game.board().cells[4].state, CellState::Flagged);
    game.toggle_flag(&vec![1, 1]);
    assert_eq!(game.board().cells[4].state, CellState::Hidden);
}

#[test]
fn a_lost_game_does_not_change() {
    let mut game = Game::on_board(Board::with_mines(vec![3, 3], &vec![4]).unwrap());
    game.reveal_at(&vec![1, 1]);
    assert_eq!(*game.state(), GameState::Lost);
    let before = game.board().cells.clone();
    game.reveal_at(&vec![0, 0]);
    game.toggle_flag(&vec![2, 2]);
    game.reveal_at(&vec![1, 1]);
    assert_eq!(*game.state(), GameState::Lost);
    assert_eq!(game.board().cells, before);
}

#[test]
fn a_won_game_does_not_change() {
    let mut game = Game::on_board(Board::with_mines(vec![3, 3], &vec![0]).unwrap());
    game.reveal_at(&vec![2, 2]);
    assert_eq!(*game.state(), GameState::Won);
    let before = game.board().cells.clone();
    game.reveal_at(&vec![0, 0]);
    game.toggle_flag(&vec![0, 0]);
    assert_eq!(*game.state(), GameState::Won);
    assert_eq!(game.board().cells, before);
}

#[test]
fn contains_tells_cells_of_the_board_from_other_coordinates() {
    let game = Game::new(vec![4, 2], 1);
    assert!(game.contains(&vec![3, 1]));
    assert!(!game.contains(&vec![4, 1]));
    assert!(!game.contains(&vec![3, 2]));
    assert!(!game.contains(&vec![3]));
    assert!(game.board().contains(&vec![0, 0]));
    assert!(!game.board().contains(&vec![0, 0, 0]));
}
