use mancala::{Board, MoveStatus, Outcome};

fn row(board: &Board, p: usize) -> Vec<u32> {
    (0..board.pits_per_row()).map(|i| board.pit(p, i)).collect()
}

fn stores(board: &Board) -> Vec<u32> {
    (0..board.player_count()).map(|p| board.store(p)).collect()
}

fn total(board: &Board) -> u32 {
    (0..board.player_count())
        .map(|p| row(board, p).iter().sum::<u32>() + board.store(p))
        .sum()
}

fn snapshot(board: &Board) -> (usize, Vec<Vec<u32>>, Vec<u32>) {
    let rows = (0..board.player_count()).map(|p| row(board, p)).collect();
    (board.current_index(), rows, stores(board))
}

fn small_board() -> Board {
    Board::with_length(1, 3, &["P0", "P1"])
}

#[test]
fn new_board_layout() {
    let board = Board::new(4, &["White", "Black"]);
    assert_eq!(board.pits_per_row(), Board::LENGTH);
    assert_eq!(board.pits_per_row(), 6);
    assert_eq!(board.player_count(), 2);
    assert_eq!(row(&board, 0), vec![4; 6]);
    assert_eq!(row(&board, 1), vec![4; 6]);
    assert_eq!(stores(&board), vec![0, 0]);
    assert_eq!(board.current_index(), 0);
    assert_eq!(board.player(), "White");
    assert_eq!(board.name(1), "Black");
    assert_eq!(total(&board), 48);
    assert_eq!(board.state(), Outcome::NotOver);
}

#[test]
fn relay_into_own_store_goes_again() {
    let mut board = small_board();
    assert_eq!(board.turn(0), MoveStatus::GoAgain);
    assert_eq!(row(&board, 0), vec![0, 0, 2]);
    assert_eq!(board.store(0), 1);
    assert_eq!(row(&board, 1), vec![1, 1, 1]);
    assert_eq!(board.store(1), 0);
    assert_eq!(board.current_index(), 0);
    assert_eq!(board.player(), "P0");
}

#[test]
fn sowing_past_store_into_next_row_is_done() {
    let mut board = small_board();
    assert_eq!(board.turn(0), MoveStatus::GoAgain);
    assert_eq!(board.turn(2), MoveStatus::Done);
    assert_eq!(row(&board, 0), vec![1, 1, 0]);
    assert_eq!(board.store(0), 2);
    assert_eq!(row(&board, 1), vec![0, 2, 0]);
    assert_eq!(board.store(1), 0);
    assert_eq!(board.current_index(), 1);
    assert_eq!(board.player(), "P1");
}

#[test]
fn index_past_row_is_out_of_bounds() {
    let mut board = small_board();
    let before = snapshot(&board);
    assert_eq!(board.turn(5), MoveStatus::OutOfBounds);
    assert_eq!(board.turn(3), MoveStatus::OutOfBounds);
    assert_eq!(snapshot(&board), before);
}

#[test]
fn empty_pit_is_rejected() {
    let mut board = small_board();
    assert_eq!(board.turn(0), MoveStatus::GoAgain);
    let before = snapshot(&board);
    assert_eq!(board.turn(0), MoveStatus::EmptyCell);
    assert_eq!(board.turn(1), MoveStatus::EmptyCell);
    assert_eq!(snapshot(&board), before);
}

#[test]
fn seeds_are_conserved_over_a_game() {
    let mut board = Board::new(4, &["White", "Black"]);
    let expected = [
        MoveStatus::Done,
        MoveStatus::Done,
        MoveStatus::EmptyCell,
        MoveStatus::Done,
        MoveStatus::GoAgain,
        MoveStatus::GoAgain,
    ];
    for (&index, &status) in [0, 3, 5, 2, 1, 4].iter().zip(expected.iter()) {
        assert_eq!(board.turn(index), status);
        assert_eq!(total(&board), 48);
    }
    assert_eq!(row(&board, 0), vec![5, 8, 3, 1, 0, 4]);
    assert_eq!(row(&board, 1), vec![3, 0, 7, 0, 0, 5]);
    assert_eq!(stores(&board), vec![7, 5]);
    assert_eq!(board.current_index(), 1);
}

#[test]
fn done_passes_turn_and_wraps() {
    let mut board = Board::with_length(2, 2, &["A", "B", "C"]);
    assert_eq!(board.turn(1), MoveStatus::GoAgain);
    assert_eq!(board.current_index(), 0);
    assert_eq!(board.turn(0), MoveStatus::Done);
    assert_eq!(board.current_index(), 1);
    assert_eq!(board.turn(1), MoveStatus::Done);
    assert_eq!(board.current_index(), 2);
    assert_eq!(board.turn(0), MoveStatus::Done);
    assert_eq!(board.current_index(), 0);
    assert_eq!(board.turn(1), MoveStatus::EmptyCell);
    assert_eq!(board.current_index(), 0);
    assert_eq!(row(&board, 0), vec![1, 0]);
    assert_eq!(row(&board, 1), vec![2, 1]);
    assert_eq!(row(&board, 2), vec![1, 2]);
    assert_eq!(stores(&board), vec![3, 1, 1]);
    assert_eq!(total(&board), 12);
}

#[test]
fn long_relay_chain_ends() {
    let mut board = Board::with_length(4, 1, &["Solo"]);
    assert_eq!(board.turn(0), MoveStatus::Done);
    assert_eq!(row(&board, 0), vec![1]);
    assert_eq!(board.store(0), 3);
    assert_eq!(board.current_index(), 0);
}

#[test]
fn empty_rows_with_equal_stores_tie() {
    let board = Board::with_length(0, 3, &["A", "B"]);
    assert_eq!(board.state(), Outcome::Tie);
    assert!(board.state().is_over());
}

#[test]
fn single_player_wins_when_row_is_empty() {
    let board = Board::with_length(0, 2, &["Solo"]);
    assert_eq!(board.state(), Outcome::Winner("Solo".to_string()));
}

#[test]
fn unique_largest_store_wins() {
    let mut board = Board::with_length(1, 1, &["A", "B"]);
    assert_eq!(board.state(), Outcome::NotOver);
    assert!(!board.state().is_over());
    assert_eq!(board.turn(0), MoveStatus::GoAgain);
    assert_eq!(stores(&board), vec![1, 0]);
    assert_eq!(board.state(), Outcome::Winner("A".to_string()));
    assert!(board.state().is_over());
}

#[test]
fn tie_below_the_maximum_still_has_a_winner() {
    let mut board = Board::with_length(1, 3, &["A", "B", "C"]);
    let expected = [
        MoveStatus::GoAgain,
        MoveStatus::Done,
        MoveStatus::Done,
        MoveStatus::GoAgain,
        MoveStatus::GoAgain,
    ];
    for (&index, &status) in [2, 1, 1, 1, 2].iter().zip(expected.iter()) {
        assert_eq!(board.turn(index), status);
    }
    assert_eq!(row(&board, 2), vec![0, 0, 0]);
    assert_eq!(stores(&board), vec![1, 1, 2]);
    assert_eq!(board.state(), Outcome::Winner("C".to_string()));
}

#[test]
fn game_not_over_while_rows_hold_seeds() {
    let mut board = small_board();
    assert_eq!(board.turn(0), MoveStatus::GoAgain);
    assert_eq!(board.state(), Outcome::NotOver);
}
