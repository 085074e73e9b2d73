//! Tests of the game state, the reveal flood fill, and the input adapter.

use hexmines::board::Board;
use hexmines::controller::{on_primary_action, on_secondary_action, HoverTracker};
use hexmines::coord::HexCoordinate;
use hexmines::state::{ActionError, GameState, RevealOutcome};

fn hex(q: i32, r: i32) -> HexCoordinate {
    HexCoordinate::new(q, r)
}

/// Every cell of the board, by enumeration order.
fn all_cells(board: &Board) -> Vec<HexCoordinate> {
    let mut cells = Vec::new();
    let mut i = 0;
    while i < board.cell_count() {
        cells.push(board.cell_at(i));
        i += 1;
    }
    cells
}

/// Radius-2 board with a single mine at (2, 0).
fn corner_mine_board() -> Board {
    Board::generate_with_mines(2, &vec![hex(2, 0)])
}

#[test]
fn fresh_game_fully_covered() {
    let board = corner_mine_board();
    let state = GameState::new(&board);
    assert_eq!(state.covered_count(), 19);
    for c in all_cells(&board) {
        assert!(state.is_covered(c));
        assert!(!state.is_flagged(c));
    }
}

#[test]
fn reveal_out_of_bounds_is_rejected() {
    let board = corner_mine_board();
    let mut state = GameState::new(&board);
    assert_eq!(
        state.reveal_cell(&board, hex(3, 0)),
        Err(ActionError::OutOfBounds)
    );
    assert_eq!(state.covered_count(), 19);
}

#[test]
fn toggle_out_of_bounds_is_rejected() {
    let board = corner_mine_board();
    let mut state = GameState::new(&board);
    assert_eq!(
        state.toggle_flag(&board, hex(0, -3)),
        Err(ActionError::OutOfBounds)
    );
}

#[test]
fn reveal_numbered_uncovers_exactly_one_cell() {
    let board = corner_mine_board();
    let mut state = GameState::new(&board);
    // (1, 0) is adjacent to the mine at (2, 0)
    assert_eq!(board.number_at(hex(1, 0)), Some(1));
    assert_eq!(state.reveal_cell(&board, hex(1, 0)), Ok(RevealOutcome::Safe));
    assert!(!state.is_covered(hex(1, 0)));
    assert_eq!(state.covered_count(), 18);
    for c in all_cells(&board) {
        if (c.q, c.r) != (1, 0) {
            assert!(state.is_covered(c));
        }
    }
}

#[test]
fn reveal_uncovered_cell_is_rejected() {
    let board = corner_mine_board();
    let mut state = GameState::new(&board);
    assert_eq!(state.reveal_cell(&board, hex(1, 0)), Ok(RevealOutcome::Safe));
    assert_eq!(
        state.reveal_cell(&board, hex(1, 0)),
        Err(ActionError::CellUncovered)
    );
}

#[test]
fn reveal_mine_reports_loss() {
    let board = corner_mine_board();
    let mut state = GameState::new(&board);
    assert_eq!(state.reveal_cell(&board, hex(2, 0)), Ok(RevealOutcome::Mine));
    assert!(!state.is_covered(hex(2, 0)));
    assert_eq!(state.covered_count(), 18);
}

#[test]
fn flood_avoids_mine_and_wins() {
    let board = corner_mine_board();
    let mut state = GameState::new(&board);
    assert!(board.is_blank(hex(-2, 0)));
    assert_eq!(state.reveal_cell(&board, hex(-2, 0)), Ok(RevealOutcome::Safe));
    // everything but the mine is uncovered in one flood
    assert_eq!(state.covered_count(), 1);
    assert!(state.is_covered(hex(2, 0)));
    assert!(state.is_won(&board));
}

#[test]
fn flood_leaves_flagged_cells_covered() {
    let board = corner_mine_board();
    let mut state = GameState::new(&board);
    // flag a blank cell far from the mine
    assert!(board.is_blank(hex(-2, 2)));
    assert_eq!(state.toggle_flag(&board, hex(-2, 2)), Ok(true));
    assert_eq!(state.reveal_cell(&board, hex(-2, 0)), Ok(RevealOutcome::Safe));
    // the flagged cell and the mine stay covered
    assert_eq!(state.covered_count(), 2);
    assert!(state.is_covered(hex(-2, 2)));
    assert!(state.is_flagged(hex(-2, 2)));
    assert!(!state.is_won(&board));
    // unflag and reveal it: now only the mine is covered
    assert_eq!(state.toggle_flag(&board, hex(-2, 2)), Ok(false));
    assert_eq!(state.reveal_cell(&board, hex(-2, 2)), Ok(RevealOutcome::Safe));
    assert_eq!(state.covered_count(), 1);
    assert!(state.is_won(&board));
}

#[test]
fn zero_mine_board_uncovers_entirely() {
    let board = Board::generate_with_mines(2, &Vec::new());
    let mut state = GameState::new(&board);
    assert_eq!(state.reveal_cell(&board, hex(2, -2)), Ok(RevealOutcome::Safe));
    assert_eq!(state.covered_count(), 0);
    for c in all_cells(&board) {
        assert!(!state.is_covered(c));
    }
    assert!(state.is_won(&board));
}

#[test]
fn flood_is_restart_safe() {
    // the same reveal on two fresh games uncovers the same cells
    let board = corner_mine_board();
    let mut first = GameState::new(&board);
    let mut second = GameState::new(&board);
    assert_eq!(first.reveal_cell(&board, hex(-1, 0)), Ok(RevealOutcome::Safe));
    assert_eq!(second.reveal_cell(&board, hex(-1, 0)), Ok(RevealOutcome::Safe));
    for c in all_cells(&board) {
        assert_eq!(first.is_covered(c), second.is_covered(c));
        assert_eq!(first.is_flagged(c), second.is_flagged(c));
    }
}

#[test]
fn flag_blocks_reveal() {
    let board = corner_mine_board();
    let mut state = GameState::new(&board);
    assert_eq!(state.toggle_flag(&board, hex(0, 0)), Ok(true));
    assert_eq!(
        state.reveal_cell(&board, hex(0, 0)),
        Err(ActionError::CellFlagged)
    );
    assert!(state.is_covered(hex(0, 0)));
    assert!(state.is_flagged(hex(0, 0)));
}

#[test]
fn toggle_flag_twice_restores_state() {
    let board = corner_mine_board();
    let mut state = GameState::new(&board);
    assert!(!state.is_flagged(hex(0, 1)));
    assert_eq!(state.toggle_flag(&board, hex(0, 1)), Ok(true));
    assert!(state.is_flagged(hex(0, 1)));
    assert_eq!(state.toggle_flag(&board, hex(0, 1)), Ok(false));
    assert!(!state.is_flagged(hex(0, 1)));
    assert_eq!(state.covered_count(), 19);
}

#[test]
fn toggle_flag_on_uncovered_is_rejected() {
    let board = corner_mine_board();
    let mut state = GameState::new(&board);
    assert_eq!(state.reveal_cell(&board, hex(1, 0)), Ok(RevealOutcome::Safe));
    assert_eq!(
        state.toggle_flag(&board, hex(1, 0)),
        Err(ActionError::CellUncovered)
    );
}

#[test]
fn flag_leaves_on_reveal_of_other_region_cells() {
    // flags only ever sit on covered cells, through any action order
    let board = corner_mine_board();
    let mut state = GameState::new(&board);
    assert_eq!(state.toggle_flag(&board, hex(2, 0)), Ok(true));
    assert_eq!(state.reveal_cell(&board, hex(-2, 0)), Ok(RevealOutcome::Safe));
    for c in all_cells(&board) {
        if state.is_flagged(c) {
            assert!(state.is_covered(c));
        }
    }
    assert!(state.is_flagged(hex(2, 0)));
}

#[test]
fn primary_action_reveals_hovered_cell() {
    let board = corner_mine_board();
    let mut state = GameState::new(&board);
    let outcome = on_primary_action(&mut state, &board, Some(hex(1, 0)));
    assert_eq!(outcome, Some(Ok(RevealOutcome::Safe)));
    assert!(!state.is_covered(hex(1, 0)));
}

#[test]
fn primary_action_without_hover_does_nothing() {
    let board = corner_mine_board();
    let mut state = GameState::new(&board);
    assert_eq!(on_primary_action(&mut state, &board, None), None);
    assert_eq!(on_primary_action(&mut state, &board, Some(hex(9, 9))), None);
    assert_eq!(state.covered_count(), 19);
}

#[test]
fn secondary_action_toggles_hovered_cell() {
    let board = corner_mine_board();
    let mut state = GameState::new(&board);
    let outcome = on_secondary_action(&mut state, &board, Some(hex(0, 0)));
    assert_eq!(outcome, Some(Ok(true)));
    assert!(state.is_flagged(hex(0, 0)));
    assert_eq!(on_secondary_action(&mut state, &board, None), None);
    assert!(state.is_flagged(hex(0, 0)));
}

#[test]
fn hover_tracker_reports_edges() {
    let mut tracker = HoverTracker::new();
    assert!(tracker.update(Some(hex(0, 0))));
    assert!(!tracker.update(Some(hex(0, 0))));
    assert!(tracker.update(Some(hex(1, 0))));
    assert!(tracker.update(None));
    assert!(!tracker.update(None));
}

#[test]
fn radius_zero_board_plays() {
    let board = Board::generate_with_mines(0, &Vec::new());
    assert_eq!(board.cell_count(), 1);
    let mut state = GameState::new(&board);
    assert_eq!(state.reveal_cell(&board, hex(0, 0)), Ok(RevealOutcome::Safe));
    assert_eq!(state.covered_count(), 0);
    assert!(state.is_won(&board));
}
