//! Tests of coordinates and board generation.

use hexmines::board::Board;
use hexmines::coord::HexCoordinate;

fn hex(q: i32, r: i32) -> HexCoordinate {
    HexCoordinate::new(q, r)
}

/// Every cell of the board, by enumeration order.
fn all_cells(board: &Board) -> Vec<HexCoordinate> {
    let mut cells = Vec::new();
    let mut i = 0;
    while i < board.cell_count() {
        cells.push(board.cell_at(i));
        i += 1;
    }
    cells
}

#[test]
fn cube_length_values() {
    assert_eq!(hex(0, 0).cube_length(), 0);
    assert_eq!(hex(1, 0).cube_length(), 1);
    assert_eq!(hex(0, -1).cube_length(), 1);
    assert_eq!(hex(2, -1).cube_length(), 2);
    assert_eq!(hex(-3, 1).cube_length(), 3);
    assert_eq!(hex(2, 2).cube_length(), 4);
    assert_eq!(hex(-2, -2).cube_length(), 4);
}

#[test]
fn neighbors_of_origin() {
    let nbrs = hex(0, 0).neighbors();
    let expected = [(1, 0), (0, 1), (-1, 1), (-1, 0), (0, -1), (1, -1)];
    assert_eq!(nbrs.len(), 6);
    for (n, (q, r)) in nbrs.iter().zip(expected.iter()) {
        assert_eq!((n.q, n.r), (*q, *r));
        assert_eq!(n.cube_length(), 1);
    }
}

#[test]
fn cell_count_by_radius() {
    // 3*R*(R+1) + 1 cells for radius R
    for (radius, expected) in [(0u32, 1usize), (1, 7), (2, 19), (3, 37), (5, 91), (16, 817)] {
        let board = Board::generate_with_mines(radius, &Vec::new());
        assert_eq!(board.cell_count(), expected);
        assert_eq!(board.radius(), radius);
    }
}

#[test]
fn cells_lie_within_radius() {
    let radius = 4u32;
    let board = Board::generate_with_mines(radius, &Vec::new());
    for c in all_cells(&board) {
        assert!(c.cube_length() <= radius as u64);
        assert!(board.contains(c));
    }
    // and just outside the rim is out of bounds
    assert!(!board.contains(hex(5, 0)));
    assert!(!board.contains(hex(3, 2)));
}

#[test]
fn every_kth_cell_is_a_mine() {
    let board = Board::generate(1, 6);
    let cells = all_cells(&board);
    assert_eq!(cells.len(), 7);
    // positions 0 and 6 of the enumeration carry the mines
    let mut mine_count = 0;
    for (i, c) in cells.iter().enumerate() {
        let expected = i % 6 == 0;
        assert_eq!(board.is_mine(*c), expected);
        if expected {
            mine_count += 1;
        }
    }
    assert_eq!(mine_count, 2);
}

#[test]
fn step_one_mines_everything() {
    let board = Board::generate(1, 1);
    for c in all_cells(&board) {
        assert!(board.is_mine(c));
        assert_eq!(board.number_at(c), None);
    }
}

#[test]
fn numbers_match_manual_adjacency_count() {
    let board = Board::generate(3, 6);
    for c in all_cells(&board) {
        let mut count = 0u8;
        for n in c.neighbors() {
            if board.contains(n) && board.is_mine(n) {
                count += 1;
            }
        }
        if board.is_mine(c) {
            assert_eq!(board.number_at(c), None);
        } else if count == 0 {
            assert_eq!(board.number_at(c), None);
            assert!(board.is_blank(c));
        } else {
            assert_eq!(board.number_at(c), Some(count));
        }
    }
}

#[test]
fn numbers_disjoint_from_mines_and_in_range() {
    let board = Board::generate(4, 3);
    for c in all_cells(&board) {
        if let Some(v) = board.number_at(c) {
            assert!(!board.is_mine(c));
            assert!((1..=6).contains(&v));
        }
    }
}

#[test]
fn single_ring_mine_gives_origin_count_one() {
    // radius 1, one mine on the ring at (1, 0)
    let board = Board::generate_with_mines(1, &vec![hex(1, 0)]);
    assert!(board.is_mine(hex(1, 0)));
    assert_eq!(board.number_at(hex(0, 0)), Some(1));
    assert_eq!(board.number_at(hex(0, 1)), Some(1));
    assert_eq!(board.number_at(hex(1, -1)), Some(1));
    // ring cells away from the mine are blank
    assert!(board.is_blank(hex(-1, 0)));
    assert!(board.is_blank(hex(-1, 1)));
    assert!(board.is_blank(hex(0, -1)));
}

#[test]
fn out_of_bounds_picks_are_ignored() {
    let board = Board::generate_with_mines(1, &vec![hex(5, 5), hex(1, 0), hex(1, 0)]);
    assert!(board.is_mine(hex(1, 0)));
    let mut mines = 0;
    for c in all_cells(&board) {
        if board.is_mine(c) {
            mines += 1;
        }
    }
    assert_eq!(mines, 1);
}
