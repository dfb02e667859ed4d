use hexboard::board::{Board, Move};
use hexboard::geometry::{leap_directions, offset, step_directions};
use hexboard::layout::LoadError;
use hexboard::piece::Piece;

const DEMO: &str = "
            X - - - O
           - - - - - -
          - - - - - - -
         - - - -   - - -
        O - -   - - - - X
         - - - -   - - -
          - - - - - - -
           - - - - - -
            X - - - O
        ";

fn row_board() -> Board {
    Board::load("X - - - O").unwrap()
}

#[test]
fn opposite_swaps_colours() {
    assert_eq!(Piece::Black.opposite(), Piece::White);
    assert_eq!(Piece::White.opposite(), Piece::Black);
    assert_eq!(Piece::Empty.opposite(), Piece::Empty);
}

#[test]
fn offset_adds_components() {
    assert_eq!(offset((3, 4), (-2, 1)), (1, 5));
    assert_eq!(offset((0, 0), (4, 0)), (4, 0));
}

#[test]
fn direction_tables() {
    assert_eq!(step_directions(), vec![(2, 0), (1, 1), (-1, 1), (-2, 0), (-1, -1), (1, -1)]);
    let leaps = leap_directions();
    assert_eq!(leaps.len(), 12);
    assert_eq!(leaps[0], (4, 0));
    assert_eq!(leaps[3], (0, 2));
    assert_eq!(leaps[11], (3, -1));
}

#[test]
fn single_row_scenario() {
    let mut b = row_board();
    assert_eq!(b.at(&(0, 0)), Some(&Piece::Black));
    assert_eq!(b.at(&(8, 0)), Some(&Piece::White));
    assert_eq!(b.at(&(2, 0)), Some(&Piece::Empty));
    assert_eq!(b.at(&(4, 0)), Some(&Piece::Empty));
    assert_eq!(b.at(&(6, 0)), Some(&Piece::Empty));
    assert_eq!(b.at(&(1, 0)), None);
    assert_eq!(b.turn(), Piece::Black);

    b.do_move(&Move::Step((2, 0)));
    assert_eq!(b.at(&(2, 0)), Some(&Piece::Black));
    assert_eq!(b.at(&(0, 0)), Some(&Piece::Black));
    assert_eq!(b.at(&(4, 0)), Some(&Piece::Empty));
    assert_eq!(b.turn(), Piece::White);

    b.do_move(&Move::Leap((8, 0), (4, 0)));
    assert_eq!(b.at(&(8, 0)), Some(&Piece::Empty));
    assert_eq!(b.at(&(4, 0)), Some(&Piece::White));
    assert_eq!(b.at(&(2, 0)), Some(&Piece::White));
    assert_eq!(b.turn(), Piece::Black);
}

#[test]
fn step_neighbors_are_symmetric() {
    let b = Board::load(DEMO).unwrap();
    let (x0, x1, y0, y1) = b.bounds();
    for y in y0..=y1 {
        for x in x0..=x1 {
            for n in b.step_neighbors(&(x, y)) {
                assert!(b.step_neighbors(&n).contains(&(x, y)));
            }
        }
    }
}

#[test]
fn neighbors_in_direction_order() {
    let b = Board::load(DEMO).unwrap();
    assert_eq!(b.step_neighbors(&(4, 0)), vec![(6, 0), (5, 1), (3, 1)]);
    assert_eq!(
        b.step_neighbors(&(8, 2)),
        vec![(10, 2), (7, 3), (6, 2), (7, 1), (9, 1)]
    );
    assert_eq!(b.leap_neighbors(&(4, 0)), vec![(8, 0), (7, 1), (6, 2), (4, 2), (2, 2)]);
}

#[test]
fn off_board_positions_have_no_neighbors() {
    let b = Board::load(DEMO).unwrap();
    for p in [(0, 0), (1, 0), (-5, 3), (i32::MAX, i32::MIN), (9, 3)] {
        assert_eq!(b.at(&p), None);
        assert!(b.step_neighbors(&p).is_empty());
        assert!(b.leap_neighbors(&p).is_empty());
    }
}

#[test]
fn lone_cell_has_no_neighbors() {
    let b = Board::load("X").unwrap();
    assert!(b.step_neighbors(&(0, 0)).is_empty());
    assert!(b.leap_neighbors(&(0, 0)).is_empty());
}

#[test]
fn set_off_board_is_a_no_op() {
    let mut b = row_board();
    b.set(&(1, 0), Piece::Black);
    assert_eq!(b.at(&(1, 0)), None);
    b.set(&(-2, 0), Piece::White);
    assert_eq!(b.at(&(-2, 0)), None);
    assert_eq!(b.at(&(0, 0)), Some(&Piece::Black));
    b.set(&(4, 0), Piece::White);
    assert_eq!(b.at(&(4, 0)), Some(&Piece::White));
    assert_eq!(b.turn(), Piece::Black);
}

#[test]
fn step_flips_only_adjacent_opponents() {
    let mut b = Board::load("O - X\n - O\nO X O").unwrap();
    b.do_move(&Move::Step((2, 0)));
    assert_eq!(b.at(&(2, 0)), Some(&Piece::Black));
    assert_eq!(b.at(&(0, 0)), Some(&Piece::Black));
    assert_eq!(b.at(&(4, 0)), Some(&Piece::Black));
    assert_eq!(b.at(&(1, 1)), Some(&Piece::Empty));
    assert_eq!(b.at(&(3, 1)), Some(&Piece::Black));
    assert_eq!(b.at(&(0, 2)), Some(&Piece::White));
    assert_eq!(b.at(&(2, 2)), Some(&Piece::Black));
    assert_eq!(b.at(&(4, 2)), Some(&Piece::White));
}

#[test]
fn step_flips_every_opposing_neighbor() {
    let mut b = Board::load(" O O\nO - O\n O O").unwrap();
    b.do_move(&Move::Step((2, 1)));
    for p in [(1, 0), (3, 0), (0, 1), (2, 1), (4, 1), (1, 2), (3, 2)] {
        assert_eq!(b.at(&p), Some(&Piece::Black));
    }
}

#[test]
fn flip_neighbors_uses_current_turn() {
    let mut b = Board::load("X O - O").unwrap();
    b.flip_neighbors(&(0, 0));
    assert_eq!(b.at(&(2, 0)), Some(&Piece::Black));
    assert_eq!(b.at(&(6, 0)), Some(&Piece::White));
    assert_eq!(b.turn(), Piece::Black);
}

#[test]
fn turn_alternates() {
    let mut b = row_board();
    assert_eq!(b.turn(), Piece::Black);
    b.do_move(&Move::Step((4, 0)));
    assert_eq!(b.turn(), Piece::White);
    b.do_move(&Move::Step((1, 5)));
    assert_eq!(b.turn(), Piece::Black);
    b.do_move(&Move::Leap((0, 0), (6, 0)));
    assert_eq!(b.turn(), Piece::White);
}

#[test]
fn step_off_board_changes_nothing() {
    let mut b = row_board();
    b.do_move(&Move::Step((1, 1)));
    assert_eq!(b.render(), row_board().render());
    assert_eq!(b.turn(), Piece::White);
}

#[test]
fn leap_relocates_without_duplicating() {
    let mut b = Board::load("X - - - - - -").unwrap();
    b.do_move(&Move::Leap((0, 0), (8, 0)));
    assert_eq!(b.at(&(0, 0)), Some(&Piece::Empty));
    assert_eq!(b.at(&(8, 0)), Some(&Piece::Black));
    assert_eq!(b.turn(), Piece::White);
}

#[test]
fn demo_game() {
    let mut b = Board::load(DEMO).unwrap();
    assert_eq!((b.min_x(), b.max_x(), b.min_y(), b.max_y()), (0, 16, 0, 8));
    b.do_move(&Move::Step((6, 0)));
    assert_eq!(b.at(&(6, 0)), Some(&Piece::Black));
    b.do_move(&Move::Leap((12, 0), (8, 0)));
    assert_eq!(b.at(&(12, 0)), Some(&Piece::Empty));
    assert_eq!(b.at(&(8, 0)), Some(&Piece::White));
    assert_eq!(b.at(&(6, 0)), Some(&Piece::White));
    b.do_move(&Move::Leap((4, 0), (7, 1)));
    assert_eq!(b.at(&(4, 0)), Some(&Piece::Empty));
    assert_eq!(b.at(&(7, 1)), Some(&Piece::Black));
    assert_eq!(b.at(&(6, 0)), Some(&Piece::Black));
    assert_eq!(b.at(&(8, 0)), Some(&Piece::Black));
    assert_eq!(b.turn(), Piece::White);
}

#[test]
fn bounds_of_row() {
    let b = row_board();
    assert_eq!(b.bounds(), (0, 8, 0, 0));
}

#[test]
fn render_draws_rows() {
    let b = Board::load("X - O\n - -").unwrap();
    let rows: Vec<String> = b.render().into_iter().map(|r| r.into_iter().collect()).collect();
    assert_eq!(rows, vec!["X - O".to_string(), " - - ".to_string()]);
}

#[test]
fn load_removes_common_indentation() {
    let b = Board::load("\n    X -\n     - O\n").unwrap();
    assert_eq!(b.at(&(0, 0)), Some(&Piece::Black));
    assert_eq!(b.at(&(3, 1)), Some(&Piece::White));
}

#[test]
fn load_skips_blank_lines() {
    let b = Board::load("X\n   \n\n-\r\nO").unwrap();
    assert_eq!(b.at(&(0, 0)), Some(&Piece::Black));
    assert_eq!(b.at(&(0, 1)), Some(&Piece::Empty));
    assert_eq!(b.at(&(0, 2)), Some(&Piece::White));
    assert_eq!(b.max_y(), 2);
}

#[test]
fn from_text_keeps_columns() {
    let b = Board::from_text("X-\nab O").unwrap();
    assert_eq!(b.at(&(1, 0)), Some(&Piece::Empty));
    assert_eq!(b.at(&(3, 1)), Some(&Piece::White));
    assert_eq!(b.at(&(0, 1)), None);
}

#[test]
fn load_without_cells_fails() {
    assert_eq!(Board::load("").err(), Some(LoadError::NoPieces));
    assert_eq!(Board::load("  \n abc\n").err(), Some(LoadError::NoPieces));
}

#[test]
fn load_off_origin_fails() {
    assert_eq!(Board::load("a X").err(), Some(LoadError::NotAtOrigin));
    assert_eq!(Board::load("abc\nX").err(), Some(LoadError::NotAtOrigin));
    assert_eq!(Board::from_text("  X").err(), Some(LoadError::NotAtOrigin));
}
