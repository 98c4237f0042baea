use chess_ai::board::{Board, Move};
use chess_ai::figures::{Color, Figure, Piece};

fn piece(color: Color, figure: Figure) -> Option<Piece> {
    Some(Piece { color, figure })
}

#[test]
fn empty_board_has_no_piece() {
    let board = Board::empty();
    for x in 0..8i8 {
        for y in 0..8i8 {
            assert_eq!(board.get((x, y)), None);
        }
    }
}

#[test]
fn initial_board_is_the_standard_arrangement() {
    let board = Board::new();
    let order = [
        Figure::Rook,
        Figure::Knight,
        Figure::Bishop,
        Figure::Queen,
        Figure::King,
        Figure::Bishop,
        Figure::Knight,
        Figure::Rook,
    ];
    for x in 0..8usize {
        assert_eq!(board.0[x][0], piece(Color::Black, order[x]));
        assert_eq!(board.0[x][1], piece(Color::Black, Figure::Pawn));
        for y in 2..6usize {
            assert_eq!(board.0[x][y], None);
        }
        assert_eq!(board.0[x][6], piece(Color::White, Figure::Pawn));
        assert_eq!(board.0[x][7], piece(Color::White, order[x]));
    }
}

#[test]
fn is_inside_tells_the_board_from_the_rest() {
    let board = Board::empty();
    assert!(board.is_inside((0, 0)));
    assert!(board.is_inside((7, 7)));
    assert!(board.is_inside((3, 5)));
    assert!(!board.is_inside((-1, 0)));
    assert!(!board.is_inside((0, -1)));
    assert!(!board.is_inside((8, 0)));
    assert!(!board.is_inside((0, 8)));
    assert!(!board.is_inside((-128, 127)));
}

#[test]
fn do_move_relocates_and_captures() {
    let mut board = Board::empty();
    board.0[0][0] = piece(Color::White, Figure::Rook);
    board.0[0][5] = piece(Color::Black, Figure::Knight);
    board.0[4][4] = piece(Color::Black, Figure::King);
    board.do_move(Move { from: (0, 0), to: (0, 5) });
    let mut expected = Board::empty();
    expected.0[0][5] = piece(Color::White, Figure::Rook);
    expected.0[4][4] = piece(Color::Black, Figure::King);
    assert_eq!(board, expected);
}

#[test]
fn do_move_onto_its_own_square_keeps_the_piece() {
    let mut board = Board::empty();
    board.0[2][2] = piece(Color::White, Figure::Rook);
    board.do_move(Move { from: (2, 2), to: (2, 2) });
    assert_eq!(board.get((2, 2)), piece(Color::White, Figure::Rook));
}

#[test]
fn white_pawn_becomes_queen_on_row_zero() {
    let mut board = Board::empty();
    board.0[3][1] = piece(Color::White, Figure::Pawn);
    board.do_move(Move { from: (3, 1), to: (3, 0) });
    assert_eq!(board.get((3, 0)), piece(Color::White, Figure::Queen));
    assert_eq!(board.get((3, 1)), None);
}

#[test]
fn black_pawn_becomes_queen_on_row_seven() {
    let mut board = Board::empty();
    board.0[3][6] = piece(Color::Black, Figure::Pawn);
    board.0[4][7] = piece(Color::White, Figure::Rook);
    board.do_move(Move { from: (3, 6), to: (4, 7) });
    assert_eq!(board.get((4, 7)), piece(Color::Black, Figure::Queen));
    assert_eq!(board.get((3, 6)), None);
}

#[test]
fn other_moves_keep_the_kind() {
    let mut board = Board::empty();
    board.0[3][6] = piece(Color::White, Figure::Pawn);
    board.do_move(Move { from: (3, 6), to: (3, 7) });
    assert_eq!(board.get((3, 7)), piece(Color::White, Figure::Pawn));

    let mut board = Board::empty();
    board.0[3][1] = piece(Color::Black, Figure::Pawn);
    board.do_move(Move { from: (3, 1), to: (3, 0) });
    assert_eq!(board.get((3, 0)), piece(Color::Black, Figure::Pawn));

    let mut board = Board::empty();
    board.0[3][2] = piece(Color::White, Figure::Pawn);
    board.do_move(Move { from: (3, 2), to: (3, 1) });
    assert_eq!(board.get((3, 1)), piece(Color::White, Figure::Pawn));

    let mut board = Board::empty();
    board.0[5][1] = piece(Color::White, Figure::Knight);
    board.do_move(Move { from: (5, 1), to: (5, 0) });
    assert_eq!(board.get((5, 0)), piece(Color::White, Figure::Knight));
}

#[test]
fn clone_is_independent() {
    let start = Board::new();
    let mut copy = start.clone();
    assert_eq!(copy, start);
    copy.do_move(Move { from: (0, 6), to: (0, 5) });
    assert_ne!(copy, start);
    assert_eq!(start, Board::new());
}
