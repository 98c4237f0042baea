use chess_ai::board::Board;
use chess_ai::figures::{Color, Figure, Piece};

fn piece(color: Color, figure: Figure) -> Option<Piece> {
    Some(Piece { color, figure })
}

#[test]
fn rook() {
    let mut board = Board::empty();
    board.0[0][0] = Some(Piece {
        color: Color::White,
        figure: Figure::Rook,
    });
    let reachables = board.0[0][0].unwrap().reachables_collect((0, 0), &board);
    assert_eq!(
        reachables,
        vec![
            (1, 0),
            (2, 0),
            (3, 0),
            (4, 0),
            (5, 0),
            (6, 0),
            (7, 0),
            (0, 1),
            (0, 2),
            (0, 3),
            (0, 4),
            (0, 5),
            (0, 6),
            (0, 7),
        ]
    );
}

#[test]
fn blocked_rook() {
    let mut board = Board::empty();
    board.0[0][0] = Some(Piece {
        color: Color::White,
        figure: Figure::Rook,
    });
    board.0[5][0] = Some(Piece {
        color: Color::White,
        figure: Figure::Pawn,
    });
    board.0[0][3] = Some(Piece {
        color: Color::Black,
        figure: Figure::Pawn,
    });
    let mut reachables = board.0[0][0].unwrap().reachables_collect((0, 0), &board);
    reachables.sort();
    let mut expected = vec![(1, 0), (2, 0), (3, 0), (4, 0), (0, 1), (0, 2), (0, 3)];
    expected.sort();
    assert_eq!(reachables, expected);
}

#[test]
fn white_king() {
    let mut board = Board::empty();
    board.0[4][4] = Some(Piece {
        color: Color::White,
        figure: Figure::King,
    });
    board.0[5][4] = Some(Piece {
        color: Color::White,
        figure: Figure::Pawn,
    });
    board.0[3][3] = Some(Piece {
        color: Color::Black,
        figure: Figure::Pawn,
    });
    board.0[3][5] = Some(Piece {
        color: Color::Black,
        figure: Figure::Pawn,
    });
    let mut reachables = board.0[4][4].unwrap().reachables_collect((4, 4), &board);
    reachables.sort();
    let mut expected = vec![(3, 3), (4, 3), (5, 3), (5, 5), (4, 5), (3, 5), (3, 4)];
    expected.sort();
    assert_eq!(reachables, expected);
}

#[test]
fn black_king() {
    let mut board = Board::empty();
    board.0[4][4] = Some(Piece {
        color: Color::Black,
        figure: Figure::King,
    });
    board.0[5][4] = Some(Piece {
        color: Color::Black,
        figure: Figure::Pawn,
    });
    board.0[3][3] = Some(Piece {
        color: Color::White,
        figure: Figure::Pawn,
    });
    board.0[3][5] = Some(Piece {
        color: Color::White,
        figure: Figure::Pawn,
    });
    let mut reachables = board.0[4][4].unwrap().reachables_collect((4, 4), &board);
    reachables.sort();
    let mut expected = vec![(3, 3), (4, 3), (5, 3), (5, 5), (4, 5), (3, 5), (3, 4)];
    expected.sort();
    assert_eq!(reachables, expected);
}

#[test]
fn color_numbers_and_flip() {
    assert_eq!(Color::White.as_number(), 1);
    assert_eq!(Color::Black.as_number(), -1);
    assert_eq!(Color::White.flipped(), Color::Black);
    assert_eq!(Color::Black.flipped(), Color::White);
    assert_eq!(Color::White.flipped().flipped(), Color::White);
    assert_eq!(Color::Black.flipped().flipped(), Color::Black);
}

#[test]
fn piece_scores() {
    let kinds = [
        (Figure::Pawn, 1),
        (Figure::Bishop, 3),
        (Figure::Knight, 3),
        (Figure::Rook, 5),
        (Figure::Queen, 9),
        (Figure::King, 1000),
    ];
    for (figure, value) in kinds {
        assert_eq!(Piece { color: Color::White, figure }.score(), value);
        assert_eq!(Piece { color: Color::Black, figure }.score(), -value);
    }
}

#[test]
fn king_in_corner_keeps_later_offsets() {
    let mut board = Board::empty();
    board.0[0][0] = piece(Color::White, Figure::King);
    let king = board.0[0][0].unwrap();
    assert_eq!(king.reachables_collect((0, 0), &board), vec![(1, 0), (0, 1), (1, 1)]);
    board.0[7][7] = piece(Color::Black, Figure::King);
    let king = board.0[7][7].unwrap();
    assert_eq!(king.reachables_collect((7, 7), &board), vec![(6, 7), (7, 6), (6, 6)]);
}

#[test]
fn knight_in_corner_and_centre() {
    let mut board = Board::empty();
    board.0[0][0] = piece(Color::White, Figure::Knight);
    let knight = board.0[0][0].unwrap();
    assert_eq!(knight.reachables_collect((0, 0), &board), vec![(1, 2), (2, 1)]);

    let mut board = Board::empty();
    board.0[4][4] = piece(Color::Black, Figure::Knight);
    board.0[5][6] = piece(Color::Black, Figure::Pawn);
    board.0[3][6] = piece(Color::White, Figure::Pawn);
    let knight = board.0[4][4].unwrap();
    assert_eq!(
        knight.reachables_collect((4, 4), &board),
        vec![(3, 6), (5, 2), (3, 2), (6, 5), (2, 5), (6, 3), (2, 3)]
    );
}

#[test]
fn bishop_rays_stop_at_pieces() {
    let mut board = Board::empty();
    board.0[2][2] = piece(Color::White, Figure::Bishop);
    board.0[4][4] = piece(Color::Black, Figure::Rook);
    board.0[1][3] = piece(Color::White, Figure::Pawn);
    let bishop = board.0[2][2].unwrap();
    assert_eq!(
        bishop.reachables_collect((2, 2), &board),
        vec![(3, 3), (4, 4), (3, 1), (4, 0), (1, 1), (0, 0)]
    );
}

#[test]
fn queen_joins_rook_and_bishop() {
    let mut board = Board::empty();
    board.0[3][3] = piece(Color::White, Figure::Queen);
    let queen = board.0[3][3].unwrap();
    let rook = Piece { color: Color::White, figure: Figure::Rook };
    let bishop = Piece { color: Color::White, figure: Figure::Bishop };
    let mut expected = rook.reachables_collect((3, 3), &board);
    expected.extend(bishop.reachables_collect((3, 3), &board));
    let got = queen.reachables_collect((3, 3), &board);
    assert_eq!(got.len(), 27);
    assert_eq!(got, expected);
}

#[test]
fn white_pawn_moves() {
    let mut board = Board::empty();
    board.0[3][6] = piece(Color::White, Figure::Pawn);
    let pawn = board.0[3][6].unwrap();
    assert_eq!(pawn.reachables_collect((3, 6), &board), vec![(3, 5), (3, 4)]);

    board.0[3][4] = piece(Color::Black, Figure::Pawn);
    assert_eq!(pawn.reachables_collect((3, 6), &board), vec![(3, 5)]);

    board.0[3][5] = piece(Color::Black, Figure::Pawn);
    assert_eq!(pawn.reachables_collect((3, 6), &board), vec![]);

    board.0[2][5] = piece(Color::Black, Figure::Knight);
    board.0[4][5] = piece(Color::White, Figure::Knight);
    assert_eq!(pawn.reachables_collect((3, 6), &board), vec![(2, 5)]);

    let mut board = Board::empty();
    board.0[3][5] = piece(Color::White, Figure::Pawn);
    assert_eq!(pawn.reachables_collect((3, 5), &board), vec![(3, 4)]);

    let mut board = Board::empty();
    board.0[0][0] = piece(Color::White, Figure::Pawn);
    assert_eq!(pawn.reachables_collect((0, 0), &board), vec![]);
}

#[test]
fn black_pawn_moves() {
    let mut board = Board::empty();
    board.0[3][1] = piece(Color::Black, Figure::Pawn);
    let pawn = board.0[3][1].unwrap();
    assert_eq!(pawn.reachables_collect((3, 1), &board), vec![(3, 2), (3, 3)]);

    board.0[2][2] = piece(Color::White, Figure::Rook);
    board.0[4][2] = piece(Color::White, Figure::Rook);
    assert_eq!(
        pawn.reachables_collect((3, 1), &board),
        vec![(3, 2), (3, 3), (2, 2), (4, 2)]
    );

    let mut board = Board::empty();
    board.0[7][6] = piece(Color::Black, Figure::Pawn);
    board.0[6][7] = piece(Color::White, Figure::Queen);
    assert_eq!(pawn.reachables_collect((7, 6), &board), vec![(7, 7), (6, 7)]);
}

#[test]
fn reachables_appends_to_what_is_there() {
    let mut board = Board::empty();
    board.0[0][0] = piece(Color::White, Figure::Knight);
    let mut out = vec![(9, 9)];
    board.0[0][0].unwrap().reachables((0, 0), &board, &mut out);
    assert_eq!(out, vec![(9, 9), (1, 2), (2, 1)]);
}

#[test]
fn destinations_are_on_board_and_not_allied() {
    let board = Board::new();
    for x in 0..8i8 {
        for y in 0..8i8 {
            if let Some(p) = board.get((x, y)) {
                for target in p.reachables_collect((x, y), &board) {
                    assert!(board.is_inside(target));
                    assert!(board.get(target).map(|q| q.color) != Some(p.color));
                }
            }
        }
    }
}
