use vstd::prelude::*;

use crate::figures::{Color, Figure, Piece};

verus! {

/// A square, as (column, row). Signed, so that a step off the board can be
/// formed before it is tested.
pub type Pos = (i8, i8);

/// A material balance: positive favours White, negative favours Black.
pub type Score = i32;

/// Whether the coordinates name a square of the board.
pub open spec fn on_board(x: int, y: int) -> bool {
    0 <= x < 8 && 0 <= y < 8
}

/// Whether a position names a square of the board.
pub open spec fn pos_on_board(pos: Pos) -> bool {
    on_board(pos.0 as int, pos.1 as int)
}

/// A relocation of the piece on `from` to `to`.
#[derive(Debug, Clone, Copy, PartialEq, Eq)]
pub struct Move {
    pub from: Pos,
    pub to: Pos,
}

/// The 8x8 grid, indexed by column, then row.
#[derive(PartialEq, Debug)]
pub struct Board(pub [[Option<Piece>; 8]; 8]);

impl Clone for Board {
    /// An independent copy, equal to the board square by square.
    fn clone(&self) -> (r: Self)
        ensures
            r == *self,
    {
        Board(self.0)
    }
}

/// The kind of figure that stands on column `x` of a side's back rank.
pub open spec fn back_rank(x: int) -> Figure {
    if x == 0 || x == 7 {
        Figure::Rook
    } else if x == 1 || x == 6 {
        Figure::Knight
    } else if x == 2 || x == 5 {
        Figure::Bishop
    } else if x == 3 {
        Figure::Queen
    } else {
        Figure::King
    }
}

fn back_rank_figure(x: usize) -> (r: Figure)
    ensures
        r == back_rank(x as int),
{
    if x == 0 || x == 7 {
        Figure::Rook
    } else if x == 1 || x == 6 {
        Figure::Knight
    } else if x == 2 || x == 5 {
        Figure::Bishop
    } else if x == 3 {
        Figure::Queen
    } else {
        Figure::King
    }
}

/// What stands on a square at the start of a game.
pub open spec fn initial_cell(x: int, y: int) -> Option<Piece> {
    if y == 0 {
        Some(Piece { color: Color::Black, figure: back_rank(x) })
    } else if y == 1 {
        Some(Piece { color: Color::Black, figure: Figure::Pawn })
    } else if y == 6 {
        Some(Piece { color: Color::White, figure: Figure::Pawn })
    } else if y == 7 {
        Some(Piece { color: Color::White, figure: back_rank(x) })
    } else {
        None
    }
}

/// The piece that arrives when `piece` moves to row `row`: a pawn that
/// reaches the far row of its side becomes a queen of that side.
pub open spec fn promoted(piece: Piece, row: int) -> Piece {
    if piece.figure == Figure::Pawn && ((piece.color == Color::White && row == 0) || (piece.color
        == Color::Black && row == 7)) {
        Piece { color: piece.color, figure: Figure::Queen }
    } else {
        piece
    }
}

impl Board {
    /// The content of the square in column `x`, row `y`.
    pub open spec fn cell(self, x: int, y: int) -> Option<Piece> {
        self.0[x][y]
    }

    /// The content of the square at `pos`.
    pub open spec fn at(self, pos: Pos) -> Option<Piece> {
        self.cell(pos.0 as int, pos.1 as int)
    }

    /// Whether a move can be applied: both squares are on the board and a
    /// piece stands on the source.
    pub open spec fn can_apply(self, mov: Move) -> bool {
        pos_on_board(mov.from) && pos_on_board(mov.to) && self.at(mov.from) is Some
    }

    /// This board with `content` written to the square in column `x`, row `y`.
    pub open spec fn with_cell(self, x: int, y: int, content: Option<Piece>) -> Board {
        Board(
            vstd::array::spec_array_update(
                self.0,
                x,
                vstd::array::spec_array_update(self.0[x], y, content),
            ),
        )
    }

    /// This board after `mov`: the source is cleared, and the piece that
    /// stood there, promoted where it applies, stands on the destination in
    /// place of whatever was there.
    pub open spec fn after_move(self, mov: Move) -> Board {
        self.with_cell(mov.from.0 as int, mov.from.1 as int, None).with_cell(
            mov.to.0 as int,
            mov.to.1 as int,
            Some(promoted(self.at(mov.from).unwrap(), mov.to.1 as int)),
        )
    }

    /// A board without pieces.
    pub fn empty() -> (r: Self)
        ensures
            forall|x: int, y: int| on_board(x, y) ==> #[trigger] r.cell(x, y) is None,
    {
        Board([[None;8];8])
    }

    /// The board at the start of a game: Black's figures on row 0 and pawns
    /// on row 1, White's pawns on row 6 and figures on row 7.
    pub fn new() -> (r: Self)
        ensures
            forall|x: int, y: int| on_board(x, y) ==> #[trigger] r.cell(x, y) == initial_cell(x, y),
    {
        let mut board = Board::empty();
        let mut x: usize = 0;
        while x < 8
            invariant
                x <= 8,
                forall|i: int, j: int|
                    0 <= i < x && 0 <= j < 8 ==> #[trigger] board.cell(i, j) == initial_cell(i, j),
                forall|i: int, j: int| x <= i < 8 && 0 <= j < 8 ==> #[trigger] board.cell(i, j) is None,
            decreases 8 - x,
        {
            let ghost before = board;
            let figure = back_rank_figure(x);
            board.0[x][0] = Some(Piece { color: Color::Black, figure });
            board.0[x][1] = Some(Piece { color: Color::Black, figure: Figure::Pawn });
            board.0[x][6] = Some(Piece { color: Color::White, figure: Figure::Pawn });
            board.0[x][7] = Some(Piece { color: Color::White, figure });
            proof {
                assert forall|i: int, j: int| 0 <= i < 8 && 0 <= j < 8 && i != x implies #[trigger] board.cell(
                    i,
                    j,
                ) == before.cell(i, j) by {}
                assert forall|j: int| 0 <= j < 8 implies #[trigger] board.cell(x as int, j)
                    == initial_cell(x as int, j) by {
                    assert(before.cell(x as int, j) is None);
                }
            }
            x += 1;
        }
        board
    }

    /// What stands on `pos`, a square of the board.
    pub fn get(&self, pos: Pos) -> (r: Option<Piece>)
        requires
            pos_on_board(pos),
        ensures
            r == self.at(pos),
    {
        let (x, y) = pos;
        self.0[x as usize][y as usize]
    }

    /// Moves the piece on `mov.from` to `mov.to`, taking whatever stood
    /// there; a pawn that reaches the far row of its side becomes a queen.
    /// Whether the rules allow the move is not asked.
    pub fn do_move(&mut self, mov: Move)
        requires
            old(self).can_apply(mov),
        ensures
            *final(self) == old(self).after_move(mov),
    {
        let mut figure = self.get(mov.from).unwrap();
        self.0[mov.from.0 as usize][mov.from.1 as usize] = None;
        let color = figure.color;
        if figure.figure == Figure::Pawn {
            if color == Color::White && mov.to.1 == 0 {
                figure = Piece { color, figure: Figure::Queen };
            } else if color == Color::Black && mov.to.1 == 7 {
                figure = Piece { color, figure: Figure::Queen };
            }
        }
        self.0[mov.to.0 as usize][mov.to.1 as usize] = Some(figure);
    }

    /// Whether `pos` is a square of the board.
    pub fn is_inside(&self, pos: Pos) -> (r: bool)
        ensures
            r == pos_on_board(pos),
    {
        let (x, y) = pos;
        x >= 0 && x < 8 && y >= 0 && y < 8
    }
}

/// Writing a square changes that square and no other.
pub proof fn lemma_with_cell(board: Board, x: int, y: int, content: Option<Piece>)
    requires
        on_board(x, y),
    ensures
        forall|i: int, j: int|
            on_board(i, j) ==> #[trigger] board.with_cell(x, y, content).cell(i, j) == if i == x
                && j == y {
                content
            } else {
                board.cell(i, j)
            },
{
}

/// What a move does, square by square: the destination holds the moved
/// piece, a pawn that reaches the far row of its side having become a queen
/// of that side and every other piece keeping its kind; the source is
/// empty; all other squares are as they were.
pub proof fn lemma_after_move(board: Board, mov: Move)
    requires
        board.can_apply(mov),
    ensures
        board.after_move(mov).at(mov.to) == Some(promoted(board.at(mov.from).unwrap(), mov.to.1 as int)),
        mov.from != mov.to ==> board.after_move(mov).at(mov.from) is None,
        forall|i: int, j: int|
            on_board(i, j) && !(i == mov.to.0 && j == mov.to.1) && !(i == mov.from.0 && j
                == mov.from.1) ==> #[trigger] board.after_move(mov).cell(i, j) == board.cell(i, j),
        promoted(board.at(mov.from).unwrap(), mov.to.1 as int).color == board.at(
            mov.from,
        ).unwrap().color,
{
    let cleared = board.with_cell(mov.from.0 as int, mov.from.1 as int, None);
    lemma_with_cell(board, mov.from.0 as int, mov.from.1 as int, None);
    lemma_with_cell(
        cleared,
        mov.to.0 as int,
        mov.to.1 as int,
        Some(promoted(board.at(mov.from).unwrap(), mov.to.1 as int)),
    );
}

/// A move that brings a White pawn to row 0, or a Black pawn to row 7,
/// leaves a queen of the same side on the destination; every other move
/// leaves there the piece that moved, its kind unchanged.
pub proof fn lemma_promotion(board: Board, mov: Move)
    requires
        board.can_apply(mov),
    ensures
        ({
            let piece = board.at(mov.from).unwrap();
            let arrived = board.after_move(mov).at(mov.to);
            let promotes = piece.figure == Figure::Pawn && ((piece.color == Color::White && mov.to.1
                == 0) || (piece.color == Color::Black && mov.to.1 == 7));
            &&& arrived is Some
            &&& arrived.unwrap().color == piece.color
            &&& promotes ==> arrived.unwrap().figure == Figure::Queen
            &&& !promotes ==> arrived.unwrap().figure == piece.figure
        }),
{
    lemma_after_move(board, mov);
}

/// Two boards with the same content on every square are the same board.
pub proof fn lemma_board_ext(a: Board, b: Board)
    requires
        forall|i: int, j: int| on_board(i, j) ==> #[trigger] a.cell(i, j) == b.cell(i, j),
    ensures
        a == b,
{
    assert forall|i: int| 0 <= i < 8 implies a.0[i] == b.0[i] by {
        assert forall|j: int| 0 <= j < 8 implies a.0[i][j] == b.0[i][j] by {
            assert(a.cell(i, j) == b.cell(i, j));
        }
        assert(a.0[i] =~= b.0[i]);
    }
    assert(a.0 =~= b.0);
}

} // verus!
