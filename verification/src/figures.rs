use vstd::prelude::*;

use crate::board::{on_board, pos_on_board, Board, Pos, Score};

verus! {

/// The two sides of the game.
#[derive(Copy, Clone, PartialEq, Eq, Debug, Structural)]
pub enum Color {
    White,
    Black,
}

impl Color {
    /// The sign of a side: `+1` for White, `-1` for Black.
    pub open spec fn sign(self) -> int {
        match self {
            Color::White => 1,
            Color::Black => -1,
        }
    }

    /// The other side.
    pub open spec fn opposite(self) -> Color {
        match self {
            Color::White => Color::Black,
            Color::Black => Color::White,
        }
    }

    /// The sign of the side as a number: `1` for White, `-1` for Black.
    pub fn as_number(self) -> (r: i8)
        ensures
            r == self.sign(),
    {
        match self {
            Color::White => 1,
            Color::Black => -1,
        }
    }

    /// The other side.
    pub fn flipped(self) -> (r: Self)
        ensures
            r == self.opposite(),
            r != self,
    {
        match self {
            Color::White => Color::Black,
            Color::Black => Color::White,
        }
    }
}

/// Flipping a side twice gives the side back, and never leaves it unchanged.
pub proof fn lemma_flip_involutive(c: Color)
    ensures
        c.opposite().opposite() == c,
        c.opposite() != c,
        c.opposite().sign() == -c.sign(),
{
}

/// The kinds of figure.
#[derive(Copy, Clone, PartialEq, Eq, Debug, Structural)]
pub enum Figure {
    Pawn,
    Bishop,
    Knight,
    Rook,
    Queen,
    King,
}

impl Figure {
    /// The material value of a kind of figure.
    pub open spec fn value(self) -> int {
        match self {
            Figure::Pawn => 1,
            Figure::Bishop => 3,
            Figure::Knight => 3,
            Figure::Rook => 5,
            Figure::Queen => 9,
            Figure::King => 1000,
        }
    }
}

/// A figure of one side.
#[derive(Copy, Clone, PartialEq, Eq, Debug, Structural)]
pub struct Piece {
    pub color: Color,
    pub figure: Figure,
}

impl Piece {
    /// The material value of the piece, signed by its side.
    pub open spec fn spec_score(self) -> int {
        match self.color {
            Color::White => self.figure.value(),
            Color::Black => -self.figure.value(),
        }
    }

    /// The material value of the piece: positive for White, negative for
    /// Black.
    pub fn score(self) -> (r: Score)
        ensures
            r == self.spec_score(),
    {
        let score: i32 = match self.figure {
            Figure::Pawn => 1,
            Figure::Bishop => 3,
            Figure::Knight => 3,
            Figure::Rook => 5,
            Figure::Queen => 9,
            Figure::King => 1000,
        };
        score * (self.color.as_number() as i32)
    }
}

/// Whether a piece of side `color` stands on the square.
pub open spec fn is_ally(board: Board, color: Color, x: int, y: int) -> bool {
    match board.cell(x, y) {
        Some(p) => p.color == color,
        None => false,
    }
}

/// Whether a piece of the other side than `color` stands on the square.
pub open spec fn is_enemy(board: Board, color: Color, x: int, y: int) -> bool {
    match board.cell(x, y) {
        Some(p) => p.color != color,
        None => false,
    }
}

/// How many squares lie between (`x`, `y`) and the edge of the board in the
/// direction (`dx`, `dy`), counted along the first coordinate that moves.
pub open spec fn ray_room(x: int, y: int, dx: int, dy: int) -> int {
    if dx > 0 {
        8 - x
    } else if dx < 0 {
        x + 1
    } else if dy > 0 {
        8 - y
    } else {
        y + 1
    }
}

/// The squares that a sliding piece of side `color` reaches from (`x`, `y`)
/// in the direction (`dx`, `dy`), nearest first: the walk passes empty
/// squares, ends before an ally and at the edge, and ends on an enemy.
pub open spec fn ray(board: Board, color: Color, x: int, y: int, dx: int, dy: int) -> Seq<Pos>
    decreases ray_room(x, y, dx, dy),
{
    let nx = x + dx;
    let ny = y + dy;
    if (dx == 0 && dy == 0) || !on_board(nx, ny) || is_ally(board, color, nx, ny) {
        Seq::empty()
    } else if board.cell(nx, ny) is Some {
        seq![(nx as i8, ny as i8)]
    } else {
        seq![(nx as i8, ny as i8)] + ray(board, color, nx, ny, dx, dy)
    }
}

/// The square (`x`, `y`) as a single step's target: reached when it is on
/// the board and no ally stands there.
pub open spec fn step(board: Board, color: Color, x: int, y: int) -> Seq<Pos> {
    if on_board(x, y) && !is_ally(board, color, x, y) {
        seq![(x as i8, y as i8)]
    } else {
        Seq::empty()
    }
}

/// The square (`x`, `y`) as a pawn's capture: reached only when an enemy
/// stands there.
pub open spec fn capture(board: Board, color: Color, x: int, y: int) -> Seq<Pos> {
    if on_board(x, y) && is_enemy(board, color, x, y) {
        seq![(x as i8, y as i8)]
    } else {
        Seq::empty()
    }
}

/// The row step of a side's pawns: White walks towards row 0, Black
/// towards row 7.
pub open spec fn pawn_direction(color: Color) -> int {
    -color.sign()
}

/// The row on which a side's pawns start.
pub open spec fn pawn_home_row(color: Color) -> int {
    match color {
        Color::White => 6,
        Color::Black => 1,
    }
}

/// A pawn's moves straight ahead: one square if it is empty, and from the
/// home row a second one if that is empty too.
pub open spec fn pawn_advance(board: Board, color: Color, x: int, y: int) -> Seq<Pos> {
    let dy = pawn_direction(color);
    if on_board(x, y + dy) && board.cell(x, y + dy) is None {
        if y == pawn_home_row(color) && on_board(x, y + 2 * dy) && board.cell(x, y + 2 * dy)
            is None {
            seq![(x as i8, (y + dy) as i8), (x as i8, (y + 2 * dy) as i8)]
        } else {
            seq![(x as i8, (y + dy) as i8)]
        }
    } else {
        Seq::empty()
    }
}

/// The squares of a rook: its four straight rays, in a fixed order.
pub open spec fn rook_targets(board: Board, color: Color, x: int, y: int) -> Seq<Pos> {
    ray(board, color, x, y, 1, 0) + ray(board, color, x, y, -1, 0) + ray(board, color, x, y, 0, 1)
        + ray(board, color, x, y, 0, -1)
}

/// The squares of a bishop: its four diagonal rays, in a fixed order.
pub open spec fn bishop_targets(board: Board, color: Color, x: int, y: int) -> Seq<Pos> {
    ray(board, color, x, y, 1, 1) + ray(board, color, x, y, 1, -1) + ray(board, color, x, y, -1, 1)
        + ray(board, color, x, y, -1, -1)
}

/// The squares of a king: the eight squares around it, each as a single
/// step.
pub open spec fn king_targets(board: Board, color: Color, x: int, y: int) -> Seq<Pos> {
    step(board, color, x + 1, y) + step(board, color, x - 1, y) + step(board, color, x, y + 1)
        + step(board, color, x, y - 1) + step(board, color, x + 1, y + 1) + step(
        board,
        color,
        x + 1,
        y - 1,
    ) + step(board, color, x - 1, y + 1) + step(board, color, x - 1, y - 1)
}

/// The squares of a knight: its eight jumps, each as a single step.
pub open spec fn knight_targets(board: Board, color: Color, x: int, y: int) -> Seq<Pos> {
    step(board, color, x + 1, y + 2) + step(board, color, x - 1, y + 2) + step(
        board,
        color,
        x + 1,
        y - 2,
    ) + step(board, color, x - 1, y - 2) + step(board, color, x + 2, y + 1) + step(
        board,
        color,
        x - 2,
        y + 1,
    ) + step(board, color, x + 2, y - 1) + step(board, color, x - 2, y - 1)
}

/// The squares of a pawn: its moves straight ahead, then its captures to
/// the lower and to the higher column.
pub open spec fn pawn_targets(board: Board, color: Color, x: int, y: int) -> Seq<Pos> {
    let dy = pawn_direction(color);
    pawn_advance(board, color, x, y) + capture(board, color, x - 1, y + dy) + capture(
        board,
        color,
        x + 1,
        y + dy,
    )
}

/// Whether every square of `targets` is on the board and free of allies of
/// side `color`.
pub open spec fn targets_sound(board: Board, color: Color, targets: Seq<Pos>) -> bool {
    forall|i: int|
        0 <= i < targets.len() ==> pos_on_board(#[trigger] targets[i]) && !is_ally(
            board,
            color,
            targets[i].0 as int,
            targets[i].1 as int,
        )
}

proof fn lemma_sound_concat(board: Board, color: Color, a: Seq<Pos>, b: Seq<Pos>)
    requires
        targets_sound(board, color, a),
        targets_sound(board, color, b),
    ensures
        targets_sound(board, color, a + b),
{
    assert forall|i: int| 0 <= i < (a + b).len() implies pos_on_board(#[trigger] (a + b)[i])
        && !is_ally(board, color, (a + b)[i].0 as int, (a + b)[i].1 as int) by {
        if i < a.len() {
            assert((a + b)[i] == a[i]);
        } else {
            assert((a + b)[i] == b[i - a.len()]);
        }
    }
}

proof fn lemma_concat_eight(
    s: Seq<Pos>,
    a: Seq<Pos>,
    b: Seq<Pos>,
    c: Seq<Pos>,
    d: Seq<Pos>,
    e: Seq<Pos>,
    f: Seq<Pos>,
    g: Seq<Pos>,
    h: Seq<Pos>,
)
    ensures
        s + a + b + c + d + e + f + g + h == s + (a + b + c + d + e + f + g + h),
{
    assert(s + a + b + c + d + e + f + g + h =~= s + (a + b + c + d + e + f + g + h));
}

proof fn lemma_ray_sound(board: Board, color: Color, x: int, y: int, dx: int, dy: int)
    ensures
        targets_sound(board, color, ray(board, color, x, y, dx, dy)),
    decreases ray_room(x, y, dx, dy),
{
    let nx = x + dx;
    let ny = y + dy;
    if (dx == 0 && dy == 0) || !on_board(nx, ny) || is_ally(board, color, nx, ny) {
    } else if board.cell(nx, ny) is Some {
    } else {
        lemma_ray_sound(board, color, nx, ny, dx, dy);
        lemma_sound_concat(
            board,
            color,
            seq![(nx as i8, ny as i8)],
            ray(board, color, nx, ny, dx, dy),
        );
    }
}

/// The coordinate that lies `k` steps of `dx` from `x`.
pub open spec fn along(x: int, dx: int, k: int) -> int {
    x + k * dx
}

/// Whether a walk from (`x`, `y`) in the direction (`dx`, `dy`) passes over
/// its `j`-th square: a square of the board with nothing on it.
pub open spec fn passes(board: Board, x: int, y: int, dx: int, dy: int, j: int) -> bool {
    on_board(along(x, dx, j), along(y, dy, j)) && board.cell(along(x, dx, j), along(y, dy, j))
        is None
}

/// Whether a sliding piece of side `color` on (`x`, `y`) gets as far as the
/// `k`-th square in the direction (`dx`, `dy`): that square is on the board
/// and holds no ally, and every square before it is passed over.
pub open spec fn ray_reaches(
    board: Board,
    color: Color,
    x: int,
    y: int,
    dx: int,
    dy: int,
    k: int,
) -> bool {
    &&& k >= 1
    &&& on_board(along(x, dx, k), along(y, dy, k))
    &&& !is_ally(board, color, along(x, dx, k), along(y, dy, k))
    &&& forall|j: int| 1 <= j < k ==> #[trigger] passes(board, x, y, dx, dy, j)
}

proof fn lemma_along_shift(x: int, dx: int, k: int)
    ensures
        along(x + dx, dx, k) == along(x, dx, k + 1),
        along(x, dx, 1) == x + dx,
{
    assert(x + dx + k * dx == x + (k + 1) * dx) by (nonlinear_arith);
}

proof fn lemma_reaches_shift(
    board: Board,
    color: Color,
    x: int,
    y: int,
    dx: int,
    dy: int,
    k: int,
)
    requires
        k >= 1,
    ensures
        ray_reaches(board, color, x, y, dx, dy, k + 1) <==> (passes(board, x, y, dx, dy, 1)
            && ray_reaches(board, color, x + dx, y + dy, dx, dy, k)),
{
    lemma_along_shift(x, dx, k);
    lemma_along_shift(y, dy, k);
    if ray_reaches(board, color, x, y, dx, dy, k + 1) {
        assert(passes(board, x, y, dx, dy, 1));
        assert forall|j: int| 1 <= j < k implies #[trigger] passes(
            board,
            x + dx,
            y + dy,
            dx,
            dy,
            j,
        ) by {
            lemma_along_shift(x, dx, j);
            lemma_along_shift(y, dy, j);
            assert(passes(board, x, y, dx, dy, j + 1));
        }
    }
    if passes(board, x, y, dx, dy, 1) && ray_reaches(board, color, x + dx, y + dy, dx, dy, k) {
        assert forall|j: int| 1 <= j < k + 1 implies #[trigger] passes(board, x, y, dx, dy, j) by {
            if j > 1 {
                lemma_along_shift(x, dx, j - 1);
                lemma_along_shift(y, dy, j - 1);
                assert(passes(board, x + dx, y + dy, dx, dy, j - 1));
            }
        }
    }
}

/// What a ray holds, stated without the walk: its squares are, in order,
/// the first, second, ... square in its direction, each one reached in the
/// sense of `ray_reaches`, and no square beyond its last is reached.
pub proof fn lemma_ray_exact(board: Board, color: Color, x: int, y: int, dx: int, dy: int)
    requires
        !(dx == 0 && dy == 0),
    ensures
        forall|i: int|
            0 <= i < ray(board, color, x, y, dx, dy).len() ==> {
                &&& (#[trigger] ray(board, color, x, y, dx, dy)[i]) == (
                    along(x, dx, i + 1) as i8,
                    along(y, dy, i + 1) as i8,
                )
                &&& ray_reaches(board, color, x, y, dx, dy, i + 1)
            },
        forall|k: int| #[trigger]
            ray_reaches(board, color, x, y, dx, dy, k) ==> k <= ray(board, color, x, y, dx, dy).len(),
    decreases ray_room(x, y, dx, dy),
{
    let nx = x + dx;
    let ny = y + dy;
    let whole = ray(board, color, x, y, dx, dy);
    lemma_along_shift(x, dx, 0);
    lemma_along_shift(y, dy, 0);
    if !on_board(nx, ny) || is_ally(board, color, nx, ny) {
        assert forall|k: int| #[trigger]
            ray_reaches(board, color, x, y, dx, dy, k) implies k <= whole.len() by {
            if k > 1 {
                assert(passes(board, x, y, dx, dy, 1));
            }
        }
    } else if board.cell(nx, ny) is Some {
        assert(ray_reaches(board, color, x, y, dx, dy, 1));
        assert forall|k: int| #[trigger]
            ray_reaches(board, color, x, y, dx, dy, k) implies k <= whole.len() by {
            if k > 1 {
                assert(passes(board, x, y, dx, dy, 1));
            }
        }
    } else {
        let rest = ray(board, color, nx, ny, dx, dy);
        lemma_ray_exact(board, color, nx, ny, dx, dy);
        assert(passes(board, x, y, dx, dy, 1));
        assert forall|i: int| 0 <= i < whole.len() implies {
            &&& (#[trigger] whole[i]) == (along(x, dx, i + 1) as i8, along(y, dy, i + 1) as i8)
            &&& ray_reaches(board, color, x, y, dx, dy, i + 1)
        } by {
            if i == 0 {
                assert(ray_reaches(board, color, x, y, dx, dy, 1));
            } else {
                assert(whole[i] == rest[i - 1]);
                lemma_along_shift(x, dx, i);
                lemma_along_shift(y, dy, i);
                lemma_reaches_shift(board, color, x, y, dx, dy, i);
            }
        }
        assert forall|k: int| #[trigger]
            ray_reaches(board, color, x, y, dx, dy, k) implies k <= whole.len() by {
            if k > 1 {
                lemma_reaches_shift(board, color, x, y, dx, dy, k - 1);
            }
        }
    }
}

impl Piece {
    /// The squares that the piece reaches from `pos` on `board`, in the
    /// order in which they are produced. Only the rules of movement,
    /// blocking and capture count; the safety of a king does not.
    pub open spec fn spec_reachables(self, pos: Pos, board: Board) -> Seq<Pos> {
        let x = pos.0 as int;
        let y = pos.1 as int;
        match self.figure {
            Figure::Rook => rook_targets(board, self.color, x, y),
            Figure::Bishop => bishop_targets(board, self.color, x, y),
            Figure::Queen => rook_targets(board, self.color, x, y) + bishop_targets(
                board,
                self.color,
                x,
                y,
            ),
            Figure::King => king_targets(board, self.color, x, y),
            Figure::Knight => knight_targets(board, self.color, x, y),
            Figure::Pawn => pawn_targets(board, self.color, x, y),
        }
    }

    fn push_ray(self, pos: Pos, board: &Board, dx: i8, dy: i8, out: &mut Vec<Pos>)
        requires
            pos_on_board(pos),
            -1 <= dx <= 1,
            -1 <= dy <= 1,
        ensures
            final(out)@ == old(out)@ + ray(
                *board,
                self.color,
                pos.0 as int,
                pos.1 as int,
                dx as int,
                dy as int,
            ),
    {
        let ghost start = out@;
        let ghost whole = ray(*board, self.color, pos.0 as int, pos.1 as int, dx as int, dy as int);
        if dx == 0 && dy == 0 {
            assert(out@ =~= start + whole);
            return ;
        }
        let (mut x, mut y) = pos;
        loop
            invariant_except_break
                pos_on_board((x, y)),
                start + whole == out@ + ray(
                    *board,
                    self.color,
                    x as int,
                    y as int,
                    dx as int,
                    dy as int,
                ),
            invariant
                -1 <= dx <= 1,
                -1 <= dy <= 1,
                !(dx == 0 && dy == 0),
            ensures
                out@ == start + whole,
            decreases ray_room(x as int, y as int, dx as int, dy as int),
        {
            let ghost rest = ray(*board, self.color, x as int, y as int, dx as int, dy as int);
            let ghost sofar = out@;
            x += dx;
            y += dy;
            if !board.is_inside((x, y)) {
                assert(sofar + rest =~= sofar);
                break ;
            }
            match board.get((x, y)) {
                Some(piece) => {
                    if piece.color == self.color {
                        assert(sofar + rest =~= sofar);
                        break ;
                    } else {
                        out.push((x, y));
                        assert(sofar + rest =~= out@);
                        break ;
                    }
                },
                None => {},
            }
            out.push((x, y));
            assert(sofar + rest =~= out@ + ray(
                *board,
                self.color,
                x as int,
                y as int,
                dx as int,
                dy as int,
            ));
        }
    }

    fn push_step(self, pos: Pos, board: &Board, dx: i8, dy: i8, out: &mut Vec<Pos>)
        requires
            pos_on_board(pos),
            -2 <= dx <= 2,
            -2 <= dy <= 2,
        ensures
            final(out)@ == old(out)@ + step(*board, self.color, pos.0 + dx, pos.1 + dy),
    {
        let target = (pos.0 + dx, pos.1 + dy);
        if board.is_inside(target) {
            match board.get(target) {
                Some(piece) => {
                    if piece.color != self.color {
                        out.push(target);
                    }
                },
                None => {
                    out.push(target);
                },
            }
        }
        assert(out@ =~= old(out)@ + step(*board, self.color, pos.0 + dx, pos.1 + dy));
    }

    fn push_capture(self, pos: Pos, board: &Board, dx: i8, dy: i8, out: &mut Vec<Pos>)
        requires
            pos_on_board(pos),
            -1 <= dx <= 1,
            -1 <= dy <= 1,
        ensures
            final(out)@ == old(out)@ + capture(*board, self.color, pos.0 + dx, pos.1 + dy),
    {
        let target = (pos.0 + dx, pos.1 + dy);
        if board.is_inside(target) {
            match board.get(target) {
                Some(piece) => {
                    if piece.color != self.color {
                        out.push(target);
                    }
                },
                None => {},
            }
        }
        assert(out@ =~= old(out)@ + capture(*board, self.color, pos.0 + dx, pos.1 + dy));
    }

    fn push_advance(self, pos: Pos, board: &Board, out: &mut Vec<Pos>)
        requires
            pos_on_board(pos),
        ensures
            final(out)@ == old(out)@ + pawn_advance(
                *board,
                self.color,
                pos.0 as int,
                pos.1 as int,
            ),
    {
        let dy: i8 = match self.color {
            Color::White => -1,
            Color::Black => 1,
        };
        let home: i8 = match self.color {
            Color::White => 6,
            Color::Black => 1,
        };
        let target = (pos.0, pos.1 + dy);
        if board.is_inside(target) {
            if board.get(target).is_none() {
                out.push(target);
                if pos.1 == home {
                    let target = (pos.0, pos.1 + 2 * dy);
                    if board.is_inside(target) {
                        if board.get(target).is_none() {
                            out.push(target);
                        }
                    }
                }
            }
        }
        assert(out@ =~= old(out)@ + pawn_advance(
            *board,
            self.color,
            pos.0 as int,
            pos.1 as int,
        ));
    }

    fn push_rook(self, pos: Pos, board: &Board, out: &mut Vec<Pos>)
        requires
            pos_on_board(pos),
        ensures
            final(out)@ == old(out)@ + rook_targets(*board, self.color, pos.0 as int, pos.1 as int),
    {
        self.push_ray(pos, board, 1, 0, out);
        self.push_ray(pos, board, -1, 0, out);
        self.push_ray(pos, board, 0, 1, out);
        self.push_ray(pos, board, 0, -1, out);
        assert(out@ =~= old(out)@ + rook_targets(*board, self.color, pos.0 as int, pos.1 as int));
    }

    fn push_bishop(self, pos: Pos, board: &Board, out: &mut Vec<Pos>)
        requires
            pos_on_board(pos),
        ensures
            final(out)@ == old(out)@ + bishop_targets(*board, self.color, pos.0 as int, pos.1 as int),
    {
        self.push_ray(pos, board, 1, 1, out);
        self.push_ray(pos, board, 1, -1, out);
        self.push_ray(pos, board, -1, 1, out);
        self.push_ray(pos, board, -1, -1, out);
        assert(out@ =~= old(out)@ + bishop_targets(*board, self.color, pos.0 as int, pos.1 as int));
    }

    fn push_king(self, pos: Pos, board: &Board, out: &mut Vec<Pos>)
        requires
            pos_on_board(pos),
        ensures
            final(out)@ == old(out)@ + king_targets(*board, self.color, pos.0 as int, pos.1 as int),
    {
        self.push_step(pos, board, 1, 0, out);
        self.push_step(pos, board, -1, 0, out);
        self.push_step(pos, board, 0, 1, out);
        self.push_step(pos, board, 0, -1, out);
        self.push_step(pos, board, 1, 1, out);
        self.push_step(pos, board, 1, -1, out);
        self.push_step(pos, board, -1, 1, out);
        self.push_step(pos, board, -1, -1, out);
        proof {
            lemma_concat_eight(
                old(out)@,
                step(*board, self.color, pos.0 + 1, pos.1 + 0),
                step(*board, self.color, pos.0 - 1, pos.1 + 0),
                step(*board, self.color, pos.0 as int, pos.1 + 1),
                step(*board, self.color, pos.0 as int, pos.1 - 1),
                step(*board, self.color, pos.0 + 1, pos.1 + 1),
                step(*board, self.color, pos.0 + 1, pos.1 - 1),
                step(*board, self.color, pos.0 - 1, pos.1 + 1),
                step(*board, self.color, pos.0 - 1, pos.1 - 1),
            );
        }
    }

    fn push_knight(self, pos: Pos, board: &Board, out: &mut Vec<Pos>)
        requires
            pos_on_board(pos),
        ensures
            final(out)@ == old(out)@ + knight_targets(*board, self.color, pos.0 as int, pos.1 as int),
    {
        self.push_step(pos, board, 1, 2, out);
        self.push_step(pos, board, -1, 2, out);
        self.push_step(pos, board, 1, -2, out);
        self.push_step(pos, board, -1, -2, out);
        self.push_step(pos, board, 2, 1, out);
        self.push_step(pos, board, -2, 1, out);
        self.push_step(pos, board, 2, -1, out);
        self.push_step(pos, board, -2, -1, out);
        proof {
            lemma_concat_eight(
                old(out)@,
                step(*board, self.color, pos.0 + 1, pos.1 + 2),
                step(*board, self.color, pos.0 - 1, pos.1 + 2),
                step(*board, self.color, pos.0 + 1, pos.1 - 2),
                step(*board, self.color, pos.0 - 1, pos.1 - 2),
                step(*board, self.color, pos.0 + 2, pos.1 + 1),
                step(*board, self.color, pos.0 - 2, pos.1 + 1),
                step(*board, self.color, pos.0 + 2, pos.1 - 1),
                step(*board, self.color, pos.0 - 2, pos.1 - 1),
            );
        }
    }

    fn push_pawn(self, pos: Pos, board: &Board, out: &mut Vec<Pos>)
        requires
            pos_on_board(pos),
        ensures
            final(out)@ == old(out)@ + pawn_targets(*board, self.color, pos.0 as int, pos.1 as int),
    {
        let dy: i8 = match self.color {
            Color::White => -1,
            Color::Black => 1,
        };
        self.push_advance(pos, board, out);
        self.push_capture(pos, board, -1, dy, out);
        self.push_capture(pos, board, 1, dy, out);
        assert(out@ =~= old(out)@ + pawn_targets(*board, self.color, pos.0 as int, pos.1 as int));
    }

    /// Appends to `out` the squares that the piece reaches from `pos`.
    pub fn reachables(self, pos: Pos, board: &Board, out: &mut Vec<Pos>)
        requires
            pos_on_board(pos),
        ensures
            final(out)@ == old(out)@ + self.spec_reachables(pos, *board),
            targets_sound(*board, self.color, self.spec_reachables(pos, *board)),
    {
        proof {
            lemma_reachables_sound(self, pos, *board);
        }
        match self.figure {
            Figure::Rook => {
                self.push_rook(pos, board, out);
            },
            Figure::Bishop => {
                self.push_bishop(pos, board, out);
            },
            Figure::Queen => {
                self.push_rook(pos, board, out);
                self.push_bishop(pos, board, out);
                assert(out@ =~= old(out)@ + self.spec_reachables(pos, *board));
            },
            Figure::King => {
                self.push_king(pos, board, out);
            },
            Figure::Knight => {
                self.push_knight(pos, board, out);
            },
            Figure::Pawn => {
                self.push_pawn(pos, board, out);
            },
        }
    }

    /// The squares that the piece reaches from `pos`, as a fresh vector.
    pub fn reachables_collect(self, pos: Pos, board: &Board) -> (r: Vec<Pos>)
        requires
            pos_on_board(pos),
        ensures
            r@ == self.spec_reachables(pos, *board),
            targets_sound(*board, self.color, r@),
    {
        let mut result = Vec::new();
        self.reachables(pos, board, &mut result);
        assert(result@ =~= self.spec_reachables(pos, *board));
        result
    }
}

/// Every square that the generator gives for a piece is on the board, and
/// no piece of the mover's own side stands on it.
pub proof fn lemma_reachables_sound(piece: Piece, pos: Pos, board: Board)
    ensures
        targets_sound(board, piece.color, piece.spec_reachables(pos, board)),
{
    let c = piece.color;
    let x = pos.0 as int;
    let y = pos.1 as int;
    match piece.figure {
        Figure::Rook => {
            lemma_rook_sound(board, c, x, y);
        },
        Figure::Bishop => {
            lemma_bishop_sound(board, c, x, y);
        },
        Figure::Queen => {
            lemma_rook_sound(board, c, x, y);
            lemma_bishop_sound(board, c, x, y);
            lemma_sound_concat(board, c, rook_targets(board, c, x, y), bishop_targets(board, c, x, y));
        },
        Figure::King => {
            let s1 = step(board, c, x + 1, y);
            let s2 = s1 + step(board, c, x - 1, y);
            let s3 = s2 + step(board, c, x, y + 1);
            let s4 = s3 + step(board, c, x, y - 1);
            let s5 = s4 + step(board, c, x + 1, y + 1);
            let s6 = s5 + step(board, c, x + 1, y - 1);
            let s7 = s6 + step(board, c, x - 1, y + 1);
            lemma_sound_concat(board, c, s1, step(board, c, x - 1, y));
            lemma_sound_concat(board, c, s2, step(board, c, x, y + 1));
            lemma_sound_concat(board, c, s3, step(board, c, x, y - 1));
            lemma_sound_concat(board, c, s4, step(board, c, x + 1, y + 1));
            lemma_sound_concat(board, c, s5, step(board, c, x + 1, y - 1));
            lemma_sound_concat(board, c, s6, step(board, c, x - 1, y + 1));
            lemma_sound_concat(board, c, s7, step(board, c, x - 1, y - 1));
        },
        Figure::Knight => {
            let s1 = step(board, c, x + 1, y + 2);
            let s2 = s1 + step(board, c, x - 1, y + 2);
            let s3 = s2 + step(board, c, x + 1, y - 2);
            let s4 = s3 + step(board, c, x - 1, y - 2);
            let s5 = s4 + step(board, c, x + 2, y + 1);
            let s6 = s5 + step(board, c, x - 2, y + 1);
            let s7 = s6 + step(board, c, x + 2, y - 1);
            lemma_sound_concat(board, c, s1, step(board, c, x - 1, y + 2));
            lemma_sound_concat(board, c, s2, step(board, c, x + 1, y - 2));
            lemma_sound_concat(board, c, s3, step(board, c, x - 1, y - 2));
            lemma_sound_concat(board, c, s4, step(board, c, x + 2, y + 1));
            lemma_sound_concat(board, c, s5, step(board, c, x - 2, y + 1));
            lemma_sound_concat(board, c, s6, step(board, c, x + 2, y - 1));
            lemma_sound_concat(board, c, s7, step(board, c, x - 2, y - 1));
        },
        Figure::Pawn => {
            let dy = pawn_direction(c);
            let a = pawn_advance(board, c, x, y);
            let l = capture(board, c, x - 1, y + dy);
            let r = capture(board, c, x + 1, y + dy);
            lemma_sound_concat(board, c, a, l);
            lemma_sound_concat(board, c, a + l, r);
        },
    }
}

proof fn lemma_rook_sound(board: Board, c: Color, x: int, y: int)
    ensures
        targets_sound(board, c, rook_targets(board, c, x, y)),
{
    let r1 = ray(board, c, x, y, 1, 0);
    let r2 = ray(board, c, x, y, -1, 0);
    let r3 = ray(board, c, x, y, 0, 1);
    let r4 = ray(board, c, x, y, 0, -1);
    lemma_ray_sound(board, c, x, y, 1, 0);
    lemma_ray_sound(board, c, x, y, -1, 0);
    lemma_ray_sound(board, c, x, y, 0, 1);
    lemma_ray_sound(board, c, x, y, 0, -1);
    lemma_sound_concat(board, c, r1, r2);
    lemma_sound_concat(board, c, r1 + r2, r3);
    lemma_sound_concat(board, c, r1 + r2 + r3, r4);
}

proof fn lemma_bishop_sound(board: Board, c: Color, x: int, y: int)
    ensures
        targets_sound(board, c, bishop_targets(board, c, x, y)),
{
    let r1 = ray(board, c, x, y, 1, 1);
    let r2 = ray(board, c, x, y, 1, -1);
    let r3 = ray(board, c, x, y, -1, 1);
    let r4 = ray(board, c, x, y, -1, -1);
    lemma_ray_sound(board, c, x, y, 1, 1);
    lemma_ray_sound(board, c, x, y, 1, -1);
    lemma_ray_sound(board, c, x, y, -1, 1);
    lemma_ray_sound(board, c, x, y, -1, -1);
    lemma_sound_concat(board, c, r1, r2);
    lemma_sound_concat(board, c, r1 + r2, r3);
    lemma_sound_concat(board, c, r1 + r2 + r3, r4);
}

} // verus!
