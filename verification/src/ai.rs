use vstd::prelude::*;

use crate::board::{initial_cell, on_board, pos_on_board, Board, Move, Pos, Score};
use crate::figures::{is_ally, lemma_reachables_sound, Color};
use rand::seq::SliceRandom;
use rayon::iter::{IntoParallelRefIterator, ParallelIterator};

verus! {

/// The material that stands on one square, signed by its side.
pub open spec fn cell_score(board: Board, x: int, y: int) -> int {
    match board.cell(x, y) {
        Some(piece) => piece.spec_score(),
        None => 0,
    }
}

/// The material on the first `n` squares, counted column by column.
pub open spec fn score_of_first(board: Board, n: nat) -> int
    decreases n,
{
    if n == 0 {
        0
    } else {
        score_of_first(board, (n - 1) as nat) + cell_score(board, (n - 1) / 8, (n - 1) % 8)
    }
}

/// The material balance of a board: the sum of the signed values of all
/// its pieces.
pub open spec fn spec_total_score(board: Board) -> int {
    score_of_first(board, 64)
}

/// The largest magnitude that a material balance can have.
pub open spec fn score_bound() -> int {
    64000
}

proof fn lemma_cell_score_bound(board: Board, x: int, y: int)
    ensures
        -1000 <= cell_score(board, x, y) <= 1000,
{
}

/// A board in the starting arrangement has a material balance of zero: the
/// empty rows contribute nothing, and the two sides' pieces cancel.
pub proof fn lemma_initial_score(board: Board)
    requires
        forall|x: int, y: int| on_board(x, y) ==> #[trigger] board.cell(x, y) == initial_cell(x, y),
    ensures
        spec_total_score(board) == 0,
{
    lemma_initial_columns(board, 8);
}

proof fn lemma_initial_columns(board: Board, x: nat)
    requires
        x <= 8,
        forall|i: int, j: int| on_board(i, j) ==> #[trigger] board.cell(i, j) == initial_cell(i, j),
    ensures
        score_of_first(board, 8 * x) == 0,
    decreases x,
{
    if x > 0 {
        let c = (x - 1) as nat;
        lemma_initial_columns(board, c);
        let b = 8 * c;
        assert(score_of_first(board, b + 8) == score_of_first(board, b) + cell_score(
            board,
            c as int,
            0,
        ) + cell_score(board, c as int, 1) + cell_score(board, c as int, 2) + cell_score(
            board,
            c as int,
            3,
        ) + cell_score(board, c as int, 4) + cell_score(board, c as int, 5) + cell_score(
            board,
            c as int,
            6,
        ) + cell_score(board, c as int, 7)) by {
            reveal_with_fuel(score_of_first, 9);
            assert(b / 8 == c && (b + 1) / 8 == c && (b + 2) / 8 == c && (b + 3) / 8 == c && (b
                + 4) / 8 == c && (b + 5) / 8 == c && (b + 6) / 8 == c && (b + 7) / 8 == c);
            assert(b % 8 == 0 && (b + 1) % 8 == 1 && (b + 2) % 8 == 2 && (b + 3) % 8 == 3 && (b
                + 4) % 8 == 4 && (b + 5) % 8 == 5 && (b + 6) % 8 == 6 && (b + 7) % 8 == 7);
        }
        assert(board.cell(c as int, 0) == initial_cell(c as int, 0));
        assert(board.cell(c as int, 1) == initial_cell(c as int, 1));
        assert(board.cell(c as int, 2) == initial_cell(c as int, 2));
        assert(board.cell(c as int, 3) == initial_cell(c as int, 3));
        assert(board.cell(c as int, 4) == initial_cell(c as int, 4));
        assert(board.cell(c as int, 5) == initial_cell(c as int, 5));
        assert(board.cell(c as int, 6) == initial_cell(c as int, 6));
        assert(board.cell(c as int, 7) == initial_cell(c as int, 7));
    }
}

/// The material balance of `board`. Positive: good for White; negative:
/// good for Black.
pub fn total_score(board: &Board) -> (r: Score)
    ensures
        r == spec_total_score(*board),
        -score_bound() <= r <= score_bound(),
{
    let mut total: Score = 0;
    let mut x: usize = 0;
    while x < 8
        invariant
            x <= 8,
            total == score_of_first(*board, (x * 8) as nat),
            -1000 * (x * 8) <= total <= 1000 * (x * 8),
        decreases 8 - x,
    {
        let mut y: usize = 0;
        while y < 8
            invariant
                x < 8,
                y <= 8,
                total == score_of_first(*board, (x * 8 + y) as nat),
                -1000 * (x * 8 + y) <= total <= 1000 * (x * 8 + y),
            decreases 8 - y,
        {
            proof {
                lemma_cell_score_bound(*board, x as int, y as int);
                assert((x * 8 + y) / 8 == x && (x * 8 + y) % 8 == y);
            }
            match board.0[x][y] {
                Some(piece) => {
                    total = total + piece.score();
                },
                None => {},
            }
            y += 1;
        }
        x += 1;
    }
    total
}

/// Whether a move is one that the rules of movement allow side `color` on
/// `board`: a piece of that side stands on the source, and the destination
/// is a square of the board that holds no piece of that side.
pub open spec fn is_pseudo_legal(board: Board, color: Color, mov: Move) -> bool {
    &&& pos_on_board(mov.from)
    &&& pos_on_board(mov.to)
    &&& is_ally(board, color, mov.from.0 as int, mov.from.1 as int)
    &&& !is_ally(board, color, mov.to.0 as int, mov.to.1 as int)
}

/// The moves from `from` to each of `targets`, in their order.
pub open spec fn moves_to(from: Pos, targets: Seq<Pos>) -> Seq<Move> {
    Seq::new(targets.len(), |i: int| Move { from, to: targets[i] })
}

/// The moves of side `color` that start on the square (`x`, `y`): those of
/// the piece that stands there, if it is of that side.
pub open spec fn moves_from(board: Board, color: Color, x: int, y: int) -> Seq<Move> {
    match board.cell(x, y) {
        Some(piece) => if piece.color == color {
            moves_to((x as i8, y as i8), piece.spec_reachables((x as i8, y as i8), board))
        } else {
            Seq::empty()
        },
        None => Seq::empty(),
    }
}

/// The moves of side `color` that start on one of the first `n` squares,
/// counted row by row.
pub open spec fn moves_of_first(board: Board, color: Color, n: nat) -> Seq<Move>
    decreases n,
{
    if n == 0 {
        Seq::empty()
    } else {
        moves_of_first(board, color, (n - 1) as nat) + moves_from(
            board,
            color,
            (n - 1) % 8,
            (n - 1) / 8,
        )
    }
}

/// All moves of side `color` on `board`, square by square.
pub open spec fn spec_all_moves(board: Board, color: Color) -> Seq<Move> {
    moves_of_first(board, color, 64)
}

proof fn lemma_moves_of_first_legal(board: Board, color: Color, n: nat)
    requires
        n <= 64,
    ensures
        forall|i: int|
            0 <= i < moves_of_first(board, color, n).len() ==> is_pseudo_legal(
                board,
                color,
                #[trigger] moves_of_first(board, color, n)[i],
            ),
    decreases n,
{
    if n > 0 {
        let k = (n - 1) as nat;
        let x = k as int % 8;
        let y = k as int / 8;
        lemma_moves_of_first_legal(board, color, k);
        let head = moves_of_first(board, color, k);
        let tail = moves_from(board, color, x, y);
        assert forall|i: int| 0 <= i < (head + tail).len() implies is_pseudo_legal(
            board,
            color,
            #[trigger] (head + tail)[i],
        ) by {
            if i < head.len() {
                assert((head + tail)[i] == head[i]);
            } else {
                let j = i - head.len();
                assert((head + tail)[i] == tail[j]);
                let piece = board.cell(x, y).unwrap();
                let from = (x as i8, y as i8);
                lemma_reachables_sound(piece, from, board);
                let targets = piece.spec_reachables(from, board);
                assert(tail[j] == Move { from, to: targets[j] });
                assert(pos_on_board(targets[j]));
            }
        }
    }
}

/// Every move that the generator gives a side starts on a piece of that
/// side and ends on a square of the board that holds no piece of that side.
pub proof fn lemma_all_moves_legal(board: Board, color: Color)
    ensures
        forall|i: int|
            0 <= i < spec_all_moves(board, color).len() ==> is_pseudo_legal(
                board,
                color,
                #[trigger] spec_all_moves(board, color)[i],
            ),
{
    lemma_moves_of_first_legal(board, color, 64);
}

/// Whether `mov` is a move of a piece of side `color` to one of the squares
/// that this piece reaches.
pub open spec fn is_generated(board: Board, color: Color, mov: Move) -> bool {
    &&& pos_on_board(mov.from)
    &&& match board.at(mov.from) {
        Some(piece) => piece.color == color && piece.spec_reachables(mov.from, board).contains(
            mov.to,
        ),
        None => false,
    }
}

proof fn lemma_moves_from_members(board: Board, color: Color, x: int, y: int, mov: Move)
    requires
        on_board(x, y),
    ensures
        moves_from(board, color, x, y).contains(mov) <==> (mov.from == (x as i8, y as i8)
            && is_generated(board, color, mov)),
{
    let from = (x as i8, y as i8);
    let list = moves_from(board, color, x, y);
    match board.cell(x, y) {
        Some(piece) => {
            if piece.color == color {
                let targets = piece.spec_reachables(from, board);
                if list.contains(mov) {
                    let i = choose|i: int| 0 <= i < list.len() && list[i] == mov;
                    assert(targets[i] == mov.to);
                }
                if mov.from == from && is_generated(board, color, mov) {
                    let i = choose|i: int| 0 <= i < targets.len() && targets[i] == mov.to;
                    assert(list[i] == mov);
                }
            }
        },
        None => {},
    }
}

proof fn lemma_moves_of_first_members(board: Board, color: Color, n: nat, mov: Move)
    requires
        n <= 64,
    ensures
        moves_of_first(board, color, n).contains(mov) <==> (is_generated(board, color, mov) && 0
            <= mov.from.1 * 8 + mov.from.0 < n),
    decreases n,
{
    if n > 0 {
        let k = (n - 1) as nat;
        let x = k as int % 8;
        let y = k as int / 8;
        let head = moves_of_first(board, color, k);
        let tail = moves_from(board, color, x, y);
        lemma_moves_of_first_members(board, color, k, mov);
        lemma_moves_from_members(board, color, x, y, mov);
        if (head + tail).contains(mov) {
            let i = choose|i: int| 0 <= i < (head + tail).len() && (head + tail)[i] == mov;
            if i < head.len() {
                assert(head[i] == mov);
            } else {
                assert(tail[i - head.len()] == mov);
            }
        }
        if head.contains(mov) {
            let i = choose|i: int| 0 <= i < head.len() && head[i] == mov;
            assert((head + tail)[i] == mov);
        }
        if tail.contains(mov) {
            let i = choose|i: int| 0 <= i < tail.len() && tail[i] == mov;
            assert((head + tail)[head.len() + i] == mov);
        }
    }
}

/// The generator gives a side exactly the moves of its own pieces: a move
/// is among them if and only if a piece of that side stands on its source
/// and reaches its destination.
pub proof fn lemma_all_moves_members(board: Board, color: Color, mov: Move)
    ensures
        spec_all_moves(board, color).contains(mov) <==> is_generated(board, color, mov),
{
    lemma_moves_of_first_members(board, color, 64, mov);
}

fn push_moves_from(board: &Board, whose_turn: Color, from: Pos, result: &mut Vec<Move>)
    requires
        pos_on_board(from),
    ensures
        final(result)@ == old(result)@ + moves_from(
            *board,
            whose_turn,
            from.0 as int,
            from.1 as int,
        ),
{
    match board.get(from) {
        Some(piece) => {
            if piece.color == whose_turn {
                let targets = piece.reachables_collect(from, board);
                let mut i: usize = 0;
                while i < targets.len()
                    invariant
                        i <= targets.len(),
                        result@ == old(result)@ + moves_to(from, targets@.take(i as int)),
                    decreases targets.len() - i,
                {
                    result.push(Move { from, to: targets[i] });
                    assert(result@ =~= old(result)@ + moves_to(from, targets@.take(i + 1)));
                    i += 1;
                }
                assert(targets@.take(i as int) =~= targets@);
            } else {
                assert(result@ =~= old(result)@ + Seq::<Move>::empty());
            }
        },
        None => {
            assert(result@ =~= old(result)@ + Seq::<Move>::empty());
        },
    }
}

/// The moves of `whose_turn` on `board`: for each square in turn, row by
/// row, one move per square that the piece on it reaches.
pub fn get_all_possible_moves(board: &Board, whose_turn: Color) -> (r: Vec<Move>)
    ensures
        r@ == spec_all_moves(*board, whose_turn),
        forall|i: int| 0 <= i < r@.len() ==> is_pseudo_legal(*board, whose_turn, #[trigger] r@[i]),
{
    let mut result = Vec::new();
    let mut y: i8 = 0;
    while y < 8
        invariant
            0 <= y <= 8,
            result@ == moves_of_first(*board, whose_turn, (y * 8) as nat),
        decreases 8 - y,
    {
        let mut x: i8 = 0;
        while x < 8
            invariant
                0 <= y < 8,
                0 <= x <= 8,
                result@ == moves_of_first(*board, whose_turn, (y * 8 + x) as nat),
            decreases 8 - x,
        {
            proof {
                assert((y * 8 + x) / 8 == y && (y * 8 + x) % 8 == x);
            }
            push_moves_from(board, whose_turn, (x, y), &mut result);
            x += 1;
        }
        y += 1;
    }
    proof {
        lemma_all_moves_legal(*board, whose_turn);
        assert forall|i: int| 0 <= i < result@.len() implies is_pseudo_legal(
            *board,
            whose_turn,
            #[trigger] result@[i],
        ) by {
            assert(result@[i] == spec_all_moves(*board, whose_turn)[i]);
        }
    }
    result
}

/// The score that stands for a side without a reply: the worst for the
/// side that should reply.
pub open spec fn no_reply_score(replier: Color) -> int {
    match replier {
        Color::White => -10000,
        Color::Black => 10000,
    }
}

/// The better of two scores for side `color`: the larger for White, the
/// smaller for Black.
pub open spec fn better_for(color: Color, a: int, b: int) -> int {
    match color {
        Color::White => if a >= b {
            a
        } else {
            b
        },
        Color::Black => if a <= b {
            a
        } else {
            b
        },
    }
}

/// The score of playing `mov` as side `color` and then looking `depth`
/// further plies ahead, each side answering with what suits it best.
pub open spec fn spec_future_score(board: Board, mov: Move, depth: nat, color: Color) -> int
    decreases depth, 0nat, 0nat,
{
    let next = board.after_move(mov);
    if depth == 0 {
        spec_total_score(next)
    } else {
        let replier = color.opposite();
        reply_score(next, replier, (depth - 1) as nat, spec_all_moves(next, replier).len())
    }
}

/// The best that side `replier` gets out of the first `n` of its moves on
/// `board`, each followed to `depth` further plies; the score of having no
/// reply when `n` is zero.
pub open spec fn reply_score(board: Board, replier: Color, depth: nat, n: nat) -> int
    decreases depth, 1nat, n,
{
    if n == 0 {
        no_reply_score(replier)
    } else {
        let last = spec_future_score(
            board,
            spec_all_moves(board, replier)[n - 1],
            depth,
            replier,
        );
        if n == 1 {
            last
        } else {
            better_for(replier, reply_score(board, replier, depth, (n - 1) as nat), last)
        }
    }
}

/// The score of playing `mov` as side `whose_turn` and looking
/// `look_ahead` plies ahead: the material balance right after the move when
/// `look_ahead` is zero, else the best that the other side can make of its
/// replies.
pub fn calculate_future_score(board: &Board, mov: Move, look_ahead: usize, whose_turn: Color) -> (r:
    Score)
    requires
        board.can_apply(mov),
    ensures
        r == spec_future_score(*board, mov, look_ahead as nat, whose_turn),
        -score_bound() <= r <= score_bound(),
    decreases look_ahead,
{
    let mut copy = board.clone();
    copy.do_move(mov);
    if look_ahead == 0 {
        return total_score(&copy);
    }
    let replier = whose_turn.flipped();
    let moves = get_all_possible_moves(&copy, replier);
    if moves.len() == 0 {
        return match replier {
            Color::White => -10_000,
            Color::Black => 10_000,
        };
    }
    let mut best = calculate_future_score(&copy, moves[0], look_ahead - 1, replier);
    let mut i: usize = 1;
    while i < moves.len()
        invariant
            1 <= i <= moves.len(),
            look_ahead > 0,
            moves@ == spec_all_moves(copy, replier),
            forall|k: int| 0 <= k < moves@.len() ==> is_pseudo_legal(copy, replier, #[trigger] moves@[k]),
            best == reply_score(copy, replier, (look_ahead - 1) as nat, i as nat),
            -score_bound() <= best <= score_bound(),
        decreases moves.len() - i,
    {
        let score = calculate_future_score(&copy, moves[i], look_ahead - 1, replier);
        match replier {
            Color::White => {
                if score > best {
                    best = score;
                }
            },
            Color::Black => {
                if score < best {
                    best = score;
                }
            },
        }
        i += 1;
    }
    best
}

/// A score seen from side `color`: as it is for White, negated for Black,
/// so that larger is better for that side.
pub open spec fn seen_from(color: Color, score: int) -> int {
    match color {
        Color::White => score,
        Color::Black => -score,
    }
}

/// The side that answers picks the reply that suits it best: the score over
/// its first `n` replies is the score of one of them, and seen from that
/// side none of them scores higher.
pub proof fn lemma_reply_score_extremum(board: Board, replier: Color, depth: nat, n: nat)
    requires
        1 <= n <= spec_all_moves(board, replier).len(),
    ensures
        exists|i: int|
            0 <= i < n && reply_score(board, replier, depth, n) == #[trigger] spec_future_score(
                board,
                spec_all_moves(board, replier)[i],
                depth,
                replier,
            ),
        forall|i: int|
            0 <= i < n ==> seen_from(
                replier,
                #[trigger] spec_future_score(
                    board,
                    spec_all_moves(board, replier)[i],
                    depth,
                    replier,
                ),
            ) <= seen_from(replier, reply_score(board, replier, depth, n)),
    decreases n,
{
    let moves = spec_all_moves(board, replier);
    let last = spec_future_score(board, moves[n - 1], depth, replier);
    if n > 1 {
        let m = (n - 1) as nat;
        lemma_reply_score_extremum(board, replier, depth, m);
        let w = choose|i: int|
            0 <= i < m && reply_score(board, replier, depth, m) == #[trigger] spec_future_score(
                board,
                moves[i],
                depth,
                replier,
            );
        if reply_score(board, replier, depth, n) == last {
            assert(spec_future_score(board, moves[n - 1], depth, replier) == last);
        } else {
            assert(reply_score(board, replier, depth, n) == spec_future_score(
                board,
                moves[w],
                depth,
                replier,
            ));
        }
    } else {
        assert(reply_score(board, replier, depth, n) == last);
    }
}

/// The score of a first move of side `color`, seen from that side.
pub open spec fn root_score(board: Board, mov: Move, depth: nat, color: Color) -> int {
    seen_from(color, spec_future_score(board, mov, depth, color))
}

/// The scores of all first moves of side `color`, each seen from that
/// side, in the order of the moves.
pub open spec fn root_scores(board: Board, depth: nat, color: Color) -> Seq<int> {
    Seq::new(
        spec_all_moves(board, color).len(),
        |i: int| root_score(board, spec_all_moves(board, color)[i], depth, color),
    )
}

/// A list of scores as mathematical integers.
pub open spec fn as_ints(scores: Seq<Score>) -> Seq<int> {
    Seq::new(scores.len(), |i: int| scores[i] as int)
}

/// Whether `i` is the place of a largest score.
pub open spec fn is_best_index(scores: Seq<int>, i: int) -> bool {
    &&& 0 <= i < scores.len()
    &&& forall|j: int| 0 <= j < scores.len() ==> #[trigger] scores[j] <= scores[i]
}

/// The moves among which the engine chooses: those first moves of side
/// `color` whose score, seen from that side, no other first move exceeds.
pub open spec fn is_best_move(board: Board, color: Color, depth: nat, mov: Move) -> bool {
    exists|i: int|
        is_best_index(root_scores(board, depth, color), i) && mov == #[trigger] spec_all_moves(
            board,
            color,
        )[i]
}

proof fn lemma_largest_of_first(scores: Seq<int>, n: nat) -> (i: int)
    requires
        1 <= n <= scores.len(),
    ensures
        0 <= i < n,
        forall|j: int| 0 <= j < n ==> #[trigger] scores[j] <= scores[i],
    decreases n,
{
    if n == 1 {
        0
    } else {
        let before = lemma_largest_of_first(scores, (n - 1) as nat);
        if scores[before] >= scores[n - 1] {
            before
        } else {
            n - 1
        }
    }
}

/// A side that has a move has a best move.
pub proof fn lemma_best_move_exists(board: Board, color: Color, depth: nat)
    requires
        spec_all_moves(board, color).len() > 0,
    ensures
        exists|mov: Move| is_best_move(board, color, depth, mov),
{
    let scores = root_scores(board, depth, color);
    let i = lemma_largest_of_first(scores, scores.len());
    assert(is_best_index(scores, i));
    assert(is_best_move(board, color, depth, spec_all_moves(board, color)[i]));
}

/// Every best move is one of the side's own moves, as the generator gives
/// them.
pub proof fn lemma_best_move_generated(board: Board, color: Color, depth: nat, mov: Move)
    requires
        is_best_move(board, color, depth, mov),
    ensures
        is_generated(board, color, mov),
        is_pseudo_legal(board, color, mov),
{
    let i = choose|i: int|
        is_best_index(root_scores(board, depth, color), i) && mov == #[trigger] spec_all_moves(
            board,
            color,
        )[i];
    assert(spec_all_moves(board, color).contains(mov));
    lemma_all_moves_members(board, color, mov);
    lemma_all_moves_legal(board, color);
}

/// The score of the first move `mov` of side `whose_turn`, seen from that
/// side.
pub fn root_branch_score(board: &Board, mov: Move, look_ahead: usize, whose_turn: Color) -> (r:
    Score)
    requires
        board.can_apply(mov),
    ensures
        r == root_score(*board, mov, look_ahead as nat, whose_turn),
{
    let score = calculate_future_score(board, mov, look_ahead, whose_turn);
    score * (whose_turn.as_number() as Score)
}

/// The places of the largest of `scores`, in rising order.
pub fn best_indices(scores: &Vec<Score>) -> (r: Vec<usize>)
    ensures
        forall|k: int| 0 <= k < r@.len() ==> is_best_index(as_ints(scores@), #[trigger] r@[k] as int),
        forall|i: int| #[trigger]
            is_best_index(as_ints(scores@), i) ==> exists|k: int|
                0 <= k < r@.len() && #[trigger] r@[k] == i,
        forall|j: int, k: int| 0 <= j < k < r@.len() ==> r@[j] < r@[k],
        r@.len() == 0 <==> scores@.len() == 0,
{
    let ghost values = as_ints(scores@);
    let mut result: Vec<usize> = Vec::new();
    if scores.len() == 0 {
        return result;
    }
    let mut max_score = scores[0];
    let mut i: usize = 1;
    while i < scores.len()
        invariant
            1 <= i <= scores.len(),
            forall|j: int| 0 <= j < i ==> #[trigger] scores@[j] <= max_score,
            exists|j: int| 0 <= j < i && scores@[j] == max_score,
        decreases scores.len() - i,
    {
        if scores[i] > max_score {
            max_score = scores[i];
        }
        i += 1;
    }
    let mut i: usize = 0;
    while i < scores.len()
        invariant
            i <= scores.len(),
            values == as_ints(scores@),
            forall|j: int| 0 <= j < scores@.len() ==> #[trigger] scores@[j] <= max_score,
            exists|j: int| 0 <= j < scores@.len() && scores@[j] == max_score,
            forall|k: int| 0 <= k < result@.len() ==> #[trigger] result@[k] < i && scores@[result@[k] as int] == max_score,
            forall|j: int|
                0 <= j < i && scores@[j] == max_score ==> exists|k: int|
                    0 <= k < result@.len() && #[trigger] result@[k] == j,
            forall|j: int, k: int| 0 <= j < k < result@.len() ==> result@[j] < result@[k],
        decreases scores.len() - i,
    {
        if scores[i] == max_score {
            let ghost before = result@;
            result.push(i);
            assert forall|j: int| 0 <= j < i + 1 && scores@[j] == max_score implies exists|k: int|
                0 <= k < result@.len() && #[trigger] result@[k] == j by {
                if j < i {
                    let k0 = choose|k: int| 0 <= k < before.len() && #[trigger] before[k] == j;
                    assert(result@[k0] == j);
                } else {
                    assert(result@[result@.len() - 1] == j);
                }
            }
        }
        i += 1;
    }
    proof {
        let w = choose|j: int| 0 <= j < scores@.len() && scores@[j] == max_score;
        let kw = choose|k: int| 0 <= k < result@.len() && #[trigger] result@[k] == w;
        assert forall|k: int| 0 <= k < result@.len() implies is_best_index(
            values,
            #[trigger] result@[k] as int,
        ) by {
            let t = result@[k] as int;
            assert forall|j: int| 0 <= j < values.len() implies #[trigger] values[j] <= values[t] by {
                assert(scores@[j] <= max_score);
            }
        }
        assert forall|i: int| #[trigger] is_best_index(values, i) implies exists|k: int|
            0 <= k < result@.len() && #[trigger] result@[k] == i by {
            assert(values[w] <= values[i]);
            assert(scores@[i] == max_score);
        }
    }
    result
}

/// The move at the chosen place, if a place was chosen and the list has it.
pub fn pick_move(moves: &Vec<Move>, choice: Option<usize>) -> (r: Option<Move>)
    ensures
        r == match choice {
            Some(i) => if i < moves@.len() {
                Some(moves@[i as int])
            } else {
                None
            },
            None => None,
        },
{
    match choice {
        Some(i) => {
            if i < moves.len() {
                Some(moves[i])
            } else {
                None
            }
        },
        None => None,
    }
}

/// One of `candidates`, picked at random by `rand`'s
/// `SliceRandom::choose` with the thread's generator: nothing when the
/// list is empty, else some element of it. Which one is not stated.
#[verifier::external_body]
fn choose_index(candidates: &Vec<usize>) -> (r: Option<usize>)
    ensures
        candidates@.len() == 0 ==> r is None,
        candidates@.len() > 0 ==> (r is Some && candidates@.contains(r.unwrap())),
{
    candidates.choose(&mut rand::thread_rng()).copied()
}

/// The scores of the first moves, worked out side by side by `rayon`'s
/// `par_iter().map(..).collect()`: the result has one score per move, in the
/// order of the moves, each being what `root_branch_score` returns for that
/// move.
#[verifier::external_body]
fn parallel_root_scores(board: &Board, moves: &Vec<Move>, look_ahead: usize, whose_turn: Color) -> (r:
    Vec<Score>)
    requires
        forall|i: int| 0 <= i < moves@.len() ==> board.can_apply(#[trigger] moves@[i]),
    ensures
        r@.len() == moves@.len(),
        forall|i: int|
            0 <= i < moves@.len() ==> #[trigger] r@[i] == root_score(
                *board,
                moves@[i],
                look_ahead as nat,
                whose_turn,
            ),
{
    moves.par_iter().map(|&mov| root_branch_score(board, mov, look_ahead, whose_turn)).collect()
}

/// The move that is best for `whose_turn` when every line is followed
/// `max_look_ahead` plies beyond the move; among several best moves, one
/// picked at random. Nothing when `whose_turn` has no move.
pub fn calculate_best_move(board: &Board, whose_turn: Color, max_look_ahead: usize) -> (r: Option<
    Move,
>)
    ensures
        r is None <==> spec_all_moves(*board, whose_turn).len() == 0,
        r is Some ==> is_best_move(*board, whose_turn, max_look_ahead as nat, r.unwrap()),
{
    let moves = get_all_possible_moves(board, whose_turn);
    let scores = parallel_root_scores(board, &moves, max_look_ahead, whose_turn);
    let candidates = best_indices(&scores);
    let choice = choose_index(&candidates);
    let picked = pick_move(&moves, choice);
    proof {
        let values = as_ints(scores@);
        assert(values =~= root_scores(*board, max_look_ahead as nat, whose_turn));
        if choice is Some {
            let c = choice.unwrap();
            let k = choose|k: int| 0 <= k < candidates@.len() && candidates@[k] == c;
            assert(is_best_index(values, candidates@[k] as int));
        }
    }
    picked
}

} // verus!
