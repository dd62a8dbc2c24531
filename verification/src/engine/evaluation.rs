use vstd::prelude::*;

use crate::rules::Color;
use crate::rules::board::Board;
use crate::rules::board::bitboards::{bitboard_squares, squares_of};
use crate::rules::board::positions::BoardPosition;
use crate::rules::pieces::piece_material_score;

verus! {

/// The material of the pieces on the first `n` of the listed squares.
pub open spec fn material_sum(pos: BoardPosition, squares: Seq<u8>, n: int) -> int
    decreases n,
{
    if n <= 0 || n > squares.len() {
        0
    } else {
        material_sum(pos, squares, n - 1) + match pos.occupant(squares[n - 1] as int) {
            Some(p) => piece_material_score(p),
            None => 0,
        }
    }
}

/// The squares holding a piece of either color, from a1 up.
pub open spec fn occupied_squares(board: Board) -> Seq<u8> {
    squares_of(board.position.color_board(Color::White) | board.position.color_board(Color::Black))
}

/// The boards whose material can be counted square by square: each occupied square holds a
/// piece, and no running total leaves the range of the score.
pub open spec fn evaluation_ok(board: Board) -> bool {
    let sq = occupied_squares(board);
    &&& forall|i: int| 0 <= i < sq.len() ==> board.position.occupant(#[trigger] sq[i] as int) is Some
    &&& forall|n: int| 0 <= n <= sq.len() ==> i16::MIN <= #[trigger] material_sum(board.position, sq, n) <= i16::MAX
}

/// The material balance of a board: the sum of the material scores of its pieces.
pub open spec fn evaluation(board: Board) -> int {
    material_sum(board.position, occupied_squares(board), occupied_squares(board).len() as int)
}

pub fn evaluate_board(board: &Board) -> (score: i16)
    requires
        evaluation_ok(*board),
    ensures
        score == evaluation(*board),
{
    let squares = bitboard_squares(board.position.get_all_piece_locations(Color::White) | board.position.get_all_piece_locations(Color::Black));
    let ghost sq = occupied_squares(*board);
    let mut score: i16 = 0;
    let mut i: usize = 0;
    proof { crate::rules::board::bitboards::lemma_squares_below(board.position.color_board(Color::White) | board.position.color_board(Color::Black), 64); }
    while i < squares.len()
        invariant
            squares@ == sq,
            sq == occupied_squares(*board),
            evaluation_ok(*board),
            i <= sq.len(),
            forall|j: int| 0 <= j < sq.len() ==> #[trigger] sq[j] < 64,
            score == material_sum(board.position, sq, i as int),
        decreases sq.len() - i,
    {
        let s = squares[i];
        assert(board.position.occupant(sq[i as int] as int) is Some);
        let piece = board.position.piece_at(&s).unwrap();
        assert(i16::MIN <= material_sum(board.position, sq, i + 1) <= i16::MAX);
        score = score + piece.material_score();
        i += 1;
    }
    score
}

} // verus!
