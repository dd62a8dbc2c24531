use vstd::prelude::*;
use vstd::std_specs::bits::{u64_trailing_zeros, u64_leading_zeros};

use crate::rules::Color;
use super::squares::BoardSquare;
use crate::rules::pieces::{Piece, PieceType};
use crate::rules::pieces::movement::{Move, PieceMovement, Capture, move_capture, move_movements, CastleType};

use super::bits::{bit, group_bits, lemma_bits_ext};
use super::bitboards::{get_bit_for_square, set_bit_at_square, unset_bit_at_square, get_knight_bitboard, get_pawn_bitboard,
    get_diagonal_bitboard, get_orthagonal_bitboard, get_ray_bitboard, first_blocker, slider_hits, slider_attacks,
    lemma_no_attacker_on_rays, shift_hits, knight_shifts, pawn_board_has, pawn_attack_for, diagonal_dirs, orthagonal_dirs,
    ray_first, first_on_ray, on_ray, ray_before, lemma_ray_first_is, path_board, lemma_path_board_is, lemma_ray_split,
    bitboard_squares, squares_of, king_shifts, PieceSquare, ray_square, board_where, holds_exactly, lemma_board_where_is};
use super::bits::lemma_zero_iff_empty;
use crate::rules::pieces::movement::{SlideDirection, PawnMovement, dir_step};

verus! {

broadcast use group_bits;

/// Where the pieces stand: one bitboard per color and one per piece type.
#[derive(Copy, Clone, PartialEq, Eq, Structural)]
pub struct BoardPosition {
    pub white_pieces: u64,
    pub black_pieces: u64,
    pub pawns: u64,
    pub knights: u64,
    pub bishops: u64,
    pub rooks: u64,
    pub queens: u64,
    pub kings: u64,
}

impl Default for BoardPosition {
    fn default() -> (p: Self)
        ensures
            p == BoardPosition::empty(),
    {
        BoardPosition {
            white_pieces: 0,
            black_pieces: 0,
            pawns: 0,
            knights: 0,
            bishops: 0,
            rooks: 0,
            queens: 0,
            kings: 0,
        }
    }
}

/// 1 when `b` holds, 0 otherwise.
pub open spec fn count(b: bool) -> int {
    if b { 1 } else { 0 }
}

impl BoardPosition {
    /// The position without any piece.
    pub open spec fn empty() -> BoardPosition {
        BoardPosition {
            white_pieces: 0,
            black_pieces: 0,
            pawns: 0,
            knights: 0,
            bishops: 0,
            rooks: 0,
            queens: 0,
            kings: 0,
        }
    }

    /// The bitboard of one color.
    pub open spec fn color_board(self, c: Color) -> u64 {
        match c {
            Color::White => self.white_pieces,
            Color::Black => self.black_pieces,
        }
    }

    /// The bitboard of one piece type.
    pub open spec fn type_board(self, t: PieceType) -> u64 {
        match t {
            PieceType::Pawn => self.pawns,
            PieceType::Knight => self.knights,
            PieceType::Bishop => self.bishops,
            PieceType::Rook => self.rooks,
            PieceType::Queen => self.queens,
            PieceType::King => self.kings,
        }
    }

    /// The squares of the pieces of one color and type.
    pub open spec fn locations(self, c: Color, t: PieceType) -> u64 {
        self.color_board(c) & self.type_board(t)
    }

    /// The color found on a square, white taking precedence.
    pub open spec fn color_at(self, s: int) -> Option<Color> {
        if bit(self.white_pieces, s) {
            Some(Color::White)
        } else if bit(self.black_pieces, s) {
            Some(Color::Black)
        } else {
            None
        }
    }

    /// The piece type found on a square, the lower types taking precedence.
    pub open spec fn type_at(self, s: int) -> Option<PieceType> {
        if bit(self.pawns, s) {
            Some(PieceType::Pawn)
        } else if bit(self.knights, s) {
            Some(PieceType::Knight)
        } else if bit(self.bishops, s) {
            Some(PieceType::Bishop)
        } else if bit(self.rooks, s) {
            Some(PieceType::Rook)
        } else if bit(self.queens, s) {
            Some(PieceType::Queen)
        } else if bit(self.kings, s) {
            Some(PieceType::King)
        } else {
            None
        }
    }

    /// The piece on a square: there is one where both a color and a type are found.
    pub open spec fn occupant(self, s: int) -> Option<Piece> {
        match (self.color_at(s), self.type_at(s)) {
            (Some(c), Some(t)) => Some(Piece { color: c, piece_type: t }),
            _ => None,
        }
    }

    /// A square holds at most one color and one type, and a color exactly when a type.
    pub open spec fn square_consistent(self, s: int) -> bool {
        let nc = count(bit(self.white_pieces, s)) + count(bit(self.black_pieces, s));
        let nt = count(bit(self.pawns, s)) + count(bit(self.knights, s)) + count(bit(self.bishops, s))
            + count(bit(self.rooks, s)) + count(bit(self.queens, s)) + count(bit(self.kings, s));
        nc <= 1 && nc == nt
    }

    /// Every square of the position is consistent.
    pub open spec fn wf(self) -> bool {
        forall|s: int| 0 <= s < 64 ==> #[trigger] self.square_consistent(s)
    }

    /// The position with the bits of `p` set on square `s`.
    pub open spec fn with_piece(self, s: int, p: Piece) -> BoardPosition {
        let m = 1u64 << (s as u64);
        let c = match p.color {
            Color::White => BoardPosition { white_pieces: self.white_pieces | m, ..self },
            Color::Black => BoardPosition { black_pieces: self.black_pieces | m, ..self },
        };
        match p.piece_type {
            PieceType::Pawn => BoardPosition { pawns: c.pawns | m, ..c },
            PieceType::Knight => BoardPosition { knights: c.knights | m, ..c },
            PieceType::Bishop => BoardPosition { bishops: c.bishops | m, ..c },
            PieceType::Rook => BoardPosition { rooks: c.rooks | m, ..c },
            PieceType::Queen => BoardPosition { queens: c.queens | m, ..c },
            PieceType::King => BoardPosition { kings: c.kings | m, ..c },
        }
    }

    /// The position with the bits of `p` cleared on square `s`.
    pub open spec fn without_piece(self, s: int, p: Piece) -> BoardPosition {
        let m = !(1u64 << (s as u64));
        let c = match p.color {
            Color::White => BoardPosition { white_pieces: self.white_pieces & m, ..self },
            Color::Black => BoardPosition { black_pieces: self.black_pieces & m, ..self },
        };
        match p.piece_type {
            PieceType::Pawn => BoardPosition { pawns: c.pawns & m, ..c },
            PieceType::Knight => BoardPosition { knights: c.knights & m, ..c },
            PieceType::Bishop => BoardPosition { bishops: c.bishops & m, ..c },
            PieceType::Rook => BoardPosition { rooks: c.rooks & m, ..c },
            PieceType::Queen => BoardPosition { queens: c.queens & m, ..c },
            PieceType::King => BoardPosition { kings: c.kings & m, ..c },
        }
    }

    /// A piece placed on an empty square is found there, and nothing else changes.
    #[verifier::spinoff_prover]
    #[verifier::rlimit(40)]
    pub proof fn lemma_with_piece(self, s: int, p: Piece)
        requires
            self.wf(),
            0 <= s < 64,
            self.occupant(s) is None,
        ensures
            self.with_piece(s, p).wf(),
            forall|t: int| #[trigger] self.with_piece(s, p).occupant(t) == if t == s { Some(p) } else { self.occupant(t) },
    {
        let n = self.with_piece(s, p);
        assert(self.square_consistent(s));
        assert forall|t: int| 0 <= t < 64 implies #[trigger] n.square_consistent(t) by {
            assert(self.square_consistent(t));
        }
        assert forall|t: int| #[trigger] n.occupant(t) == if t == s { Some(p) } else { self.occupant(t) } by {
            if 0 <= t < 64 {
                assert(self.square_consistent(t));
            }
        }
    }

    /// A piece taken off its square leaves it empty, and nothing else changes.
    #[verifier::spinoff_prover]
    #[verifier::rlimit(40)]
    pub proof fn lemma_without_piece(self, s: int, p: Piece)
        requires
            self.wf(),
            0 <= s < 64,
            self.occupant(s) == Some(p),
        ensures
            self.without_piece(s, p).wf(),
            forall|t: int| #[trigger] self.without_piece(s, p).occupant(t) == if t == s { None } else { self.occupant(t) },
    {
        let n = self.without_piece(s, p);
        assert(self.square_consistent(s));
        assert forall|t: int| 0 <= t < 64 implies #[trigger] n.square_consistent(t) by {
            assert(self.square_consistent(t));
        }
        assert forall|t: int| #[trigger] n.occupant(t) == if t == s { None } else { self.occupant(t) } by {
            if 0 <= t < 64 {
                assert(self.square_consistent(t));
            }
        }
    }

    /// Two well-formed positions with the same pieces on the same squares are equal.
    pub proof fn lemma_occupant_ext(self, other: BoardPosition)
        requires
            self.wf(),
            other.wf(),
            forall|t: int| 0 <= t < 64 ==> #[trigger] self.occupant(t) == other.occupant(t),
        ensures
            self == other,
    {
        assert forall|t: int| 0 <= t < 64 implies #[trigger] bit(self.white_pieces, t) == bit(other.white_pieces, t) by {
            assert(self.square_consistent(t));
            assert(other.square_consistent(t));
            assert(self.occupant(t) == other.occupant(t));
        }
        assert forall|t: int| 0 <= t < 64 implies #[trigger] bit(self.black_pieces, t) == bit(other.black_pieces, t) by {
            assert(self.square_consistent(t));
            assert(other.square_consistent(t));
            assert(self.occupant(t) == other.occupant(t));
        }
        assert forall|t: int| 0 <= t < 64 implies #[trigger] bit(self.pawns, t) == bit(other.pawns, t) by {
            assert(self.square_consistent(t));
            assert(other.square_consistent(t));
            assert(self.occupant(t) == other.occupant(t));
        }
        assert forall|t: int| 0 <= t < 64 implies #[trigger] bit(self.knights, t) == bit(other.knights, t) by {
            assert(self.square_consistent(t));
            assert(other.square_consistent(t));
            assert(self.occupant(t) == other.occupant(t));
        }
        assert forall|t: int| 0 <= t < 64 implies #[trigger] bit(self.bishops, t) == bit(other.bishops, t) by {
            assert(self.square_consistent(t));
            assert(other.square_consistent(t));
            assert(self.occupant(t) == other.occupant(t));
        }
        assert forall|t: int| 0 <= t < 64 implies #[trigger] bit(self.rooks, t) == bit(other.rooks, t) by {
            assert(self.square_consistent(t));
            assert(other.square_consistent(t));
            assert(self.occupant(t) == other.occupant(t));
        }
        assert forall|t: int| 0 <= t < 64 implies #[trigger] bit(self.queens, t) == bit(other.queens, t) by {
            assert(self.square_consistent(t));
            assert(other.square_consistent(t));
            assert(self.occupant(t) == other.occupant(t));
        }
        assert forall|t: int| 0 <= t < 64 implies #[trigger] bit(self.kings, t) == bit(other.kings, t) by {
            assert(self.square_consistent(t));
            assert(other.square_consistent(t));
            assert(self.occupant(t) == other.occupant(t));
        }
        lemma_bits_ext(self.white_pieces, other.white_pieces);
        lemma_bits_ext(self.black_pieces, other.black_pieces);
        lemma_bits_ext(self.pawns, other.pawns);
        lemma_bits_ext(self.knights, other.knights);
        lemma_bits_ext(self.bishops, other.bishops);
        lemma_bits_ext(self.rooks, other.rooks);
        lemma_bits_ext(self.queens, other.queens);
        lemma_bits_ext(self.kings, other.kings);
    }
}


/// The piece that a movement moves.
pub open spec fn movement_piece(m: PieceMovement) -> Piece {
    Piece { color: m.color, piece_type: m.piece_type }
}

/// The position after each movement of `ms` in turn: the piece is taken off its start
/// square and put on its end square.
pub open spec fn moved_all(p: BoardPosition, ms: Seq<PieceMovement>) -> BoardPosition
    decreases ms.len(),
{
    if ms.len() == 0 {
        p
    } else {
        let q = moved_all(p, ms.drop_last());
        let m = ms.last();
        q.without_piece(m.start_square as int, movement_piece(m)).with_piece(m.end_square as int, movement_piece(m))
    }
}

/// The position after each movement of `ms` in turn is undone: the piece is taken off its end
/// square and put back on its start square.
pub open spec fn unmoved_all(p: BoardPosition, ms: Seq<PieceMovement>) -> BoardPosition
    decreases ms.len(),
{
    if ms.len() == 0 {
        p
    } else {
        let q = unmoved_all(p, ms.drop_last());
        let m = ms.last();
        q.without_piece(m.end_square as int, movement_piece(m)).with_piece(m.start_square as int, movement_piece(m))
    }
}

/// Every square that a move names is on the board.
pub open spec fn move_squares_valid(m: Move) -> bool {
    &&& (move_capture(m) matches Some(c) ==> c.square < 64)
    &&& forall|i: int| 0 <= i < move_movements(m).len() ==> #[trigger] move_movements(m)[i].start_square < 64 && move_movements(m)[i].end_square < 64
}

impl BoardPosition {
    /// The position once `m` is applied: the captured piece is taken off, then the pieces move;
    /// a promoted pawn leaves its start square and the new piece appears on the end square.
    pub open spec fn applied(self, m: Move) -> BoardPosition {
        let p = match move_capture(m) {
            Some(c) => self.without_piece(c.square as int, Piece { color: c.color, piece_type: c.piece_type }),
            None => self,
        };
        match m {
            Move::Promotion(pr) => p.without_piece(pr.basic_move.start as int, pr.basic_move.piece).with_piece(
                pr.basic_move.end as int, Piece { color: pr.basic_move.piece.color, piece_type: pr.promote_to }),
            _ => moved_all(p, move_movements(m)),
        }
    }

    /// The position once `m` is taken back: the captured piece is put back, then the pieces
    /// return; a promoted piece leaves the end square and the pawn reappears on its start square.
    pub open spec fn unapplied(self, m: Move) -> BoardPosition {
        let p = match move_capture(m) {
            Some(c) => self.with_piece(c.square as int, Piece { color: c.color, piece_type: c.piece_type }),
            None => self,
        };
        match m {
            Move::Promotion(pr) => p.without_piece(pr.basic_move.end as int, Piece { color: pr.basic_move.piece.color, piece_type: pr.promote_to }).with_piece(
                pr.basic_move.start as int, pr.basic_move.piece),
            _ => unmoved_all(p, move_movements(m)),
        }
    }

    pub fn find_king(&self, color: Color) -> (s: u8)
        ensures
            s == self.locations(color, PieceType::King).trailing_zeros(),
            s == self.king_square(color),
    {
        self.get_piece_locations(color, PieceType::King).trailing_zeros() as u8
    }

    pub fn get_piece_locations(&self, color: Color, piece_type: PieceType) -> (b: u64)
        ensures
            b == self.locations(color, piece_type),
    {
        let color_board = match color {
            Color::White => self.white_pieces,
            Color::Black => self.black_pieces,
        };
        let piece_board = match piece_type {
            PieceType::Pawn => self.pawns,
            PieceType::Knight => self.knights,
            PieceType::Bishop => self.bishops,
            PieceType::Rook => self.rooks,
            PieceType::Queen => self.queens,
            PieceType::King => self.kings,
        };
        color_board & piece_board
    }

    pub fn get_diagonal_slider_locations(&self, color: Color) -> (b: u64)
        ensures
            b == self.color_board(color) & (self.bishops | self.queens),
    {
        let color_board = match color {
            Color::White => self.white_pieces,
            Color::Black => self.black_pieces,
        };
        color_board & (self.bishops | self.queens)
    }

    pub fn get_orthagonal_slider_locations(&self, color: Color) -> (b: u64)
        ensures
            b == self.color_board(color) & (self.rooks | self.queens),
    {
        let color_board = match color {
            Color::White => self.white_pieces,
            Color::Black => self.black_pieces,
        };
        color_board & (self.rooks | self.queens)
    }

    pub fn get_all_piece_locations(&self, color: Color) -> (b: u64)
        ensures
            b == self.color_board(color),
    {
        match color {
            Color::White => self.white_pieces,
            Color::Black => self.black_pieces,
        }
    }

    pub fn piece_at(&self, square: &u8) -> (p: Option<Piece>)
        requires
            *square < 64,
        ensures
            p == self.occupant(*square as int),
    {
        let square_bit = get_bit_for_square(*square);
        let color = if square_bit & self.white_pieces > 0 {
            Color::White
        } else if square_bit & self.black_pieces > 0 {
            Color::Black
        } else {
            proof { self.lemma_bit_test(*square as int, self.white_pieces); self.lemma_bit_test(*square as int, self.black_pieces); }
            return None;
        };
        proof {
            self.lemma_bit_test(*square as int, self.white_pieces);
            self.lemma_bit_test(*square as int, self.black_pieces);
            self.lemma_bit_test(*square as int, self.pawns);
            self.lemma_bit_test(*square as int, self.knights);
            self.lemma_bit_test(*square as int, self.bishops);
            self.lemma_bit_test(*square as int, self.rooks);
            self.lemma_bit_test(*square as int, self.queens);
            self.lemma_bit_test(*square as int, self.kings);
        }
        let piece_type = if square_bit & self.pawns > 0 {
            PieceType::Pawn
        } else if square_bit & self.knights > 0 {
            PieceType::Knight
        } else if square_bit & self.bishops > 0 {
            PieceType::Bishop
        } else if square_bit & self.rooks > 0 {
            PieceType::Rook
        } else if square_bit & self.queens > 0 {
            PieceType::Queen
        } else if square_bit & self.kings > 0 {
            PieceType::King
        } else {
            return None;
        };
        Some(Piece { color: color, piece_type: piece_type })
    }

    /// Masking a board with a single square is nonzero exactly when the square is set.
    /// In a well-formed position, a square holds a piece of a color and type exactly when the
    /// bitboard of that color and type has the square's bit, and holds nothing exactly when
    /// neither color's bitboard has it.
    pub proof fn lemma_occupant_bitboards(self, s: int, c: Color, t: PieceType)
        requires
            self.wf(),
            0 <= s < 64,
        ensures
            (self.occupant(s) == Some(Piece { color: c, piece_type: t })) == ((self.locations(c, t) & (1u64 << (s as u64))) != 0),
            (self.occupant(s) is None)
                == (((self.color_board(Color::White) | self.color_board(Color::Black)) & (1u64 << (s as u64))) == 0),
    {
        broadcast use super::bits::group_bits;
        assert(self.square_consistent(s));
        let m = 1u64 << (s as u64);
        let l = self.locations(c, t);
        let o = self.color_board(Color::White) | self.color_board(Color::Black);
        self.lemma_bit_test(s, l);
        self.lemma_bit_test(s, o);
        assert(((l & m) != 0) == ((m & l) > 0)) by (bit_vector);
        assert(((o & m) == 0) == !((m & o) > 0)) by (bit_vector);
        assert(bit(l, s) == (bit(self.color_board(c), s) && bit(self.type_board(t), s)));
        assert(bit(o, s) == (bit(self.white_pieces, s) || bit(self.black_pieces, s)));
    }

    proof fn lemma_bit_test(&self, s: int, b: u64)
        requires
            0 <= s < 64,
        ensures
            ((1u64 << (s as u64)) & b > 0) == bit(b, s),
    {
        let t = s as u64;
        assert((((1u64 << t) & b) > 0) == (((b >> t) & 1u64) == 1u64)) by (bit_vector)
            requires t < 64;
    }

    fn insert_piece(&mut self, square: u8, piece: Piece)
        requires
            square < 64,
        ensures
            *final(self) == old(self).with_piece(square as int, piece),
    {
        self.insert_piece_into_boards(square, piece);
    }

    fn insert_piece_into_boards(&mut self, square: u8, piece: Piece)
        requires
            square < 64,
        ensures
            *final(self) == old(self).with_piece(square as int, piece),
    {
        match piece.color {
            Color::White => self.white_pieces = set_bit_at_square(self.white_pieces, square),
            Color::Black => self.black_pieces = set_bit_at_square(self.black_pieces, square),
        }
        match piece.piece_type {
            PieceType::Pawn => self.pawns = set_bit_at_square(self.pawns, square),
            PieceType::Knight => self.knights = set_bit_at_square(self.knights, square),
            PieceType::Bishop => self.bishops = set_bit_at_square(self.bishops, square),
            PieceType::Rook => self.rooks = set_bit_at_square(self.rooks, square),
            PieceType::Queen => self.queens = set_bit_at_square(self.queens, square),
            PieceType::King => self.kings = set_bit_at_square(self.kings, square),
        }
    }

    fn remove_piece(&mut self, square: u8, piece: Piece)
        requires
            square < 64,
        ensures
            *final(self) == old(self).without_piece(square as int, piece),
    {
        self.remove_piece_from_boards(square, piece);
    }

    fn remove_piece_from_boards(&mut self, square: u8, piece: Piece)
        requires
            square < 64,
        ensures
            *final(self) == old(self).without_piece(square as int, piece),
    {
        match piece.color {
            Color::White => self.white_pieces = unset_bit_at_square(self.white_pieces, square),
            Color::Black => self.black_pieces = unset_bit_at_square(self.black_pieces, square),
        }
        match piece.piece_type {
            PieceType::Pawn => self.pawns = unset_bit_at_square(self.pawns, square),
            PieceType::Knight => self.knights = unset_bit_at_square(self.knights, square),
            PieceType::Bishop => self.bishops = unset_bit_at_square(self.bishops, square),
            PieceType::Rook => self.rooks = unset_bit_at_square(self.rooks, square),
            PieceType::Queen => self.queens = unset_bit_at_square(self.queens, square),
            PieceType::King => self.kings = unset_bit_at_square(self.kings, square),
        }
    }

    fn move_piece(&mut self, start: u8, end: u8, piece: Piece)
        requires
            start < 64,
            end < 64,
        ensures
            *final(self) == old(self).without_piece(start as int, piece).with_piece(end as int, piece),
    {
        self.remove_piece(start, piece);
        self.insert_piece(end, piece);
    }

    pub fn apply_move(&mut self, new_move: &Move)
        requires
            move_squares_valid(*new_move),
        ensures
            *final(self) == old(self).applied(*new_move),
    {
        if let Some(capture) = new_move.get_capture() {
            self.remove_piece(capture.square, capture.get_piece());
        }
        let ghost p0 = *self;
        if let Move::Promotion(p) = new_move {
            assert(move_movements(*new_move)[0].start_square < 64);
            self.remove_piece(p.basic_move.start, p.basic_move.piece);
            self.insert_piece(p.basic_move.end, Piece { color: p.basic_move.piece.color, piece_type: p.promote_to });
        } else {
            let movements = new_move.get_piece_movements();
            let mut i: usize = 0;
            while i < movements.len()
                invariant
                    movements@ == move_movements(*new_move),
                    move_squares_valid(*new_move),
                    i <= movements@.len(),
                    *self == moved_all(p0, movements@.take(i as int)),
                decreases movements@.len() - i,
            {
                let movement = movements[i];
                assert(movements@.take(i + 1).drop_last() =~= movements@.take(i as int));
                assert(move_movements(*new_move)[i as int].start_square < 64);
                assert(movements@[i as int].start_square < 64 && movements@[i as int].end_square < 64);
                self.move_piece(movement.start_square, movement.end_square, movement.get_piece());
                i += 1;
            }
            assert(movements@.take(movements@.len() as int) =~= movements@);
        }
    }

    pub fn unapply_move(&mut self, old_move: &Move)
        requires
            move_squares_valid(*old_move),
        ensures
            *final(self) == old(self).unapplied(*old_move),
    {
        if let Some(capture) = old_move.get_capture() {
            self.insert_piece(capture.square, capture.get_piece());
        }
        let ghost p0 = *self;
        if let Move::Promotion(p) = old_move {
            assert(move_movements(*old_move)[0].start_square < 64);
            self.remove_piece(p.basic_move.end, Piece { color: p.basic_move.piece.color, piece_type: p.promote_to });
            self.insert_piece(p.basic_move.start, p.basic_move.piece);
        } else {
            let movements = old_move.get_piece_movements();
            let mut i: usize = 0;
            while i < movements.len()
                invariant
                    movements@ == move_movements(*old_move),
                    move_squares_valid(*old_move),
                    i <= movements@.len(),
                    *self == unmoved_all(p0, movements@.take(i as int)),
                decreases movements@.len() - i,
            {
                let movement = movements[i];
                assert(movements@.take(i + 1).drop_last() =~= movements@.take(i as int));
                assert(move_movements(*old_move)[i as int].start_square < 64);
                assert(movements@[i as int].start_square < 64 && movements@[i as int].end_square < 64);
                self.move_piece(movement.end_square, movement.start_square, movement.get_piece());
                i += 1;
            }
            assert(movements@.take(movements@.len() as int) =~= movements@);
        }
    }
}


impl BoardPosition {
    /// A piece put on a square that holds a piece of another color and type, after which the
    /// square's old piece is taken off, leaves the new piece there and nothing else changed.
    #[verifier::spinoff_prover]
    #[verifier::rlimit(40)]
    pub proof fn lemma_replace_piece(self, s: int, p: Piece, q: Piece)
        requires
            self.wf(),
            0 <= s < 64,
            self.occupant(s) == Some(q),
            p.color != q.color,
            p.piece_type != q.piece_type,
        ensures
            self.with_piece(s, p).without_piece(s, q).wf(),
            forall|t: int| #[trigger] self.with_piece(s, p).without_piece(s, q).occupant(t) == if t == s { Some(p) } else { self.occupant(t) },
    {
        let n = self.with_piece(s, p).without_piece(s, q);
        assert(self.square_consistent(s));
        assert forall|t: int| 0 <= t < 64 implies #[trigger] n.square_consistent(t) by {
            assert(self.square_consistent(t));
        }
        assert forall|t: int| #[trigger] n.occupant(t) == if t == s { Some(p) } else { self.occupant(t) } by {
            if 0 <= t < 64 {
                assert(self.square_consistent(t));
            }
        }
    }

    /// A move fits a position when its pieces stand where it says, its end squares are empty
    /// (or hold what it captures), and its squares are distinct squares of the board.
    pub open spec fn move_fits(self, m: Move) -> bool {
        match m {
            Move::NewGame(_) => true,
            Move::BasicMove(b) => b.start < 64 && b.end < 64 && b.start != b.end
                && self.occupant(b.start as int) == Some(b.piece) && self.occupant(b.end as int) == b.capture,
            Move::TwoSquarePawnMove(t) => t.basic_move.start < 64 && t.basic_move.end < 64 && t.basic_move.start != t.basic_move.end
                && self.occupant(t.basic_move.start as int) == Some(t.basic_move.piece)
                && self.occupant(t.basic_move.end as int) == t.basic_move.capture,
            Move::Promotion(p) => p.basic_move.start < 64 && p.basic_move.end < 64 && p.basic_move.start != p.basic_move.end
                && self.occupant(p.basic_move.start as int) == Some(p.basic_move.piece)
                && self.occupant(p.basic_move.end as int) == p.basic_move.capture,
            Move::EnPassant(e) => e.basic_move.start < 64 && e.basic_move.end < 64 && e.capture_square < 64
                && e.basic_move.start != e.basic_move.end && e.capture_square != e.basic_move.start
                && e.capture_square != e.basic_move.end
                && self.occupant(e.basic_move.start as int) == Some(e.basic_move.piece)
                && self.occupant(e.basic_move.end as int) is None
                && self.occupant(e.capture_square as int) == e.basic_move.capture,
            Move::Castle(c) => c.king_start < 64 && c.king_end < 64 && c.rook_start < 64 && c.rook_end < 64
                && c.king_start != c.king_end && c.king_start != c.rook_start && c.king_start != c.rook_end
                && c.king_end != c.rook_start && c.king_end != c.rook_end && c.rook_start != c.rook_end
                && self.occupant(c.king_start as int) == Some(Piece { color: c.color, piece_type: PieceType::King })
                && self.occupant(c.rook_start as int) == Some(Piece { color: c.color, piece_type: PieceType::Rook })
                && self.occupant(c.king_end as int) is None && self.occupant(c.rook_end as int) is None,
        }
    }

    /// What stands on square `t` once a fitting move is made.
    pub open spec fn occupant_after(self, m: Move, t: int) -> Option<Piece> {
        match m {
            Move::NewGame(_) => self.occupant(t),
            Move::BasicMove(b) => if t == b.end { Some(b.piece) } else if t == b.start { None } else { self.occupant(t) },
            Move::TwoSquarePawnMove(tw) => if t == tw.basic_move.end { Some(tw.basic_move.piece) }
                else if t == tw.basic_move.start { None } else { self.occupant(t) },
            Move::Promotion(p) => if t == p.basic_move.end { Some(Piece { color: p.basic_move.piece.color, piece_type: p.promote_to }) }
                else if t == p.basic_move.start { None } else { self.occupant(t) },
            Move::EnPassant(e) => if t == e.basic_move.end { Some(e.basic_move.piece) }
                else if t == e.basic_move.start || t == e.capture_square { None } else { self.occupant(t) },
            Move::Castle(c) => if t == c.king_end { Some(Piece { color: c.color, piece_type: PieceType::King }) }
                else if t == c.rook_end { Some(Piece { color: c.color, piece_type: PieceType::Rook }) }
                else if t == c.king_start || t == c.rook_start { None } else { self.occupant(t) },
        }
    }

    /// The piece that a move leaves on the square where it captures, when that square is its end
    /// square: the moving piece, or the piece a pawn promotes to.
    pub open spec fn lands_on_capture(m: Move) -> Option<Piece> {
        match m {
            Move::BasicMove(b) => Some(b.piece),
            Move::TwoSquarePawnMove(t) => Some(t.basic_move.piece),
            Move::Promotion(p) => Some(Piece { color: p.basic_move.piece.color, piece_type: p.promote_to }),
            _ => None,
        }
    }

    /// A fitting move leaves a well-formed position in which its pieces have moved.
    pub proof fn lemma_applied(self, m: Move)
        requires
            self.wf(),
            self.move_fits(m),
        ensures
            self.applied(m).wf(),
            forall|t: int| 0 <= t < 64 ==> #[trigger] self.applied(m).occupant(t) == self.occupant_after(m, t),
    {
        reveal_with_fuel(moved_all, 3);
        match m {
            Move::NewGame(_) => {
                assert(move_movements(m) =~= seq![]);
            },
            Move::BasicMove(b) => {
                let p0 = match b.capture { Some(cp) => self.without_piece(b.end as int, cp), None => self };
                if let Some(cp) = b.capture { self.lemma_without_piece(b.end as int, cp); }
                let p1 = p0.without_piece(b.start as int, b.piece);
                p0.lemma_without_piece(b.start as int, b.piece);
                p1.lemma_with_piece(b.end as int, b.piece);
                assert(move_movements(m).drop_last() =~= seq![]);
            },
            Move::TwoSquarePawnMove(tw) => {
                let b = tw.basic_move;
                let p0 = match b.capture { Some(cp) => self.without_piece(b.end as int, cp), None => self };
                if let Some(cp) = b.capture { self.lemma_without_piece(b.end as int, cp); }
                let p1 = p0.without_piece(b.start as int, b.piece);
                p0.lemma_without_piece(b.start as int, b.piece);
                p1.lemma_with_piece(b.end as int, b.piece);
                assert(move_movements(m).drop_last() =~= seq![]);
            },
            Move::Promotion(pr) => {
                let b = pr.basic_move;
                let p0 = match b.capture { Some(cp) => self.without_piece(b.end as int, cp), None => self };
                if let Some(cp) = b.capture { self.lemma_without_piece(b.end as int, cp); }
                let p1 = p0.without_piece(b.start as int, b.piece);
                p0.lemma_without_piece(b.start as int, b.piece);
                p1.lemma_with_piece(b.end as int, Piece { color: b.piece.color, piece_type: pr.promote_to });
            },
            Move::EnPassant(e) => {
                let b = e.basic_move;
                let p0 = match b.capture { Some(cp) => self.without_piece(e.capture_square as int, cp), None => self };
                if let Some(cp) = b.capture { self.lemma_without_piece(e.capture_square as int, cp); }
                let p1 = p0.without_piece(b.start as int, b.piece);
                p0.lemma_without_piece(b.start as int, b.piece);
                p1.lemma_with_piece(b.end as int, b.piece);
                assert(move_movements(m).drop_last() =~= seq![]);
            },
            Move::Castle(c) => {
                let k = Piece { color: c.color, piece_type: PieceType::King };
                let r = Piece { color: c.color, piece_type: PieceType::Rook };
                let p1 = self.without_piece(c.king_start as int, k);
                self.lemma_without_piece(c.king_start as int, k);
                let p2 = p1.with_piece(c.king_end as int, k);
                p1.lemma_with_piece(c.king_end as int, k);
                let p3 = p2.without_piece(c.rook_start as int, r);
                p2.lemma_without_piece(c.rook_start as int, r);
                p3.lemma_with_piece(c.rook_end as int, r);
                assert(move_movements(m).drop_last() =~= seq![move_movements(m)[0]]);
                assert(move_movements(m).drop_last().drop_last() =~= seq![]);
            },
        }
    }

    /// The piece a move captures on its end square differs in color and in type from the piece
    /// it leaves there.
    pub open spec fn capture_unlike_landed(m: Move) -> bool {
        match (move_capture(m), Self::lands_on_capture(m)) {
            (Some(c), Some(l)) => c.color != l.color && c.piece_type != l.piece_type,
            _ => true,
        }
    }

    proof fn lemma_undo_castle(self, m: Move)
        requires
            self.wf(),
            self.move_fits(m),
            m is Castle,
        ensures
            self.applied(m).unapplied(m) == self,
    {
        reveal_with_fuel(moved_all, 3);
        reveal_with_fuel(unmoved_all, 3);
        self.lemma_applied(m);
        let a = self.applied(m);
        let c = m->Castle_0;
        let k = Piece { color: c.color, piece_type: PieceType::King };
        let r = Piece { color: c.color, piece_type: PieceType::Rook };
        assert(move_movements(m).drop_last() =~= seq![move_movements(m)[0]]);
        assert(move_movements(m).drop_last().drop_last() =~= seq![]);
        let q1 = a.without_piece(c.king_end as int, k);
        a.lemma_without_piece(c.king_end as int, k);
        let q2 = q1.with_piece(c.king_start as int, k);
        q1.lemma_with_piece(c.king_start as int, k);
        let q3 = q2.without_piece(c.rook_end as int, r);
        q2.lemma_without_piece(c.rook_end as int, r);
        let q4 = q3.with_piece(c.rook_start as int, r);
        q3.lemma_with_piece(c.rook_start as int, r);
        assert(a.unapplied(m) == q4);
        q4.lemma_occupant_ext(self);
    }

    proof fn lemma_undo_en_passant(self, m: Move)
        requires
            self.wf(),
            self.move_fits(m),
            m is EnPassant,
        ensures
            self.applied(m).unapplied(m) == self,
    {
        reveal_with_fuel(unmoved_all, 2);
        self.lemma_applied(m);
        let a = self.applied(m);
        let e = m->EnPassant_0;
        let b = e.basic_move;
        assert(move_movements(m).drop_last() =~= seq![]);
        let q0 = match b.capture { Some(cp) => a.with_piece(e.capture_square as int, cp), None => a };
        if let Some(cp) = b.capture { a.lemma_with_piece(e.capture_square as int, cp); }
        let q1 = q0.without_piece(b.end as int, b.piece);
        q0.lemma_without_piece(b.end as int, b.piece);
        let q2 = q1.with_piece(b.start as int, b.piece);
        q1.lemma_with_piece(b.start as int, b.piece);
        assert(a.unapplied(m) == q2);
        q2.lemma_occupant_ext(self);
    }

    proof fn lemma_undo_simple(self, m: Move)
        requires
            self.wf(),
            self.move_fits(m),
            m is BasicMove || m is TwoSquarePawnMove || m is Promotion,
            Self::capture_unlike_landed(m),
        ensures
            self.applied(m).unapplied(m) == self,
    {
        reveal_with_fuel(unmoved_all, 2);
        self.lemma_applied(m);
        let a = self.applied(m);
        let b = match m {
            Move::BasicMove(b) => b,
            Move::TwoSquarePawnMove(t) => t.basic_move,
            _ => m->Promotion_0.basic_move,
        };
        let landed = Self::lands_on_capture(m)->0;
        assert(move_movements(m).drop_last() =~= seq![]);
        let q1 = match b.capture {
            Some(cp) => {
                a.lemma_replace_piece(b.end as int, cp, landed);
                a.with_piece(b.end as int, cp).without_piece(b.end as int, landed)
            },
            None => {
                a.lemma_without_piece(b.end as int, landed);
                a.without_piece(b.end as int, landed)
            },
        };
        let q2 = q1.with_piece(b.start as int, b.piece);
        q1.lemma_with_piece(b.start as int, b.piece);
        assert(a.unapplied(m) == q2);
        q2.lemma_occupant_ext(self);
    }

    /// Taking back a fitting move restores the position, unless the move captured on its end
    /// square a piece that shares its color or its type with the piece it left there.
    pub proof fn lemma_unapply_undoes_apply(self, m: Move)
        requires
            self.wf(),
            self.move_fits(m),
            Self::capture_unlike_landed(m),
        ensures
            self.applied(m).unapplied(m) == self,
    {
        match m {
            Move::NewGame(_) => {
                assert(move_movements(m) =~= seq![]);
            },
            Move::Castle(_) => self.lemma_undo_castle(m),
            Move::EnPassant(_) => self.lemma_undo_en_passant(m),
            _ => self.lemma_undo_simple(m),
        }
    }
}


impl BoardPosition {
    /// The pieces of a color that slide along diagonals: bishops and queens.
    pub open spec fn diagonal_sliders(self, c: Color) -> u64 {
        self.color_board(c) & (self.bishops | self.queens)
    }

    /// The pieces of a color that slide along rows and columns: rooks and queens.
    pub open spec fn orthagonal_sliders(self, c: Color) -> u64 {
        self.color_board(c) & (self.rooks | self.queens)
    }

    /// The square of a color's king (the lowest one, 64 when there is none).
    pub open spec fn king_square(self, c: Color) -> u8 {
        self.locations(c, PieceType::King).trailing_zeros() as u8
    }

    /// Whether `king_square` would be attacked by the opponent of `king_color` once the king of
    /// `king_color` is taken off its square: by a knight, by a pawn, or by the first piece met
    /// along a line, when it slides along that line.
    pub open spec fn attacked(self, king_square: int, king_color: Color) -> bool {
        let att = king_color.opponent();
        let occ = (self.color_board(king_color) | self.color_board(att)) & !(1u64 << self.king_square(king_color));
        ||| exists|t: int| shift_hits(king_square, knight_shifts(), t) && #[trigger] bit(self.locations(att, PieceType::Knight), t)
        ||| exists|t: int| pawn_board_has(king_square, pawn_attack_for(king_color), t) && #[trigger] bit(self.locations(att, PieceType::Pawn), t)
        ||| slider_attacks(king_square, diagonal_dirs(), occ, self.diagonal_sliders(att))
        ||| slider_attacks(king_square, orthagonal_dirs(), occ, self.orthagonal_sliders(att))
    }

    pub fn is_check(&self, king_square: u8, king_color: Color) -> (b: bool)
        requires
            king_square < 64,
            self.locations(king_color, PieceType::King) != 0,
        ensures
            b == self.attacked(king_square as int, king_color),
    {
        let attacking_color = king_color.swap();
        proof { super::bits::lemma_lowest_bit(self.locations(king_color, PieceType::King)); }
        let current_king_location = get_bit_for_square(self.find_king(king_color));
        let friendlies = self.get_all_piece_locations(king_color);
        let enemies = self.get_all_piece_locations(attacking_color);
        let all_pieces = (friendlies | enemies) & !current_king_location;

        let knights = self.get_piece_locations(attacking_color, PieceType::Knight) & get_knight_bitboard(king_square);
        proof { lemma_zero_iff_empty(knights); }
        if knights != 0 {
            let ghost t = choose|t: int| bit(knights, t);
            assert(bit(self.locations(attacking_color, PieceType::Knight), t));
            return true;
        }

        let pawn_attacks = match king_color {
            Color::White => PawnMovement::WhiteAttack,
            Color::Black => PawnMovement::BlackAttack,
        };
        let pawns = self.get_piece_locations(attacking_color, PieceType::Pawn) & get_pawn_bitboard(king_square, pawn_attacks);
        proof { lemma_zero_iff_empty(pawns); }
        if pawns != 0 {
            let ghost t = choose|t: int| bit(pawns, t);
            assert(bit(self.locations(attacking_color, PieceType::Pawn), t));
            return true;
        }

        let diagonal_attackers = self.get_diagonal_slider_locations(attacking_color);
        let diagonal_bitboard = get_diagonal_bitboard(king_square);
        let diagonals = SlideDirection::diagonals();
        assert(diagonals@ == diagonal_dirs());
        if diagonal_attackers & diagonal_bitboard != 0 {
            if slider_hits(king_square, &diagonals, all_pieces, diagonal_attackers) {
                return true;
            }
        } else {
            proof { lemma_no_attacker_on_rays(king_square as int, diagonal_dirs(), all_pieces, diagonal_attackers, diagonal_bitboard); }
        }

        let orthagonal_attackers = self.get_orthagonal_slider_locations(attacking_color);
        let orthagonal_bitboard = get_orthagonal_bitboard(king_square);
        let orthagonals = SlideDirection::orthagonals();
        assert(orthagonals@ == orthagonal_dirs());
        if orthagonal_attackers & orthagonal_bitboard != 0 {
            if slider_hits(king_square, &orthagonals, all_pieces, orthagonal_attackers) {
                return true;
            }
        } else {
            proof { lemma_no_attacker_on_rays(king_square as int, orthagonal_dirs(), all_pieces, orthagonal_attackers, orthagonal_bitboard); }
        }
        let ghost att = king_color.opponent();
        assert(all_pieces == (self.color_board(king_color) | self.color_board(att)) & !(1u64 << self.king_square(king_color)));
        assert forall|t: int| !(shift_hits(king_square as int, knight_shifts(), t) && #[trigger] bit(self.locations(att, PieceType::Knight), t)) by {
            assert(!bit(knights, t));
        }
        assert forall|t: int| !(pawn_board_has(king_square as int, pawn_attack_for(king_color), t) && #[trigger] bit(self.locations(att, PieceType::Pawn), t)) by {
            assert(!bit(pawns, t));
        }
        false
    }
}


/// A piece that attacks a square, with the squares between them.
#[derive(Copy, Clone, PartialEq, Eq, Structural)]
pub struct Attack {
    pub attacking_square: u8,
    pub attack_path: u64,
}

/// A piece pinned against a square by a sliding piece, with the squares between the pinning
/// piece and the square, the pinned piece's own square left out.
#[derive(Copy, Clone, PartialEq, Eq, Structural)]
pub struct Pin {
    pub pinning_square: u8,
    pub pinned_square: u8,
    pub pin_path: u64,
}

#[derive(Copy, Clone, PartialEq, Eq, Structural)]
pub enum AttackOrPin {
    Attack(Attack),
    Pin(Pin),
}

/// The attacks on a square and the pins against it, with the bitboards of the attackers, of
/// the pinning pieces and of the pinned ones.
pub struct AttacksAndPins {
    pub target: u8,
    pub attacks: Vec<Attack>,
    pub attackers: u64,
    pub pins: Vec<Pin>,
    pub pinners: u64,
    pub pinned: u64,
}

impl Default for AttacksAndPins {
    fn default() -> (r: Self)
        ensures
            r.target == 0,
            r.attacks@ == Seq::<Attack>::empty(),
            r.attackers == 0,
            r.pins@ == Seq::<Pin>::empty(),
            r.pinners == 0,
            r.pinned == 0,
    {
        AttacksAndPins { target: 0, attacks: Vec::new(), attackers: 0, pins: Vec::new(), pinners: 0, pinned: 0 }
    }
}

/// The squares of an attack or a pin are on the board.
pub open spec fn item_in_board(item: AttackOrPin) -> bool {
    match item {
        AttackOrPin::Attack(a) => a.attacking_square < 64,
        AttackOrPin::Pin(p) => p.pinning_square < 64 && p.pinned_square < 64,
    }
}

impl AttacksAndPins {
    /// What recording `item` makes of the record.
    pub open spec fn ingested(self, item: AttackOrPin) -> (Seq<Attack>, u64, Seq<Pin>, u64, u64) {
        match item {
            AttackOrPin::Attack(a) => (self.attacks@.push(a), self.attackers | (1u64 << a.attacking_square), self.pins@, self.pinners, self.pinned),
            AttackOrPin::Pin(p) => (self.attacks@, self.attackers, self.pins@.push(p),
                self.pinners | (1u64 << p.pinning_square), self.pinned | (1u64 << p.pinned_square)),
        }
    }

    pub fn ingest(&mut self, item: AttackOrPin)
        requires
            item_in_board(item),
        ensures
            final(self).target == old(self).target,
            (final(self).attacks@, final(self).attackers, final(self).pins@, final(self).pinners, final(self).pinned) == old(self).ingested(item),
    {
        match item {
            AttackOrPin::Attack(a) => {
                self.attackers |= get_bit_for_square(a.attacking_square);
                self.attacks.push(a);
            },
            AttackOrPin::Pin(p) => {
                self.pinners |= get_bit_for_square(p.pinning_square);
                self.pinned |= get_bit_for_square(p.pinned_square);
                self.pins.push(p);
            },
        }
    }
}

impl BoardPosition {
    /// What the ray leaving `target` in direction `d` holds for a piece of `color` on `target`:
    /// the first piece met is an attacker, or it is not an enemy and the next piece beyond it is
    /// an attacker, which pins it.
    pub open spec fn sliding_attack_or_pin(self, target: int, d: SlideDirection, color: Color, attackers: u64) -> Option<AttackOrPin> {
        let enemies = self.color_board(color.opponent());
        let all = self.color_board(color) | enemies;
        match ray_first(target, d, all) {
            None => None,
            Some(fb) => if bit(enemies, fb) && !bit(attackers, fb) {
                None
            } else if bit(attackers, fb) {
                Some(AttackOrPin::Attack(Attack { attacking_square: fb as u8, attack_path: path_board(target, d, fb, -1) }))
            } else {
                match ray_first(fb, d, all) {
                    None => None,
                    Some(sb) => if bit(attackers, sb) {
                        Some(AttackOrPin::Pin(Pin { pinning_square: sb as u8, pinned_square: fb as u8, pin_path: path_board(target, d, sb, fb) }))
                    } else {
                        None
                    },
                }
            },
        }
    }

    fn get_sliding_attack_or_pin(&self, target: u8, dir: SlideDirection, color: Color, attackers: u64) -> (r: Option<AttackOrPin>)
        requires
            target < 64,
        ensures
            r == self.sliding_attack_or_pin(target as int, dir, color, attackers),
            r matches Some(item) ==> item_in_board(item),
    {
        let ray = get_ray_bitboard(target, dir);
        let friendlies = self.get_all_piece_locations(color);
        let enemies = self.get_all_piece_locations(color.swap());
        let all_pieces = friendlies | enemies;
        let first_block = match first_blocker(target, dir, ray, all_pieces) {
            None => return None,
            Some(fb) => fb,
        };
        let blocker_bit = get_bit_for_square(first_block);
        proof {
            lemma_zero_iff_empty(blocker_bit & enemies);
            lemma_zero_iff_empty(blocker_bit & attackers);
            assert(bit(blocker_bit & enemies, first_block as int) == bit(enemies, first_block as int));
            assert(bit(blocker_bit & attackers, first_block as int) == bit(attackers, first_block as int));
        }
        if blocker_bit & enemies != 0 && blocker_bit & attackers == 0 {
            return None;
        }
        let ghost kf = choose|k: int| 1 <= k && #[trigger] ray_square(target as int, dir, k) == Some(first_block as int)
            && super::bitboards::ray_clear_before(target as int, dir, k, all_pieces) && bit(all_pieces, first_block as int);
        proof { lemma_ray_split(target as int, dir, kf, first_block as int); }
        let blocked_squares = get_ray_bitboard(first_block, dir);
        if blocker_bit & attackers != 0 {
            let path = ray ^ (blocker_bit | blocked_squares);
            proof {
                assert forall|t: int| #[trigger] bit(path, t) == (ray_before(target as int, dir, first_block as int, t) && t != -1) by {
                    if on_ray(first_block as int, dir, t) {
                        let j = choose|j: int| 1 <= j && #[trigger] ray_square(first_block as int, dir, j) == Some(t);
                        super::bitboards::lemma_ray_square_compose(target as int, dir, kf, j);
                        assert(ray_square(target as int, dir, kf + j) == Some(t));
                    }
                    if t == first_block {
                        assert(on_ray(target as int, dir, t));
                    }
                }
                lemma_path_board_is(target as int, dir, first_block as int, -1, path);
            }
            return Some(AttackOrPin::Attack(Attack {
                attacking_square: first_block,
                attack_path: path,
            }));
        }
        let second_block = match first_blocker(first_block, dir, blocked_squares, all_pieces) {
            None => return None,
            Some(sb) => sb,
        };
        let second_block_bit = get_bit_for_square(second_block);
        proof {
            lemma_zero_iff_empty(second_block_bit & attackers);
            assert(bit(second_block_bit & attackers, second_block as int) == bit(attackers, second_block as int));
        }
        if second_block_bit & attackers == 0 {
            return None;
        }
        let path_mask = blocker_bit | second_block_bit | get_ray_bitboard(second_block, dir);
        let path = ray ^ path_mask;
        proof {
            let j = choose|k: int| 1 <= k && #[trigger] ray_square(first_block as int, dir, k) == Some(second_block as int)
                && super::bitboards::ray_clear_before(first_block as int, dir, k, all_pieces) && bit(all_pieces, second_block as int);
            super::bitboards::lemma_ray_square_compose(target as int, dir, kf, j);
            lemma_ray_split(target as int, dir, kf + j, second_block as int);
            lemma_ray_split(first_block as int, dir, j, second_block as int);
            assert forall|t: int| #[trigger] bit(path, t) == (ray_before(target as int, dir, second_block as int, t) && t != first_block) by {
                if on_ray(second_block as int, dir, t) {
                    let i = choose|i: int| 1 <= i && #[trigger] ray_square(second_block as int, dir, i) == Some(t);
                    super::bitboards::lemma_ray_square_compose(target as int, dir, kf + j, i);
                    assert(ray_square(target as int, dir, kf + j + i) == Some(t));
                }
                if t == first_block {
                    assert(on_ray(target as int, dir, t));
                }
                if t == second_block {
                    assert(ray_square(target as int, dir, kf + j) == Some(t));
                }
                if on_ray(first_block as int, dir, t) && t != second_block && !on_ray(second_block as int, dir, t) {
                    assert(ray_before(first_block as int, dir, second_block as int, t));
                    let (k1, k2) = choose|k1: int, k2: int| 1 <= k1 < k2 && #[trigger] ray_square(first_block as int, dir, k1) == Some(t)
                        && #[trigger] ray_square(first_block as int, dir, k2) == Some(second_block as int);
                    super::bitboards::lemma_ray_square_compose(target as int, dir, kf, k1);
                    super::bitboards::lemma_ray_square_compose(target as int, dir, kf, k2);
                    assert(ray_square(target as int, dir, kf + k1) == Some(t));
                }
                if ray_before(target as int, dir, second_block as int, t) && t != first_block && on_ray(first_block as int, dir, t) {
                    let k1 = choose|k1: int| 1 <= k1 && #[trigger] ray_square(first_block as int, dir, k1) == Some(t);
                    super::bitboards::lemma_ray_square_compose(target as int, dir, kf, k1);
                    assert(ray_square(target as int, dir, kf + k1) == Some(t));
                    assert(on_ray(target as int, dir, t));
                    if k1 >= j {
                        super::bitboards::lemma_ray_square_compose(first_block as int, dir, j, k1 - j);
                    } else {
                        assert(ray_before(first_block as int, dir, second_block as int, t));
                    }
                }
            }
            lemma_path_board_is(target as int, dir, second_block as int, first_block as int, path);
        }
        Some(AttackOrPin::Pin(Pin {
            pinning_square: second_block,
            pinned_square: first_block,
            pin_path: path,
        }))
    }
}


/// The record made of `init` by recording each attack and pin of `items` in turn.
pub open spec fn ingest_onto(init: (Seq<Attack>, u64, Seq<Pin>, u64, u64), items: Seq<AttackOrPin>) -> (Seq<Attack>, u64, Seq<Pin>, u64, u64)
    decreases items.len(),
{
    if items.len() == 0 {
        init
    } else {
        let (a, ab, p, pb, pd) = ingest_onto(init, items.drop_last());
        match items.last() {
            AttackOrPin::Attack(x) => (a.push(x), ab | (1u64 << x.attacking_square), p, pb, pd),
            AttackOrPin::Pin(x) => (a, ab, p.push(x), pb | (1u64 << x.pinning_square), pd | (1u64 << x.pinned_square)),
        }
    }
}

/// The record made by recording each attack and pin of `items` in turn, from nothing.
pub open spec fn ingest_all(items: Seq<AttackOrPin>) -> (Seq<Attack>, u64, Seq<Pin>, u64, u64) {
    ingest_onto((seq![], 0u64, seq![], 0u64, 0u64), items)
}

/// Recording two lists in turn is recording their concatenation.
pub proof fn lemma_ingest_onto_append(init: (Seq<Attack>, u64, Seq<Pin>, u64, u64), xs: Seq<AttackOrPin>, ys: Seq<AttackOrPin>)
    ensures
        ingest_onto(ingest_onto(init, xs), ys) == ingest_onto(init, xs + ys),
    decreases ys.len(),
{
    if ys.len() > 0 {
        lemma_ingest_onto_append(init, xs, ys.drop_last());
        assert((xs + ys).drop_last() =~= xs + ys.drop_last());
    } else {
        assert(xs + ys =~= xs);
    }
}

/// An attack with no path from each of the squares.
pub open spec fn hops(squares: Seq<u8>) -> Seq<Attack> {
    squares.map_values(|s: u8| Attack { attacking_square: s, attack_path: 0 })
}

/// Some attacker stands on one of the rays leaving `target` in the directions `dirs`.
pub open spec fn lines_hold_attacker(target: int, dirs: Seq<SlideDirection>, attackers: u64) -> bool {
    exists|t: int, i: int| 0 <= i < dirs.len() && #[trigger] bit(attackers, t) && #[trigger] on_ray(target, dirs[i], t)
}

impl BoardPosition {
    /// The attacks and pins found along each of the directions `dirs`, in order.
    pub open spec fn slider_items(self, target: int, dirs: Seq<SlideDirection>, color: Color, attackers: u64) -> Seq<AttackOrPin>
        decreases dirs.len(),
    {
        if dirs.len() == 0 {
            seq![]
        } else {
            let prev = self.slider_items(target, dirs.drop_last(), color, attackers);
            match self.sliding_attack_or_pin(target, dirs.last(), color, attackers) {
                Some(x) => prev.push(x),
                None => prev,
            }
        }
    }

    /// The attacks and pins along the lines through `target`: diagonals first, when a diagonal
    /// slider of the opponent stands on one, then rows and columns likewise.
    pub open spec fn line_items(self, target: int, color: Color) -> Seq<AttackOrPin> {
        let att = color.opponent();
        let diag = if lines_hold_attacker(target, diagonal_dirs(), self.diagonal_sliders(att)) {
            self.slider_items(target, diagonal_dirs(), color, self.diagonal_sliders(att))
        } else {
            seq![]
        };
        let orth = if lines_hold_attacker(target, orthagonal_dirs(), self.orthagonal_sliders(att)) {
            self.slider_items(target, orthagonal_dirs(), color, self.orthagonal_sliders(att))
        } else {
            seq![]
        };
        diag + orth
    }

    /// The squares of the opponent's knights a knight's move away from `target`.
    pub open spec fn knight_attackers(self, target: int, color: Color) -> u64 {
        board_where(|t: int| shift_hits(target, knight_shifts(), t)) & self.locations(color.opponent(), PieceType::Knight)
    }

    /// The squares of the opponent's pawns on the squares that a pawn of `color` on `target`
    /// would attack.
    pub open spec fn pawn_attackers(self, target: int, color: Color) -> u64 {
        board_where(|t: int| pawn_board_has(target, pawn_attack_for(color), t)) & self.locations(color.opponent(), PieceType::Pawn)
    }

    /// The record of attacks and pins on `target` for a piece of `color`: those along lines,
    /// then knights' attacks, then pawns' attacks, in increasing square order.
    pub open spec fn attacks_and_pins(self, target: int, color: Color) -> (Seq<Attack>, u64, Seq<Pin>, u64, u64) {
        let (a, ab, p, pb, pd) = ingest_all(self.line_items(target, color));
        (a + hops(squares_of(self.knight_attackers(target, color))) + hops(squares_of(self.pawn_attackers(target, color))), ab, p, pb, pd)
    }

    /// Records the attacks and pins found along each direction of `dirs` in turn.
    fn ingest_slider_items(&self, result: &mut AttacksAndPins, target: u8, dirs: &[SlideDirection], color: Color, attackers: u64)
        requires
            target < 64,
        ensures
            final(result).target == old(result).target,
            (final(result).attacks@, final(result).attackers, final(result).pins@, final(result).pinners, final(result).pinned)
                == ingest_onto((old(result).attacks@, old(result).attackers, old(result).pins@, old(result).pinners, old(result).pinned),
                    self.slider_items(target as int, dirs@, color, attackers)),
    {
        let ghost init = (result.attacks@, result.attackers, result.pins@, result.pinners, result.pinned);
        let mut i: usize = 0;
        assert(dirs@.take(0) =~= seq![]);
        while i < dirs.len()
            invariant
                target < 64,
                i <= dirs@.len(),
                result.target == old(result).target,
                init == (old(result).attacks@, old(result).attackers, old(result).pins@, old(result).pinners, old(result).pinned),
                (result.attacks@, result.attackers, result.pins@, result.pinners, result.pinned)
                    == ingest_onto(init, self.slider_items(target as int, dirs@.take(i as int), color, attackers)),
            decreases dirs@.len() - i,
        {
            assert(dirs@.take(i + 1).drop_last() =~= dirs@.take(i as int));
            assert(dirs@.take(i + 1).last() == dirs@[i as int]);
            let ghost prev = self.slider_items(target as int, dirs@.take(i as int), color, attackers);
            match self.get_sliding_attack_or_pin(target, dirs[i], color, attackers) {
                None => {
                    assert(self.slider_items(target as int, dirs@.take(i + 1), color, attackers) == prev);
                },
                Some(ap) => {
                    result.ingest(ap);
                    assert(self.slider_items(target as int, dirs@.take(i + 1), color, attackers) == prev.push(ap));
                    assert(prev.push(ap).drop_last() =~= prev);
                },
            }
            i += 1;
        }
        assert(dirs@.take(dirs@.len() as int) =~= dirs@);
    }
}


impl BoardPosition {
    /// Appends an attack with no path from each square of `squares`.
    fn push_hops(attacks: &mut Vec<Attack>, squares: Vec<u8>)
        ensures
            final(attacks)@ == old(attacks)@ + hops(squares@),
    {
        let mut i: usize = 0;
        while i < squares.len()
            invariant
                i <= squares@.len(),
                attacks@ == old(attacks)@ + hops(squares@.take(i as int)),
            decreases squares@.len() - i,
        {
            attacks.push(Attack { attacking_square: squares[i], attack_path: 0u64 });
            assert(hops(squares@.take(i + 1)) =~= hops(squares@.take(i as int)).push(Attack { attacking_square: squares@[i as int], attack_path: 0u64 }));
            i += 1;
        }
        assert(squares@.take(squares@.len() as int) =~= squares@);
    }

    pub fn get_attacks_and_pins(&self, target: u8, color: Color) -> (r: AttacksAndPins)
        requires
            target < 64,
        ensures
            r.target == target,
            (r.attacks@, r.attackers, r.pins@, r.pinners, r.pinned) == self.attacks_and_pins(target as int, color),
    {
        let attacking_color = color.swap();
        let mut result: AttacksAndPins = Default::default();
        result.target = target;
        let ghost empty = (Seq::<Attack>::empty(), 0u64, Seq::<Pin>::empty(), 0u64, 0u64);
        let ghost att = color.opponent();
        let diagonal_attackers = self.get_diagonal_slider_locations(attacking_color);
        let diagonals = SlideDirection::diagonals();
        assert(diagonals@ == diagonal_dirs());
        let diagonal_board = get_diagonal_bitboard(target);
        proof {
            lemma_zero_iff_empty(diagonal_board & diagonal_attackers);
            if lines_hold_attacker(target as int, diagonal_dirs(), diagonal_attackers) {
                let (t, i) = choose|t: int, i: int| 0 <= i < diagonal_dirs().len() && #[trigger] bit(diagonal_attackers, t) && #[trigger] on_ray(target as int, diagonal_dirs()[i], t);
                assert(bit(diagonal_board & diagonal_attackers, t));
            }
            if diagonal_board & diagonal_attackers != 0 {
                let t = choose|t: int| bit(diagonal_board & diagonal_attackers, t);
                assert(bit(diagonal_board, t));
                let i = choose|i: int| 0 <= i < 4 && #[trigger] on_ray(target as int, diagonal_dirs()[i], t);
                assert(lines_hold_attacker(target as int, diagonal_dirs(), diagonal_attackers));
            }
        }
        if diagonal_board & diagonal_attackers != 0 {
            self.ingest_slider_items(&mut result, target, &diagonals, color, diagonal_attackers);
        }
        let ghost diag_items = if lines_hold_attacker(target as int, diagonal_dirs(), self.diagonal_sliders(att)) {
            self.slider_items(target as int, diagonal_dirs(), color, self.diagonal_sliders(att))
        } else {
            seq![]
        };
        assert((result.attacks@, result.attackers, result.pins@, result.pinners, result.pinned) == ingest_onto(empty, diag_items));

        let orthagonal_attackers = self.get_orthagonal_slider_locations(attacking_color);
        let orthagonals = SlideDirection::orthagonals();
        assert(orthagonals@ == orthagonal_dirs());
        let orthagonal_board = get_orthagonal_bitboard(target);
        proof {
            lemma_zero_iff_empty(orthagonal_board & orthagonal_attackers);
            if lines_hold_attacker(target as int, orthagonal_dirs(), orthagonal_attackers) {
                let (t, i) = choose|t: int, i: int| 0 <= i < orthagonal_dirs().len() && #[trigger] bit(orthagonal_attackers, t) && #[trigger] on_ray(target as int, orthagonal_dirs()[i], t);
                assert(bit(orthagonal_board & orthagonal_attackers, t));
            }
            if orthagonal_board & orthagonal_attackers != 0 {
                let t = choose|t: int| bit(orthagonal_board & orthagonal_attackers, t);
                assert(bit(orthagonal_board, t));
                let i = choose|i: int| 0 <= i < 4 && #[trigger] on_ray(target as int, orthagonal_dirs()[i], t);
                assert(lines_hold_attacker(target as int, orthagonal_dirs(), orthagonal_attackers));
            }
        }
        if orthagonal_board & orthagonal_attackers != 0 {
            self.ingest_slider_items(&mut result, target, &orthagonals, color, orthagonal_attackers);
        }
        let ghost orth_items = if lines_hold_attacker(target as int, orthagonal_dirs(), self.orthagonal_sliders(att)) {
            self.slider_items(target as int, orthagonal_dirs(), color, self.orthagonal_sliders(att))
        } else {
            seq![]
        };
        proof {
            lemma_ingest_onto_append(empty, diag_items, orth_items);
        }
        assert(self.line_items(target as int, color) == diag_items + orth_items);

        let knight_board = get_knight_bitboard(target);
        proof { lemma_board_where_is(|t: int| shift_hits(target as int, knight_shifts(), t), knight_board); }
        let knight_squares = bitboard_squares(knight_board & self.get_piece_locations(attacking_color, PieceType::Knight));
        Self::push_hops(&mut result.attacks, knight_squares);

        let pawn_attacks = match color {
            Color::White => PawnMovement::WhiteAttack,
            Color::Black => PawnMovement::BlackAttack,
        };
        let pawn_board = get_pawn_bitboard(target, pawn_attacks);
        proof { lemma_board_where_is(|t: int| pawn_board_has(target as int, pawn_attack_for(color), t), pawn_board); }
        let pawn_squares = bitboard_squares(pawn_board & self.get_piece_locations(attacking_color, PieceType::Pawn));
        Self::push_hops(&mut result.attacks, pawn_squares);
        result
    }
}


/// What the rays leaving `king` in the directions of `dirs`, from the `i`-th one on, say of an
/// en passant capture: the first ray that meets the captured pawn decides, unless no attacker
/// stands on it. It decides by the first occupied square that is not skipped: the capture is
/// exposed when that square holds an attacker (and, when `check_end` holds, the ray does not
/// pass the capturing pawn's end square).
pub open spec fn ep_line_verdict(king: int, dirs: Seq<SlideDirection>, i: int, capture: int, skip: u64, all: u64,
    attackers: u64, end: int, check_end: bool) -> Option<bool>
    decreases dirs.len() - i,
{
    if i < 0 || i >= dirs.len() {
        None
    } else if !on_ray(king, dirs[i], capture) {
        ep_line_verdict(king, dirs, i + 1, capture, skip, all, attackers, end, check_end)
    } else if !(exists|t: int| #[trigger] on_ray(king, dirs[i], t) && bit(attackers, t)) {
        None
    } else {
        match ray_first(king, dirs[i], all & !skip) {
            Some(x) => Some(bit(attackers, x) && !(check_end && on_ray(king, dirs[i], end))),
            None => Some(false),
        }
    }
}

/// The first square of `blocks` along the ray, when `blocks` holds every square of the ray set
/// in `occ` and nothing off the ray, is the first square of the ray set in `occ`.
pub proof fn lemma_first_in_subset(sq: int, d: SlideDirection, ray: u64, blocks: u64, occ: u64, f: int)
    requires
        0 <= sq < 64,
        forall|t: int| #[trigger] bit(ray, t) == on_ray(sq, d, t),
        forall|t: int| #[trigger] bit(ray & occ, t) ==> bit(blocks, t),
        forall|t: int| #[trigger] bit(blocks, t) ==> bit(ray, t),
        blocks != 0,
        bit(occ, f),
        dir_step(d) > 0 ==> f == u64_trailing_zeros(blocks),
        dir_step(d) < 0 ==> f == 63 - u64_leading_zeros(blocks),
    ensures
        first_on_ray(sq, d, occ, f),
{
    super::bits::lemma_lowest_bit(blocks);
    super::bits::lemma_highest_bit(blocks);
    assert(bit(blocks, f));
    assert(on_ray(sq, d, f));
    let kf = choose|k: int| 1 <= k && #[trigger] ray_square(sq, d, k) == Some(f);
    super::bitboards::lemma_ray_square_coords(sq, d, kf);
    assert forall|j: int| 1 <= j < kf implies !bit(occ, #[trigger] ray_square(sq, d, j)->0) by {
        super::bitboards::lemma_ray_square_prefix(sq, d, kf, j);
        super::bitboards::lemma_ray_square_coords(sq, d, j);
        let x = ray_square(sq, d, j)->0;
        assert(on_ray(sq, d, x));
        if bit(occ, x) {
            assert(bit(ray & occ, x));
            assert(bit(blocks, x));
        }
    }
    assert(super::bitboards::ray_clear_before(sq, d, kf, occ));
}


/// Clearing a set square makes a bitboard smaller.
proof fn lemma_clear_decreases(b: u64, f: int)
    requires
        bit(b, f),
    ensures
        (b & !(1u64 << (f as u8))) < b,
{
    let fu = f as u8;
    assert((b & !(1u64 << fu)) < b) by (bit_vector)
        requires fu < 64, (b >> (fu as u64)) & 1u64 == 1u64;
}

/// Looks along the directions `dirs` from the king for a line that an en passant capture would
/// open: the first ray meeting the captured pawn decides, unless no attacker stands on it.
fn ep_line_check(king_square: u8, dirs: &[SlideDirection], capture: u8, start: u8, end: u8, all_pieces: u64,
    attackers: u64, check_end: bool) -> (r: Option<bool>)
    requires
        king_square < 64,
        capture < 64,
        start < 64,
        end < 64,
        forall|t: int| #[trigger] bit(attackers, t) ==> bit(all_pieces, t),
        !bit(attackers, capture as int),
        !bit(attackers, start as int),
    ensures
        r == ep_line_verdict(king_square as int, dirs@, 0, capture as int, (1u64 << capture) | (1u64 << start), all_pieces,
            attackers, end as int, check_end),
{
    let capture_bit = get_bit_for_square(capture);
    let start_bit = get_bit_for_square(start);
    let end_bit = get_bit_for_square(end);
    let ghost skip = (1u64 << capture) | (1u64 << start);
    let ghost occ = all_pieces & !skip;
    let mut i: usize = 0;
    while i < dirs.len()
        invariant
            king_square < 64,
            capture < 64,
            start < 64,
            end < 64,
            i <= dirs@.len(),
            capture_bit == 1u64 << capture,
            start_bit == 1u64 << start,
            end_bit == 1u64 << end,
            skip == (1u64 << capture) | (1u64 << start),
            occ == all_pieces & !skip,
            forall|t: int| #[trigger] bit(attackers, t) ==> bit(all_pieces, t),
            !bit(attackers, capture as int),
            !bit(attackers, start as int),
            ep_line_verdict(king_square as int, dirs@, 0, capture as int, skip, all_pieces, attackers, end as int, check_end)
                == ep_line_verdict(king_square as int, dirs@, i as int, capture as int, skip, all_pieces, attackers, end as int, check_end),
        decreases dirs@.len() - i,
    {
        let dir = dirs[i];
        let ray = get_ray_bitboard(king_square, dir);
        proof {
            lemma_zero_iff_empty(ray & capture_bit);
            lemma_zero_iff_empty(ray & attackers);
            assert(bit(ray & capture_bit, capture as int) == on_ray(king_square as int, dir, capture as int));
        }
        if ray & capture_bit == 0 {
            i += 1;
            continue;
        }
        if ray & attackers == 0 {
            proof {
                assert forall|t: int| !(#[trigger] on_ray(king_square as int, dir, t) && bit(attackers, t)) by {
                    assert(!bit(ray & attackers, t));
                }
            }
            return None;
        }
        let ghost ta = choose|t: int| bit(ray & attackers, t);
        let mut blocks = ray & all_pieces;
        assert(bit(blocks, ta));
        if blocks == 0 {
            i += 1;
            continue;
        }
        loop
            invariant
                king_square < 64,
                capture_bit == 1u64 << capture,
                start_bit == 1u64 << start,
                end_bit == 1u64 << end,
                capture < 64,
                start < 64,
                skip == (1u64 << capture) | (1u64 << start),
                occ == all_pieces & !skip,
                forall|t: int| #[trigger] bit(ray, t) == on_ray(king_square as int, dir, t),
                forall|t: int| #[trigger] bit(ray & occ, t) ==> bit(blocks, t),
                forall|t: int| #[trigger] bit(blocks, t) ==> bit(ray & all_pieces, t),
                bit(blocks, ta),
                bit(attackers, ta),
                ta != capture && ta != start,
                i < dirs@.len(),
                dir == dirs@[i as int],
                on_ray(king_square as int, dir, capture as int),
                end < 64,
                ep_line_verdict(king_square as int, dirs@, 0, capture as int, skip, all_pieces, attackers, end as int, check_end)
                    == ep_line_verdict(king_square as int, dirs@, i as int, capture as int, skip, all_pieces, attackers, end as int, check_end),
            decreases blocks,
        {
            proof {
                super::bits::lemma_lowest_bit(blocks);
                super::bits::lemma_highest_bit(blocks);
            }
            let nb_square = if dir.is_positive() { blocks.trailing_zeros() as u8 } else { 63 - blocks.leading_zeros() as u8 };
            let next_block = get_bit_for_square(nb_square);
            assert(bit(next_block, nb_square as int));
            if next_block == capture_bit || next_block == start_bit {
                proof { lemma_clear_decreases(blocks, nb_square as int); }
                blocks &= !next_block;
                continue;
            }
            proof {
                assert(bit(capture_bit, nb_square as int) == (nb_square == capture));
                assert(bit(start_bit, nb_square as int) == (nb_square == start));
                assert(nb_square != capture && nb_square != start);
                lemma_first_in_subset(king_square as int, dir, ray, blocks, occ, nb_square as int);
                lemma_ray_first_is(king_square as int, dir, occ, nb_square as int);
                lemma_zero_iff_empty(next_block & attackers);
                lemma_zero_iff_empty(ray & end_bit);
                assert(bit(next_block & attackers, nb_square as int) == bit(attackers, nb_square as int));
                assert(bit(ray & end_bit, end as int) == on_ray(king_square as int, dir, end as int));
                assert(exists|t: int| #[trigger] on_ray(king_square as int, dir, t) && bit(attackers, t)) by {
                    assert(on_ray(king_square as int, dir, ta));
                }
            }
            if next_block & attackers == 0 {
                return Some(false);
            }
            if check_end && ray & end_bit != 0 {
                return Some(false);
            }
            return Some(true);
        }
    }
    None
}

impl BoardPosition {
    /// Whether taking en passant from `start` to `end`, removing the pawn on `capture`, would
    /// open a line onto the king of `color`, as the diagonals and then the rows and columns
    /// through the king tell it.
    pub open spec fn en_passant_exposes(self, color: Color, start: int, end: int, capture: int) -> bool {
        let king = self.king_square(color) as int;
        let att = color.opponent();
        let all = self.color_board(color) | self.color_board(att);
        let diag = if (exists|i: int| 0 <= i < 4 && #[trigger] on_ray(king, diagonal_dirs()[i], capture))
            && lines_hold_attacker(king, diagonal_dirs(), self.diagonal_sliders(att)) {
            ep_line_verdict(king, diagonal_dirs(), 0, capture, (1u64 << (capture as u8)) | (1u64 << (capture as u8)), all,
                self.diagonal_sliders(att), end, false)
        } else {
            None
        };
        let orth = if (exists|i: int| 0 <= i < 4 && #[trigger] on_ray(king, orthagonal_dirs()[i], capture))
            && lines_hold_attacker(king, orthagonal_dirs(), self.orthagonal_sliders(att)) {
            ep_line_verdict(king, orthagonal_dirs(), 0, capture, (1u64 << (capture as u8)) | (1u64 << (start as u8)), all,
                self.orthagonal_sliders(att), end, true)
        } else {
            None
        };
        match diag {
            Some(v) => v,
            None => match orth {
                Some(v) => v,
                None => false,
            },
        }
    }

    pub fn en_passant_is_illegal(&self, color: Color, start: u8, end: u8, capture: u8) -> (b: bool)
        requires
            start < 64,
            end < 64,
            capture < 64,
            self.locations(color, PieceType::King) != 0,
            !bit(self.diagonal_sliders(color.opponent()), capture as int),
            !bit(self.orthagonal_sliders(color.opponent()), capture as int),
            !bit(self.orthagonal_sliders(color.opponent()), start as int),
        ensures
            b == self.en_passant_exposes(color, start as int, end as int, capture as int),
    {
        proof { super::bits::lemma_lowest_bit(self.locations(color, PieceType::King)); }
        let king_square = self.find_king(color);
        let attacking_color = color.swap();
        let friendlies = self.get_all_piece_locations(color);
        let enemies = self.get_all_piece_locations(color.swap());
        let all_pieces = friendlies | enemies;
        let capture_bit = get_bit_for_square(capture);
        let ghost king = king_square as int;

        let diagonal_attackers = self.get_diagonal_slider_locations(attacking_color);
        let diagonal_bitboard = get_diagonal_bitboard(king_square);
        let diagonals = SlideDirection::diagonals();
        assert(diagonals@ == diagonal_dirs());
        proof {
            lemma_zero_iff_empty(diagonal_bitboard & capture_bit);
            lemma_zero_iff_empty(diagonal_bitboard & diagonal_attackers);
            assert(bit(diagonal_bitboard & capture_bit, capture as int) == bit(diagonal_bitboard, capture as int));
            if lines_hold_attacker(king, diagonal_dirs(), diagonal_attackers) {
                let (t, i) = choose|t: int, i: int| 0 <= i < diagonal_dirs().len() && #[trigger] bit(diagonal_attackers, t) && #[trigger] on_ray(king, diagonal_dirs()[i], t);
                assert(bit(diagonal_bitboard & diagonal_attackers, t));
            }
            if diagonal_bitboard & diagonal_attackers != 0 {
                let t = choose|t: int| bit(diagonal_bitboard & diagonal_attackers, t);
                assert(bit(diagonal_bitboard, t));
                let i = choose|i: int| 0 <= i < 4 && #[trigger] on_ray(king, diagonal_dirs()[i], t);
                assert(lines_hold_attacker(king, diagonal_dirs(), diagonal_attackers));
            }
        }
        if diagonal_bitboard & capture_bit != 0 && diagonal_bitboard & diagonal_attackers != 0 {
            match ep_line_check(king_square, &diagonals, capture, capture, end, all_pieces, diagonal_attackers, false) {
                Some(v) => return v,
                None => {},
            }
        }

        let orthagonal_attackers = self.get_orthagonal_slider_locations(attacking_color);
        let orthagonal_bitboard = get_orthagonal_bitboard(king_square);
        let orthagonals = SlideDirection::orthagonals();
        assert(orthagonals@ == orthagonal_dirs());
        proof {
            lemma_zero_iff_empty(orthagonal_bitboard & capture_bit);
            lemma_zero_iff_empty(orthagonal_bitboard & orthagonal_attackers);
            assert(bit(orthagonal_bitboard & capture_bit, capture as int) == bit(orthagonal_bitboard, capture as int));
            if lines_hold_attacker(king, orthagonal_dirs(), orthagonal_attackers) {
                let (t, i) = choose|t: int, i: int| 0 <= i < orthagonal_dirs().len() && #[trigger] bit(orthagonal_attackers, t) && #[trigger] on_ray(king, orthagonal_dirs()[i], t);
                assert(bit(orthagonal_bitboard & orthagonal_attackers, t));
            }
            if orthagonal_bitboard & orthagonal_attackers != 0 {
                let t = choose|t: int| bit(orthagonal_bitboard & orthagonal_attackers, t);
                assert(bit(orthagonal_bitboard, t));
                let i = choose|i: int| 0 <= i < 4 && #[trigger] on_ray(king, orthagonal_dirs()[i], t);
                assert(lines_hold_attacker(king, orthagonal_dirs(), orthagonal_attackers));
            }
        }
        if orthagonal_bitboard & capture_bit != 0 && orthagonal_bitboard & orthagonal_attackers != 0 {
            match ep_line_check(king_square, &orthagonals, capture, start, end, all_pieces, orthagonal_attackers, true) {
                Some(v) => return v,
                None => {},
            }
        }
        false
    }
}


/// The squares a castling uses: where king and rook start and end, the squares that must be
/// empty, and the square the king passes over.
#[derive(Copy, Clone, Debug, PartialEq, Eq, Structural)]
pub struct CastlingSquares {
    pub king_start: u8,
    pub king_end: u8,
    pub rook_start: u8,
    pub rook_end: u8,
    pub transit_squares: u64,
    pub king_transit_squares: u64,
}

/// The squares of each castling.
pub open spec fn castling_squares(color: Color, ctype: CastleType) -> CastlingSquares {
    match (color, ctype) {
        (Color::White, CastleType::Kingside) => CastlingSquares {
            king_start: 4, king_end: 6, rook_start: 7, rook_end: 5,
            transit_squares: (1u64 << 5u8) | (1u64 << 6u8), king_transit_squares: 1u64 << 5u8,
        },
        (Color::White, CastleType::Queenside) => CastlingSquares {
            king_start: 4, king_end: 2, rook_start: 0, rook_end: 3,
            transit_squares: (1u64 << 3u8) | (1u64 << 2u8) | (1u64 << 1u8), king_transit_squares: 1u64 << 3u8,
        },
        (Color::Black, CastleType::Kingside) => CastlingSquares {
            king_start: 60, king_end: 62, rook_start: 63, rook_end: 61,
            transit_squares: (1u64 << 61u8) | (1u64 << 62u8), king_transit_squares: 1u64 << 61u8,
        },
        (Color::Black, CastleType::Queenside) => CastlingSquares {
            king_start: 60, king_end: 58, rook_start: 56, rook_end: 59,
            transit_squares: (1u64 << 59u8) | (1u64 << 58u8) | (1u64 << 57u8), king_transit_squares: 1u64 << 59u8,
        },
    }
}

impl CastlingSquares {
    pub fn from_color_and_type(color: Color, ctype: CastleType) -> (c: CastlingSquares)
        ensures
            c == castling_squares(color, ctype),
    {
        match (color, ctype) {
            (Color::White, CastleType::Kingside) => CastlingSquares {
                king_start: BoardSquare::E1.value(), king_end: BoardSquare::G1.value(),
                rook_start: BoardSquare::H1.value(), rook_end: BoardSquare::F1.value(),
                transit_squares: get_bit_for_square(BoardSquare::F1.value()) | get_bit_for_square(BoardSquare::G1.value()),
                king_transit_squares: get_bit_for_square(BoardSquare::F1.value()),
            },
            (Color::White, CastleType::Queenside) => CastlingSquares {
                king_start: BoardSquare::E1.value(), king_end: BoardSquare::C1.value(),
                rook_start: BoardSquare::A1.value(), rook_end: BoardSquare::D1.value(),
                transit_squares: get_bit_for_square(BoardSquare::D1.value()) | get_bit_for_square(BoardSquare::C1.value())
                    | get_bit_for_square(BoardSquare::B1.value()),
                king_transit_squares: get_bit_for_square(BoardSquare::D1.value()),
            },
            (Color::Black, CastleType::Kingside) => CastlingSquares {
                king_start: BoardSquare::E8.value(), king_end: BoardSquare::G8.value(),
                rook_start: BoardSquare::H8.value(), rook_end: BoardSquare::F8.value(),
                transit_squares: get_bit_for_square(BoardSquare::F8.value()) | get_bit_for_square(BoardSquare::G8.value()),
                king_transit_squares: get_bit_for_square(BoardSquare::F8.value()),
            },
            (Color::Black, CastleType::Queenside) => CastlingSquares {
                king_start: BoardSquare::E8.value(), king_end: BoardSquare::C8.value(),
                rook_start: BoardSquare::A8.value(), rook_end: BoardSquare::D8.value(),
                transit_squares: get_bit_for_square(BoardSquare::D8.value()) | get_bit_for_square(BoardSquare::C8.value())
                    | get_bit_for_square(BoardSquare::B8.value()),
                king_transit_squares: get_bit_for_square(BoardSquare::D8.value()),
            },
        }
    }
}

/// The squares of one piece, as a bitboard.
#[derive(Copy, Clone, PartialEq, Eq, Structural)]
pub struct PieceBoard {
    pub board: u64,
    pub piece: Piece,
}

/// Hands out, for each piece of a list taken from its end, the masked squares of that piece.
pub struct PieceBoardGenerator {
    pub position: BoardPosition,
    pub pieces: Vec<Piece>,
    pub mask: u64,
}

impl PieceBoardGenerator {
    pub fn next(&mut self) -> (r: Option<PieceBoard>)
        ensures
            final(self).position == old(self).position,
            final(self).mask == old(self).mask,
            old(self).pieces@.len() == 0 ==> r is None && final(self).pieces@ == old(self).pieces@,
            old(self).pieces@.len() > 0 ==> {
                let p = old(self).pieces@.last();
                &&& r == Some(PieceBoard { board: old(self).position.locations(p.color, p.piece_type) & old(self).mask, piece: p })
                &&& final(self).pieces@ == old(self).pieces@.drop_last()
            },
    {
        match self.pieces.pop() {
            None => None,
            Some(p) => Some(self.position.get_masked_piece_board(p.color, p.piece_type, self.mask)),
        }
    }
}

/// A piece on each of the given squares.
pub open spec fn squares_with_piece(squares: Seq<u8>, piece: Piece) -> Seq<PieceSquare> {
    squares.map_values(|s: u8| PieceSquare { square: s, piece: piece })
}

/// The masked squares of each piece of `pieces`, from the last piece to the first, each
/// piece's squares in increasing order.
pub open spec fn masked_piece_squares(pos: BoardPosition, pieces: Seq<Piece>, mask: u64) -> Seq<PieceSquare>
    decreases pieces.len(),
{
    if pieces.len() == 0 {
        seq![]
    } else {
        let p = pieces.last();
        squares_with_piece(squares_of(pos.locations(p.color, p.piece_type) & mask), p)
            + masked_piece_squares(pos, pieces.drop_last(), mask)
    }
}

/// The six pieces of a color, from pawn to king.
pub open spec fn pieces_of_color(color: Color) -> Seq<Piece> {
    seq![
        Piece { color: color, piece_type: PieceType::Pawn },
        Piece { color: color, piece_type: PieceType::Knight },
        Piece { color: color, piece_type: PieceType::Bishop },
        Piece { color: color, piece_type: PieceType::Rook },
        Piece { color: color, piece_type: PieceType::Queen },
        Piece { color: color, piece_type: PieceType::King },
    ]
}

/// The position made by putting each piece of `list` on its square in turn.
pub open spec fn with_pieces(p: BoardPosition, list: Seq<(u8, Piece)>) -> BoardPosition
    decreases list.len(),
{
    if list.len() == 0 {
        p
    } else {
        with_pieces(p, list.drop_last()).with_piece(list.last().0 as int, list.last().1)
    }
}

impl BoardPosition {
    pub fn from_piece_map(map: Vec<(u8, Piece)>) -> (p: Self)
        requires
            forall|i: int| 0 <= i < map@.len() ==> #[trigger] map@[i].0 < 64,
            forall|i: int, j: int| 0 <= i < j < map@.len() ==> (#[trigger] map@[i]).0 != (#[trigger] map@[j]).0,
        ensures
            p == with_pieces(BoardPosition::empty(), map@),
    {
        let mut locs: BoardPosition = Default::default();
        let mut i: usize = 0;
        while i < map.len()
            invariant
                i <= map@.len(),
                forall|i: int| 0 <= i < map@.len() ==> #[trigger] map@[i].0 < 64,
                locs == with_pieces(BoardPosition::empty(), map@.take(i as int)),
            decreases map@.len() - i,
        {
            let (s, p) = map[i];
            assert(map@[i as int].0 < 64);
            locs.insert_piece(s, p);
            assert(map@.take(i + 1).drop_last() =~= map@.take(i as int));
            i += 1;
        }
        assert(map@.take(map@.len() as int) =~= map@);
        locs
    }

    pub fn get_masked_piece_board(&self, color: Color, piece_type: PieceType, mask: u64) -> (b: PieceBoard)
        ensures
            b == (PieceBoard { board: self.locations(color, piece_type) & mask, piece: Piece { color: color, piece_type: piece_type } }),
    {
        PieceBoard {
            board: self.get_piece_locations(color, piece_type) & mask,
            piece: Piece { color: color, piece_type: piece_type },
        }
    }

    pub fn get_masked_piece_squares(&self, pieces: Vec<Piece>, mask: u64) -> (r: Vec<PieceSquare>)
        ensures
            r@ == masked_piece_squares(*self, pieces@, mask),
    {
        let mut generator = PieceBoardGenerator { position: *self, pieces: pieces, mask: mask };
        let ghost all_pieces = pieces@;
        let mut result: Vec<PieceSquare> = Vec::new();
        loop
            invariant
                generator.position == *self,
                generator.mask == mask,
                generator.pieces@.len() <= all_pieces.len(),
                all_pieces.take(generator.pieces@.len() as int) == generator.pieces@,
                result@ + masked_piece_squares(*self, generator.pieces@, mask) == masked_piece_squares(*self, all_pieces, mask),
            ensures
                result@ == masked_piece_squares(*self, all_pieces, mask),
            decreases generator.pieces@.len(),
        {
            let ghost before = generator.pieces@;
            match generator.next() {
                None => {
                    assert(masked_piece_squares(*self, generator.pieces@, mask) =~= Seq::<PieceSquare>::empty());
                    assert(result@ + Seq::<PieceSquare>::empty() =~= result@);
                    break;
                },
                Some(pb) => {
                    let squares = bitboard_squares(pb.board);
                    let ghost old_result = result@;
                    let mut j: usize = 0;
                    while j < squares.len()
                        invariant
                            j <= squares@.len(),
                            result@ == old_result + squares_with_piece(squares@.take(j as int), pb.piece),
                        decreases squares@.len() - j,
                    {
                        result.push(PieceSquare { square: squares[j], piece: pb.piece });
                        assert(squares_with_piece(squares@.take(j + 1), pb.piece) =~= squares_with_piece(squares@.take(j as int), pb.piece).push(PieceSquare { square: squares@[j as int], piece: pb.piece }));
                        j += 1;
                    }
                    assert(squares@.take(squares@.len() as int) =~= squares@);
                    assert(all_pieces.take(generator.pieces@.len() as int) =~= before.drop_last());
                    assert(result@ + masked_piece_squares(*self, generator.pieces@, mask) =~= old_result + masked_piece_squares(*self, before, mask));
                },
            }
        }
        result
    }

    pub fn get_all_masked_piece_squares_for_color(&self, color: Color, mask: u64) -> (r: Vec<PieceSquare>)
        ensures
            r@ == masked_piece_squares(*self, pieces_of_color(color), mask),
    {
        let pieces = vec![
            Piece { color: color, piece_type: PieceType::Pawn },
            Piece { color: color, piece_type: PieceType::Knight },
            Piece { color: color, piece_type: PieceType::Bishop },
            Piece { color: color, piece_type: PieceType::Rook },
            Piece { color: color, piece_type: PieceType::Queen },
            Piece { color: color, piece_type: PieceType::King },
        ];
        assert(pieces@ =~= pieces_of_color(color));
        self.get_masked_piece_squares(pieces, mask)
    }
}

} // verus!
