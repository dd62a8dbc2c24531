use vstd::prelude::*;

use crate::rules::Color;
use crate::rules::pieces::{Piece, PieceType};
use crate::rules::pieces::movement::{CastleType, Move, move_movements, move_capture};
use crate::rules::board::state::CastleRight;
use crate::rules::board::squares::get_square_from_col_and_row;
use super::fen::{FenBoardState, fen_pieces, fen_cell};

verus! {

/// The bit that marks black to move.
pub const TO_MOVE_BIT: u64 = 0x8000_0000_0000_0000;
pub const BASE_OFFSET: u64 = 1876772766;
pub const SQUARE_MULTIPLIER: u64 = 10216516463056589;
pub const WHITE_OFFSET: u64 = 0;
/// `SQUARE_MULTIPLIER * (64 * 7 + 2)`.
pub const BLACK_OFFSET: u64 = 4597432408375465050;
pub const PAWN_OFFSET: u64 = 0;
/// `SQUARE_MULTIPLIER * 64`.
pub const KNIGHT_OFFSET: u64 = 653857053635621696;
/// `SQUARE_MULTIPLIER * 64 * 2`.
pub const BISHOP_OFFSET: u64 = 1307714107271243392;
/// `SQUARE_MULTIPLIER * 64 * 3`.
pub const ROOK_OFFSET: u64 = 1961571160906865088;
/// `SQUARE_MULTIPLIER * 64 * 4`.
pub const QUEEN_OFFSET: u64 = 2615428214542486784;
/// `SQUARE_MULTIPLIER * 64 * 5`.
pub const KING_OFFSET: u64 = 3269285268178108480;
/// `SQUARE_MULTIPLIER * 64 * 6`.
pub const EN_PASSANT_OFFSET: u64 = 3923142321813730176;
/// `SQUARE_MULTIPLIER * 64 * 7`.
pub const CASTLE_OFFSET: u64 = 4576999375449351872;
pub const KINGSIDE_OFFSET: u64 = 0;
pub const QUEENSIDE_OFFSET: u64 = SQUARE_MULTIPLIER;

/// A piece on a square.
#[derive(Copy, Clone, PartialEq, Eq, Structural)]
pub struct PieceLocation {
    pub square: u8,
    pub piece: Piece,
}

/// One feature of a position that the hash accounts for.
#[derive(Copy, Clone, PartialEq, Eq, Structural)]
pub enum BoardChange {
    BlackToMove,
    CastleRight(CastleRight),
    EnPassantTarget(u8),
    PieceLocation(PieceLocation),
}

pub open spec fn color_offset(c: Color) -> int {
    match c {
        Color::White => WHITE_OFFSET as int,
        Color::Black => BLACK_OFFSET as int,
    }
}

pub open spec fn piece_offset(t: PieceType) -> int {
    match t {
        PieceType::Pawn => PAWN_OFFSET as int,
        PieceType::Knight => KNIGHT_OFFSET as int,
        PieceType::Bishop => BISHOP_OFFSET as int,
        PieceType::Rook => ROOK_OFFSET as int,
        PieceType::Queen => QUEEN_OFFSET as int,
        PieceType::King => KING_OFFSET as int,
    }
}

pub open spec fn side_offset(s: CastleType) -> int {
    match s {
        CastleType::Kingside => KINGSIDE_OFFSET as int,
        CastleType::Queenside => QUEENSIDE_OFFSET as int,
    }
}

/// The number that a feature of a position adds, by exclusive or, to the hash.
pub open spec fn adjustment(change: BoardChange) -> u64 {
    match change {
        BoardChange::BlackToMove => TO_MOVE_BIT,
        BoardChange::PieceLocation(loc) => (BASE_OFFSET + color_offset(loc.piece.color) + piece_offset(loc.piece.piece_type)
            + SQUARE_MULTIPLIER * loc.square) as u64,
        BoardChange::EnPassantTarget(square) => (BASE_OFFSET + EN_PASSANT_OFFSET + square * SQUARE_MULTIPLIER) as u64,
        BoardChange::CastleRight(right) => (BASE_OFFSET + CASTLE_OFFSET + color_offset(right.color) + side_offset(right.side)) as u64,
    }
}

/// The number for a piece on a square.
pub open spec fn location_key(square: u8, piece: Piece) -> u64 {
    adjustment(BoardChange::PieceLocation(PieceLocation { square: square, piece: piece }))
}

fn get_adjustment_for_change(change: BoardChange) -> (a: u64)
    ensures
        a == adjustment(change),
{
    match change {
        BoardChange::BlackToMove => TO_MOVE_BIT,
        BoardChange::PieceLocation(loc) => {
            let color_offset = match loc.piece.color {
                Color::White => WHITE_OFFSET,
                Color::Black => BLACK_OFFSET,
            };
            let piece_offset = match loc.piece.piece_type {
                PieceType::Pawn => PAWN_OFFSET,
                PieceType::Knight => KNIGHT_OFFSET,
                PieceType::Bishop => BISHOP_OFFSET,
                PieceType::Rook => ROOK_OFFSET,
                PieceType::Queen => QUEEN_OFFSET,
                PieceType::King => KING_OFFSET,
            };
            assert(SQUARE_MULTIPLIER * loc.square <= SQUARE_MULTIPLIER * 255) by (nonlinear_arith)
                requires loc.square <= 255;
            BASE_OFFSET + color_offset + piece_offset + (SQUARE_MULTIPLIER * loc.square as u64)
        },
        BoardChange::EnPassantTarget(square) => {
            assert(square * SQUARE_MULTIPLIER <= 255 * SQUARE_MULTIPLIER) by (nonlinear_arith)
                requires square <= 255;
            BASE_OFFSET + EN_PASSANT_OFFSET + (square as u64 * SQUARE_MULTIPLIER)
        },
        BoardChange::CastleRight(rights) => {
            let color_offset = match rights.color {
                Color::White => WHITE_OFFSET,
                Color::Black => BLACK_OFFSET,
            };
            let side_offset = match rights.side {
                CastleType::Kingside => KINGSIDE_OFFSET,
                CastleType::Queenside => QUEENSIDE_OFFSET,
            };
            BASE_OFFSET + CASTLE_OFFSET + color_offset + side_offset
        },
    }
}

/// The hash of a list of features: the exclusive or of their numbers.
pub open spec fn xor_all(changes: Seq<BoardChange>) -> u64
    decreases changes.len(),
{
    if changes.len() == 0 {
        0
    } else {
        xor_all(changes.drop_last()) ^ adjustment(changes.last())
    }
}

/// The piece that a movement leaves on its end square: the promoted piece for a promotion.
pub open spec fn landing_piece(m: Move, color: Color, moved: Piece) -> Piece {
    match m {
        Move::Promotion(p) => Piece { color: color, piece_type: p.promote_to },
        _ => moved,
    }
}

/// What the movements from the `i`-th on change in the hash.
pub open spec fn movements_adjustment(m: Move, i: int) -> u64
    decreases move_movements(m).len() - i,
{
    if i < 0 || i >= move_movements(m).len() {
        0
    } else {
        let mv = move_movements(m)[i];
        let moved = Piece { color: mv.color, piece_type: mv.piece_type };
        location_key(mv.start_square, moved) ^ location_key(mv.end_square, landing_piece(m, mv.color, moved))
            ^ movements_adjustment(m, i + 1)
    }
}

/// What a move changes in the hash: each moving piece leaves its square and lands on another,
/// and a taken piece leaves its square.
pub open spec fn move_adjustment(m: Move) -> u64 {
    match move_capture(m) {
        Some(c) => movements_adjustment(m, 0) ^ location_key(c.square, Piece { color: c.color, piece_type: c.piece_type }),
        None => movements_adjustment(m, 0),
    }
}

/// A hash of a position, built up from the features of the position one change at a time.
#[derive(Copy, Clone, PartialEq, Eq, Structural)]
pub struct ZobristId {
    state: u64,
}

impl View for ZobristId {
    type V = u64;

    closed spec fn view(&self) -> u64 {
        self.state
    }
}

impl Default for ZobristId {
    fn default() -> (z: Self)
        ensures
            z@ == 0,
    {
        ZobristId { state: 0 }
    }
}

impl ZobristId {
    /// The hash with the given value.
    pub closed spec fn with_id(id: u64) -> ZobristId {
        ZobristId { state: id }
    }

    /// A hash is given by its value.
    pub proof fn lemma_with_id(id: u64, z: ZobristId)
        ensures
            Self::with_id(id)@ == id,
            Self::with_id(z@) == z,
    {
    }

    /// Two hashes with the same value are the same.
    pub proof fn lemma_view_eq(a: ZobristId, b: ZobristId)
        requires
            a@ == b@,
        ensures
            a == b,
    {
    }

    /// A hash with the given value.
    pub fn from_id(id: u64) -> (z: Self)
        ensures
            z@ == id,
            z == Self::with_id(id),
    {
        ZobristId { state: id }
    }

    pub fn new() -> (z: Self)
        ensures
            z@ == 0,
    {
        ZobristId { state: 0 }
    }

    pub fn from_changes(changes: Vec<BoardChange>) -> (z: Self)
        ensures
            z@ == xor_all(changes@),
    {
        let mut id = Self::new();
        let mut i: usize = 0;
        while i < changes.len()
            invariant
                i <= changes@.len(),
                id@ == xor_all(changes@.take(i as int)),
            decreases changes@.len() - i,
        {
            id.update(changes[i]);
            assert(changes@.take(i + 1).drop_last() =~= changes@.take(i as int));
            i += 1;
        }
        assert(changes@.take(changes@.len() as int) =~= changes@);
        id
    }

    pub fn get_id(&self) -> (id: u64)
        ensures
            id == self@,
    {
        self.state
    }

    fn update(&mut self, change: BoardChange)
        ensures
            final(self)@ == old(self)@ ^ adjustment(change),
    {
        self.state = self.state ^ get_adjustment_for_change(change);
    }

    pub fn update_turn(&mut self)
        ensures
            final(self)@ == old(self)@ ^ TO_MOVE_BIT,
    {
        self.update(BoardChange::BlackToMove)
    }

    pub fn update_en_passant(&mut self, square: u8)
        ensures
            final(self)@ == old(self)@ ^ adjustment(BoardChange::EnPassantTarget(square)),
    {
        self.update(BoardChange::EnPassantTarget(square));
    }

    pub fn update_castle_right(&mut self, right: CastleRight)
        ensures
            final(self)@ == old(self)@ ^ adjustment(BoardChange::CastleRight(right)),
    {
        self.update(BoardChange::CastleRight(right));
    }

    pub fn update_move(&mut self, new_move: &Move)
        ensures
            final(self)@ == old(self)@ ^ move_adjustment(*new_move),
    {
        let movements = new_move.get_piece_movements();
        let ghost start = self@;
        let mut i: usize = 0;
        while i < movements.len()
            invariant
                movements@ == move_movements(*new_move),
                i <= movements@.len(),
                start ^ movements_adjustment(*new_move, 0) == self@ ^ movements_adjustment(*new_move, i as int),
            decreases movements@.len() - i,
        {
            let movement = movements[i];
            let moved = movement.get_piece();
            self.update(BoardChange::PieceLocation(PieceLocation { square: movement.start_square, piece: moved }));
            let landing = match new_move {
                Move::Promotion(p) => Piece { color: movement.color, piece_type: p.promote_to },
                _ => moved,
            };
            self.update(BoardChange::PieceLocation(PieceLocation { square: movement.end_square, piece: landing }));
            proof {
                let a = location_key(movement.start_square, moved);
                let b = location_key(movement.end_square, landing);
                let rest = movements_adjustment(*new_move, i + 1);
                let x = self@;
                assert(movements_adjustment(*new_move, i as int) == a ^ b ^ rest);
                assert(forall|s: u64, p: u64, q: u64, r: u64| #![auto] (s ^ p ^ q) ^ r == s ^ (p ^ q ^ r)) by (bit_vector);
            }
            i += 1;
        }
        proof {
            assert(movements_adjustment(*new_move, i as int) == 0);
            let x = self@;
            assert(x ^ 0u64 == x) by (bit_vector);
        }
        if let Some(c) = new_move.get_capture() {
            let taken = c.get_piece();
            assert(taken == Piece { color: c.color, piece_type: c.piece_type });
            self.update(BoardChange::PieceLocation(PieceLocation { square: c.square, piece: taken }));
            proof {
                let mm = movements_adjustment(*new_move, 0);
                let k = location_key(c.square, taken);
                assert((start ^ mm) ^ k == start ^ (mm ^ k)) by (bit_vector);
            }
        }
    }
}

/// Changing the same feature of a hash twice gives the hash back.
pub proof fn lemma_update_involution(id: u64, change: BoardChange)
    ensures
        (id ^ adjustment(change)) ^ adjustment(change) == id,
{
    let a = adjustment(change);
    assert((id ^ a) ^ a == id) by (bit_vector);
}

/// Applying the hash change of a move twice gives the hash back.
pub proof fn lemma_move_update_involution(id: u64, m: Move)
    ensures
        (id ^ move_adjustment(m)) ^ move_adjustment(m) == id,
{
    let a = move_adjustment(m);
    assert((id ^ a) ^ a == id) by (bit_vector);
}

proof fn lemma_xor_regroup(t: u64, k: u64, s: u64)
    by (bit_vector)
    ensures
        (t ^ k) ^ s == (t ^ s) ^ k,
        t ^ (s ^ k) == (t ^ s) ^ k,
        (t ^ k) ^ k == t,
        t ^ 0u64 == t,
        0u64 ^ k == k,
{
}

/// The hash of two lists one after the other is the exclusive or of their hashes.
pub proof fn lemma_xor_all_concat(a: Seq<BoardChange>, b: Seq<BoardChange>)
    ensures
        xor_all(a + b) == xor_all(a) ^ xor_all(b),
    decreases b.len(),
{
    if b.len() == 0 {
        assert(a + b =~= a);
        assert(xor_all(b) == 0);
        lemma_xor_regroup(xor_all(a), 0, 0);
        assert(xor_all(a + b) == xor_all(a));
    } else {
        lemma_xor_all_concat(a, b.drop_last());
        assert((a + b).drop_last() =~= a + b.drop_last());
        assert((a + b).last() == b.last());
        assert(xor_all(a + b) == xor_all(a + b.drop_last()) ^ adjustment(b.last()));
        assert(xor_all(b) == xor_all(b.drop_last()) ^ adjustment(b.last()));
        lemma_xor_regroup(xor_all(a), adjustment(b.last()), xor_all(b.drop_last()));
    }
}

/// Taking one change out of a list takes its number out of the hash.
pub proof fn lemma_xor_all_remove(b: Seq<BoardChange>, j: int)
    requires
        0 <= j < b.len(),
    ensures
        xor_all(b) == xor_all(b.remove(j)) ^ adjustment(b[j]),
{
    let t = b.take(j);
    let s = b.skip(j + 1);
    assert(b =~= t + seq![b[j]] + s);
    assert(b.remove(j) =~= t + s);
    lemma_xor_all_concat(t + seq![b[j]], s);
    lemma_xor_all_concat(t, seq![b[j]]);
    lemma_xor_all_concat(t, s);
    assert(seq![b[j]].drop_last() =~= Seq::<BoardChange>::empty());
    assert(xor_all(seq![b[j]]) == xor_all(Seq::<BoardChange>::empty()) ^ adjustment(b[j]));
    lemma_xor_regroup(0, adjustment(b[j]), 0);
    lemma_xor_regroup(xor_all(t), adjustment(b[j]), xor_all(s));
}

/// A hash built from changes does not depend on their order: two lists holding the same
/// changes, each as many times, hash alike.
pub proof fn lemma_from_changes_order_free(a: Seq<BoardChange>, b: Seq<BoardChange>)
    requires
        a.to_multiset() =~= b.to_multiset(),
    ensures
        xor_all(a) == xor_all(b),
    decreases a.len(),
{
    broadcast use vstd::seq_lib::group_to_multiset_ensures;
    if a.len() == 0 {
        assert(b.to_multiset().len() == 0);
        assert(b.len() == 0);
    } else {
        let x = a.last();
        let a1 = a.drop_last();
        assert(a1.push(x) =~= a);
        assert(a.to_multiset() =~= a1.to_multiset().insert(x));
        assert(b.to_multiset().count(x) > 0);
        assert(b.contains(x));
        let j = choose|j: int| 0 <= j < b.len() && b[j] == x;
        assert(b.remove(j).to_multiset() =~= b.to_multiset().remove(x));
        assert(a1.to_multiset() =~= a.to_multiset().remove(x));
        lemma_from_changes_order_free(a1, b.remove(j));
        lemma_xor_all_remove(b, j);
    }
}

/// A change listed twice cancels out, and no change at all gives the hash 0.
pub proof fn lemma_from_changes_repeat_cancels(s: Seq<BoardChange>, c: BoardChange)
    ensures
        xor_all(s.push(c).push(c)) == xor_all(s),
        xor_all(Seq::<BoardChange>::empty()) == 0,
{
    assert(s.push(c).push(c).drop_last() =~= s.push(c));
    assert(s.push(c).drop_last() =~= s);
    assert(xor_all(s.push(c)) == xor_all(s) ^ adjustment(c));
    assert(xor_all(s.push(c).push(c)) == xor_all(s.push(c)) ^ adjustment(c));
    lemma_xor_regroup(xor_all(s), adjustment(c), 0);
}

/// A hasher that takes a `u64` as its own hash.
pub struct ZobristHasher {
    pub state: u64,
}

impl ZobristHasher {
    pub fn finish(&self) -> (h: u64)
        ensures
            h == self.state,
    {
        self.state
    }

    pub fn write_u64(&mut self, i: u64)
        ensures
            final(self).state == i,
    {
        self.state = i;
    }
}

/// Builds `ZobristHasher`s that start at zero.
#[derive(Copy, Clone)]
pub struct BuildZobristHasher;

impl BuildZobristHasher {
    pub fn build_hasher(&self) -> (h: ZobristHasher)
        ensures
            h.state == 0,
    {
        ZobristHasher { state: 0 }
    }
}

/// The features of a FEN record, in the order the hash takes them: black to move, the en
/// passant target, the castling rights held (white kingside, white queenside, black kingside,
/// black queenside), then the pieces in the order of their squares.
pub open spec fn fen_changes(state: FenBoardState) -> Seq<BoardChange> {
    fen_head_changes(state) + fen_pieces(state.board, 64).map_values(|x: (u8, Piece)| location_change(x))
}

/// The features of a FEN record other than its pieces.
pub open spec fn fen_head_changes(state: FenBoardState) -> Seq<BoardChange> {
    let p1 = if state.to_move == Color::Black { seq![BoardChange::BlackToMove] } else { seq![] };
    let p2 = match state.en_passant { Some(sq) => seq![BoardChange::EnPassantTarget(sq.index() as u8)], None => seq![] };
    let p3 = if state.castling.white_kingside { seq![BoardChange::CastleRight(CastleRight { color: Color::White, side: CastleType::Kingside })] } else { seq![] };
    let p4 = if state.castling.white_queenside { seq![BoardChange::CastleRight(CastleRight { color: Color::White, side: CastleType::Queenside })] } else { seq![] };
    let p5 = if state.castling.black_kingside { seq![BoardChange::CastleRight(CastleRight { color: Color::Black, side: CastleType::Kingside })] } else { seq![] };
    let p6 = if state.castling.black_queenside { seq![BoardChange::CastleRight(CastleRight { color: Color::Black, side: CastleType::Queenside })] } else { seq![] };
    p1 + p2 + p3 + p4 + p5 + p6
}

/// The feature of a piece on a square.
pub open spec fn location_change(x: (u8, Piece)) -> BoardChange {
    BoardChange::PieceLocation(PieceLocation { square: x.0, piece: x.1 })
}

/// The features of the pieces of a board of rows, in the order of their squares.
fn fen_piece_changes(board: &[[Option<Piece>; 8]; 8]) -> (changes: Vec<BoardChange>)
    ensures
        changes@ == fen_pieces(*board, 64).map_values(|x: (u8, Piece)| location_change(x)),
{
    let mut changes: Vec<BoardChange> = Vec::new();
    let ghost head = changes@;
        let mut row_index: usize = 0;
        while row_index < 8
            invariant
                row_index <= 8,
                changes@ == head + fen_pieces(*board, (row_index * 8) as int).map_values(|x: (u8, Piece)| location_change(x)),
            decreases 8 - row_index,
        {
            let row = board[7 - row_index];
            let mut col_index: usize = 0;
            while col_index < 8
                invariant
                    row_index < 8,
                    col_index <= 8,
                    row == board@[7 - row_index],
                    changes@ == head + fen_pieces(*board, (row_index * 8 + col_index) as int).map_values(|x: (u8, Piece)| location_change(x)),
                decreases 8 - col_index,
            {
                let n = row_index * 8 + col_index;
                assert(fen_cell(*board, n as int) == row@[col_index as int]);
                let ghost prev = fen_pieces(*board, n as int);
                let ghost before = changes@;
                match row[col_index] {
                    Some(piece) => {
                        let sq = get_square_from_col_and_row(col_index as u8, row_index as u8);
                        assert(sq == n as u8);
                        changes.push(BoardChange::PieceLocation(PieceLocation {
                            square: sq,
                            piece: piece,
                        }));
                        assert(fen_pieces(*board, n + 1) == prev + seq![(n as u8, piece)]);
                        assert((prev + seq![(n as u8, piece)]).map_values(|x: (u8, Piece)| location_change(x)) =~= prev.map_values(|x: (u8, Piece)| location_change(x)).push(location_change((n as u8, piece))));
                        assert(location_change((n as u8, piece)) == BoardChange::PieceLocation(PieceLocation { square: n as u8, piece: piece }));
                        assert(changes@ =~= before.push(location_change((n as u8, piece))));
                        assert(changes@ =~= head + fen_pieces(*board, n + 1).map_values(|x: (u8, Piece)| location_change(x)));
                    },
                    None => {
                        assert(fen_pieces(*board, n + 1) =~= prev);
                    },
                }
                col_index += 1;
            }
            row_index += 1;
        }
    assert(changes@ =~= fen_pieces(*board, 64).map_values(|x: (u8, Piece)| location_change(x)));
    changes
}

/// The features of a FEN record other than its pieces, in the order the hash takes them.
fn fen_head(state: &FenBoardState) -> (changes: Vec<BoardChange>)
    ensures
        changes@ == fen_head_changes(*state),
{
    let mut changes: Vec<BoardChange> = Vec::new();
    if state.to_move == Color::Black {
        changes.push(BoardChange::BlackToMove);
    }
    let ghost c1 = changes@;
    if let Some(sq) = state.en_passant {
        changes.push(BoardChange::EnPassantTarget(sq.value()));
    }
    let ghost c2 = changes@;
    if state.castling.white_kingside {
        changes.push(BoardChange::CastleRight(CastleRight { color: Color::White, side: CastleType::Kingside }));
    }
    let ghost c3 = changes@;
    if state.castling.white_queenside {
        changes.push(BoardChange::CastleRight(CastleRight { color: Color::White, side: CastleType::Queenside }));
    }
    let ghost c4 = changes@;
    if state.castling.black_kingside {
        changes.push(BoardChange::CastleRight(CastleRight { color: Color::Black, side: CastleType::Kingside }));
    }
    let ghost c5 = changes@;
    if state.castling.black_queenside {
        changes.push(BoardChange::CastleRight(CastleRight { color: Color::Black, side: CastleType::Queenside }));
    }
    proof {
        let p1 = if state.to_move == Color::Black { seq![BoardChange::BlackToMove] } else { seq![] };
        let p2 = match state.en_passant { Some(sq) => seq![BoardChange::EnPassantTarget(sq.index() as u8)], None => seq![] };
        let p3 = if state.castling.white_kingside { seq![BoardChange::CastleRight(CastleRight { color: Color::White, side: CastleType::Kingside })] } else { seq![] };
        let p4 = if state.castling.white_queenside { seq![BoardChange::CastleRight(CastleRight { color: Color::White, side: CastleType::Queenside })] } else { seq![] };
        let p5 = if state.castling.black_kingside { seq![BoardChange::CastleRight(CastleRight { color: Color::Black, side: CastleType::Kingside })] } else { seq![] };
        let p6 = if state.castling.black_queenside { seq![BoardChange::CastleRight(CastleRight { color: Color::Black, side: CastleType::Queenside })] } else { seq![] };
        assert(c1 =~= p1);
        assert(c2 =~= p1 + p2);
        assert(c3 =~= p1 + p2 + p3);
        assert(c4 =~= p1 + p2 + p3 + p4);
        assert(c5 =~= p1 + p2 + p3 + p4 + p5);
        assert(changes@ =~= p1 + p2 + p3 + p4 + p5 + p6);
    }
    changes
}

impl ZobristId {
    pub fn from_fen(state: &FenBoardState) -> (z: Self)
        ensures
            z@ == xor_all(fen_changes(*state)),
    {
        let mut changes = fen_head(state);
        let ghost head = changes@;
        let mut pieces = fen_piece_changes(&state.board);
        let ghost tail = pieces@;
        changes.append(&mut pieces);
        assert(changes@ == head + tail);
        Self::from_changes(changes)
    }
}

} // verus!
