pub mod bitboards;
pub mod bits;
pub mod hashes;
pub mod positions;
pub mod squares;
pub mod state;

use vstd::prelude::*;

use crate::rules::Color;
use crate::rules::pieces::{Piece, PieceType};
use crate::rules::pieces::movement::{PieceMovement, BasicMove, Castle, CastleType, EnPassant, Move, Promotion, TwoSquarePawnMove,
    move_movements, move_capture, move_relative_capture_value};
use crate::util::zobrist::{ZobristId, move_adjustment, adjustment, BoardChange};
use self::bits::{bit, group_bits, lemma_zero_iff_empty, lemma_lowest_bit};
use self::bitboards::{get_bit_for_square, get_moves_bitboard_for_piece, piece_move_has, bitboard_squares, squares_of,
    board_where, holds_exactly, lemma_board_where_is, PieceSquare};
use self::positions::{BoardPosition, Attack, Pin, AttacksAndPins, CastlingSquares, castling_squares,
    masked_piece_squares, pieces_of_color, move_squares_valid};
use self::squares::{BoardSquare, row_of, col_of, get_col_and_row_from_square, get_square_from_col_and_row,
    is_fourth_rank, is_eighth_rank, is_second_rank};
use crate::util::fen::{FenBoardState, Castling, STARTING_POSITION, is_fen, fen_pieces, fen_cell, lemma_starting_position_is_fen, rows_of, en_passant_text};
use crate::util::zobrist::{xor_all, fen_changes};
use self::positions::with_pieces;
use self::state::{CastleRight, BoardState, BoardCastles, ReversibleBoardChange, ApplyableBoardChange, ep_square};

verus! {

broadcast use group_bits;

// ---------------------------------------------------------------------------
// Building moves
// ---------------------------------------------------------------------------

/// The square of the pawn that an en passant capture onto `ep_target` takes.
pub open spec fn ep_capture_square(ep_target: int) -> int {
    if ep_target > 31 { ep_target - 8 } else { ep_target + 8 }
}

/// The row of a color's pawns before they move.
pub open spec fn second_row(c: Color) -> int {
    if c == Color::White { 1 } else { 6 }
}

/// The row a color's pawn reaches with a first move of two squares.
pub open spec fn fourth_row(c: Color) -> int {
    if c == Color::White { 3 } else { 4 }
}

/// The row on which a color's pawns promote.
pub open spec fn last_row(c: Color) -> int {
    if c == Color::White { 7 } else { 0 }
}

/// The square a pawn of `color` passes over to reach `end` with a first move of two squares.
pub open spec fn two_square_target(color: Color, end: int) -> int {
    col_of(end) + 8 * (row_of(end) + if color == Color::White { -1int } else { 1int })
}

fn get_capture_square_for_ep_target(ep_target: u8) -> (s: u8)
    requires
        ep_target < 64,
    ensures
        s == ep_capture_square(ep_target as int),
        s < 64,
{
    if ep_target > 31 { ep_target - 8 } else { ep_target + 8 }
}

fn get_en_passant_target_for_two_square_first_move(color: Color, square: u8) -> (s: u8)
    requires
        square < 64,
        row_of(square as int) == fourth_row(color),
    ensures
        s == two_square_target(color, square as int),
        s < 64,
{
    let cr = get_col_and_row_from_square(square);
    let col = cr[0];
    let row = cr[1];
    let direction: i8 = match color {
        Color::White => -1,
        Color::Black => 1,
    };
    get_square_from_col_and_row(col, (row as i8 + direction) as u8)
}

/// Whether the pawn move to `end` is an en passant capture.
pub open spec fn is_ep_capture(ep: u64, end: int, piece: Piece) -> bool {
    piece.piece_type == PieceType::Pawn && ep_square(ep) == Some(end as u8)
}

/// The moves that a piece going from `start` to `end` gives: none when a king would step into
/// check or an en passant capture would expose the king; an en passant capture; the four
/// promotions; a first move of two squares; or a basic move, taking what stands on `end`.
pub open spec fn built_moves(pos: BoardPosition, ep: u64, start: int, end: int, piece: Piece) -> Seq<Move> {
    let basic = BasicMove { piece: piece, start: start as u8, end: end as u8, capture: pos.occupant(end) };
    if piece.piece_type == PieceType::King && pos.attacked(end, piece.color) {
        seq![]
    } else if is_ep_capture(ep, end, piece) {
        let cs = ep_capture_square(end);
        if pos.en_passant_exposes(piece.color, start, end, cs) {
            seq![]
        } else {
            seq![Move::EnPassant(EnPassant { basic_move: BasicMove { capture: pos.occupant(cs), ..basic }, capture_square: cs as u8 })]
        }
    } else if piece.piece_type == PieceType::Pawn && row_of(end) == last_row(piece.color) {
        seq![
            Move::Promotion(Promotion { basic_move: basic, promote_to: PieceType::Queen }),
            Move::Promotion(Promotion { basic_move: basic, promote_to: PieceType::Rook }),
            Move::Promotion(Promotion { basic_move: basic, promote_to: PieceType::Bishop }),
            Move::Promotion(Promotion { basic_move: basic, promote_to: PieceType::Knight }),
        ]
    } else if piece.piece_type == PieceType::Pawn && row_of(start) == second_row(piece.color) && row_of(end) == fourth_row(piece.color) {
        seq![Move::TwoSquarePawnMove(TwoSquarePawnMove { basic_move: basic, en_passant_target: two_square_target(piece.color, end) as u8 })]
    } else {
        seq![Move::BasicMove(basic)]
    }
}

/// The inputs on which building a move runs to its end: squares on the board, a king of the
/// piece's color where a check is looked for, and, for an en passant capture, a taken pawn
/// and no sliding enemy on the squares the capture empties; a pawn's first move of two squares
/// takes nothing.
pub open spec fn build_ok(pos: BoardPosition, ep: u64, start: int, end: int, piece: Piece) -> bool {
    let opp = piece.color.opponent();
    &&& 0 <= start < 64
    &&& 0 <= end < 64
    &&& piece.piece_type == PieceType::King ==> pos.locations(piece.color, PieceType::King) != 0
    &&& is_ep_capture(ep, end, piece) ==> {
        let cs = ep_capture_square(end);
        &&& pos.locations(piece.color, PieceType::King) != 0
        &&& !bit(pos.diagonal_sliders(opp), cs)
        &&& !bit(pos.orthagonal_sliders(opp), cs)
        &&& !bit(pos.orthagonal_sliders(opp), start)
        &&& (!pos.en_passant_exposes(piece.color, start, end, cs) ==> pos.occupant(cs) is Some)
    }
    &&& (!is_ep_capture(ep, end, piece) && piece.piece_type == PieceType::Pawn && row_of(end) != last_row(piece.color)
        && row_of(start) == second_row(piece.color) && row_of(end) == fourth_row(piece.color)) ==> pos.occupant(end) is None
}

fn build_move(position: &BoardPosition, start: u8, end: u8, piece: &Piece, ep_target: u64) -> (moves: Vec<Move>)
    requires
        build_ok(*position, ep_target, start as int, end as int, *piece),
    ensures
        moves@ == built_moves(*position, ep_target, start as int, end as int, *piece),
{
    let capture = position.piece_at(&end);
    let basic_move = BasicMove { piece: *piece, start: start, end: end, capture: capture };
    if piece.piece_type == PieceType::King && position.is_check(end, piece.color) {
        return Vec::new();
    }
    proof { vstd::std_specs::bits::axiom_u64_trailing_zeros(ep_target); }
    let ep_end = ep_target.trailing_zeros();
    assert(is_ep_capture(ep_target, end as int, *piece) == (piece.piece_type == PieceType::Pawn && ep_target != 0 && ep_end == end));
    if piece.piece_type == PieceType::Pawn && ep_target != 0 && ep_end == end as u32 {
        let capture_square = get_capture_square_for_ep_target(end);
        if position.en_passant_is_illegal(piece.color, start, end, capture_square) {
            return Vec::new();
        } else {
            let ep_capture = position.piece_at(&capture_square);
            let mut ep_basic = basic_move;
            ep_basic.capture = ep_capture;
            let m = Move::EnPassant(EnPassant::from_basic_move(&ep_basic, capture_square));
            let v = vec![m];
            assert(v@ =~= built_moves(*position, ep_target, start as int, end as int, *piece));
            return v;
        }
    } else if piece.piece_type == PieceType::Pawn && is_eighth_rank(end, piece.color) {
        let promotions = Promotion::get_all_from_basic_move(&basic_move);
        let mut v: Vec<Move> = Vec::new();
        let mut i: usize = 0;
        while i < promotions.len()
            invariant
                i <= promotions@.len(),
                promotions@.len() == 4,
                v@ == promotions@.take(i as int).map_values(|p: Promotion| Move::Promotion(p)),
            decreases promotions@.len() - i,
        {
            v.push(Move::Promotion(promotions[i]));
            assert(promotions@.take(i + 1).map_values(|p: Promotion| Move::Promotion(p))
                =~= promotions@.take(i as int).map_values(|p: Promotion| Move::Promotion(p)).push(Move::Promotion(promotions@[i as int])));
            i += 1;
        }
        assert(v@ =~= built_moves(*position, ep_target, start as int, end as int, *piece));
        return v;
    } else if piece.piece_type == PieceType::Pawn && is_second_rank(start, piece.color) && is_fourth_rank(end, piece.color) {
        let en_passant_target = get_en_passant_target_for_two_square_first_move(piece.color, end);
        let v = vec![Move::TwoSquarePawnMove(TwoSquarePawnMove::from_basic_move(&basic_move, en_passant_target))];
        assert(v@ =~= built_moves(*position, ep_target, start as int, end as int, *piece));
        return v;
    } else {
        let v = vec![Move::BasicMove(basic_move)];
        assert(v@ =~= built_moves(*position, ep_target, start as int, end as int, *piece));
        return v;
    }
}

// ---------------------------------------------------------------------------
// Lists of moves
// ---------------------------------------------------------------------------

/// A piece going from one square to another, before its moves are built.
pub type BuildCall = (int, int, Piece);

/// The moves that each call gives, one call after the other.
pub open spec fn moves_of_calls(pos: BoardPosition, ep: u64, calls: Seq<BuildCall>) -> Seq<Move>
    decreases calls.len(),
{
    if calls.len() == 0 {
        seq![]
    } else {
        moves_of_calls(pos, ep, calls.drop_last()) + built_moves(pos, ep, calls.last().0, calls.last().1, calls.last().2)
    }
}

/// Every call can be built.
pub open spec fn calls_ok(pos: BoardPosition, ep: u64, calls: Seq<BuildCall>) -> bool {
    forall|i: int| 0 <= i < calls.len() ==> #[trigger] build_ok(pos, ep, calls[i].0, calls[i].1, calls[i].2)
}

/// The calls of a piece from `start` to each of `ends`, in order.
pub open spec fn calls_to(start: int, ends: Seq<u8>, piece: Piece) -> Seq<BuildCall> {
    ends.map_values(|e: u8| (start, e as int, piece))
}

pub proof fn lemma_moves_of_calls_append(pos: BoardPosition, ep: u64, a: Seq<BuildCall>, b: Seq<BuildCall>)
    ensures
        moves_of_calls(pos, ep, a + b) == moves_of_calls(pos, ep, a) + moves_of_calls(pos, ep, b),
    decreases b.len(),
{
    if b.len() == 0 {
        assert(a + b =~= a);
        assert(moves_of_calls(pos, ep, a) + seq![] =~= moves_of_calls(pos, ep, a));
    } else {
        lemma_moves_of_calls_append(pos, ep, a, b.drop_last());
        assert((a + b).drop_last() =~= a + b.drop_last());
        let l = b.last();
        assert(moves_of_calls(pos, ep, a) + moves_of_calls(pos, ep, b) =~= moves_of_calls(pos, ep, a)
            + moves_of_calls(pos, ep, b.drop_last()) + built_moves(pos, ep, l.0, l.1, l.2));
    }
}

pub proof fn lemma_calls_ok_split(pos: BoardPosition, ep: u64, a: Seq<BuildCall>, b: Seq<BuildCall>)
    requires
        calls_ok(pos, ep, a + b),
    ensures
        calls_ok(pos, ep, a),
        calls_ok(pos, ep, b),
{
    assert forall|i: int| 0 <= i < a.len() implies #[trigger] build_ok(pos, ep, a[i].0, a[i].1, a[i].2) by {
        assert((a + b)[i] == a[i]);
    }
    assert forall|i: int| 0 <= i < b.len() implies #[trigger] build_ok(pos, ep, b[i].0, b[i].1, b[i].2) by {
        assert((a + b)[a.len() + i] == b[i]);
    }
}

/// Adds the moves of a piece from `start` to each square of `ends`.
fn add_moves_to(position: &BoardPosition, moves: &mut Vec<Move>, start: u8, ends: &Vec<u8>, piece: Piece, ep_target: u64)
    requires
        calls_ok(*position, ep_target, calls_to(start as int, ends@, piece)),
    ensures
        final(moves)@ == old(moves)@ + moves_of_calls(*position, ep_target, calls_to(start as int, ends@, piece)),
{
    let ghost base = moves@;
    let mut i: usize = 0;
    while i < ends.len()
        invariant
            i <= ends@.len(),
            calls_ok(*position, ep_target, calls_to(start as int, ends@, piece)),
            moves@ == base + moves_of_calls(*position, ep_target, calls_to(start as int, ends@.take(i as int), piece)),
        decreases ends@.len() - i,
    {
        let end = ends[i];
        let ghost c = calls_to(start as int, ends@, piece)[i as int];
        assert(c == (start as int, end as int, piece));
        assert(build_ok(*position, ep_target, c.0, c.1, c.2));
        let built = build_move(position, start, end, &piece, ep_target);
        let mut b = built;
        let ghost before = moves@;
        moves.append(&mut b);
        assert(calls_to(start as int, ends@.take(i + 1), piece).drop_last() =~= calls_to(start as int, ends@.take(i as int), piece));
        assert(calls_to(start as int, ends@.take(i + 1), piece).last() == (start as int, end as int, piece));
        i += 1;
    }
    assert(ends@.take(ends@.len() as int) =~= ends@);
}

/// The move bitboard of a piece on `sq` of this position.
pub open spec fn move_board(pos: BoardPosition, sq: int, piece: Piece, ep: u64) -> u64 {
    board_where(|t: int| piece_move_has(sq, piece, pos.color_board(piece.color), pos.color_board(piece.color.opponent()), ep, t))
}

fn get_moves_board(position: &BoardPosition, square: u8, piece: Piece, ep_target: u64) -> (b: u64)
    requires
        square < 64,
    ensures
        b == move_board(*position, square as int, piece, ep_target),
{
    let b = get_moves_bitboard_for_piece(square, piece, position.get_all_piece_locations(piece.color),
        position.get_all_piece_locations(piece.color.swap()), ep_target);
    proof {
        let f = |t: int| piece_move_has(square as int, piece, position.color_board(piece.color),
            position.color_board(piece.color.opponent()), ep_target, t);
        assert forall|t: int| #[trigger] bit(b, t) == (0 <= t < 64 && f(t)) by {
            if !(0 <= t < 64) {
                assert(!bit(b, t));
            }
        }
        lemma_board_where_is(f, b);
    }
    b
}

/// The calls of the piece on `loc`, to each square of its move bitboard.
pub open spec fn piece_square_calls(pos: BoardPosition, ep: u64, loc: PieceSquare) -> Seq<BuildCall> {
    calls_to(loc.square as int, squares_of(move_board(pos, loc.square as int, loc.piece, ep)), loc.piece)
}

fn get_moves_for_piece_square(position: &BoardPosition, loc: &PieceSquare, ep_target: u64) -> (moves: Vec<Move>)
    requires
        loc.square < 64,
        calls_ok(*position, ep_target, piece_square_calls(*position, ep_target, *loc)),
    ensures
        moves@ == moves_of_calls(*position, ep_target, piece_square_calls(*position, ep_target, *loc)),
{
    let move_board = get_moves_board(position, loc.square, loc.piece, ep_target);
    let ends = bitboard_squares(move_board);
    let mut moves: Vec<Move> = Vec::new();
    add_moves_to(position, &mut moves, loc.square, &ends, loc.piece, ep_target);
    assert(moves@ =~= moves_of_calls(*position, ep_target, piece_square_calls(*position, ep_target, *loc)));
    moves
}

/// The calls of a pinned piece, to the squares of its move bitboard on the line of the pin.
pub open spec fn pin_calls(pos: BoardPosition, ep: u64, pin: Pin) -> Seq<BuildCall> {
    match pos.occupant(pin.pinned_square as int) {
        Some(piece) => calls_to(pin.pinned_square as int,
            squares_of(move_board(pos, pin.pinned_square as int, piece, ep) & (pin.pin_path | (1u64 << pin.pinning_square))), piece),
        None => seq![],
    }
}

/// A pin that names squares of the board, with a piece on the pinned one.
pub open spec fn pin_ok(pos: BoardPosition, pin: Pin) -> bool {
    pin.pinned_square < 64 && pin.pinning_square < 64 && pos.occupant(pin.pinned_square as int) is Some
}

fn get_legal_moves_for_pinned_piece(position: &BoardPosition, pin: &Pin, ep_target: u64) -> (moves: Vec<Move>)
    requires
        pin_ok(*position, *pin),
        calls_ok(*position, ep_target, pin_calls(*position, ep_target, *pin)),
    ensures
        moves@ == moves_of_calls(*position, ep_target, pin_calls(*position, ep_target, *pin)),
{
    let pinned_piece = position.piece_at(&pin.pinned_square).unwrap();
    let move_board = get_moves_board(position, pin.pinned_square, pinned_piece, ep_target);
    let legal_moves = move_board & (pin.pin_path | get_bit_for_square(pin.pinning_square));
    let ends = bitboard_squares(legal_moves);
    let mut moves: Vec<Move> = Vec::new();
    add_moves_to(position, &mut moves, pin.pinned_square, &ends, pinned_piece, ep_target);
    assert(moves@ =~= moves_of_calls(*position, ep_target, pin_calls(*position, ep_target, *pin)));
    moves
}

/// The calls of the king of `color`, taken as the piece found on its square.
pub open spec fn king_calls(pos: BoardPosition, ep: u64, color: Color) -> Seq<BuildCall> {
    let k = pos.king_square(color);
    match pos.occupant(k as int) {
        Some(piece) => piece_square_calls(pos, ep, PieceSquare { square: k, piece: piece }),
        None => seq![],
    }
}

/// A color's king is on the board, and is found on its square.
pub proof fn lemma_king_found(pos: BoardPosition, color: Color)
    requires
        pos.locations(color, PieceType::King) != 0,
    ensures
        pos.king_square(color) < 64,
        bit(pos.locations(color, PieceType::King), pos.king_square(color) as int),
        pos.occupant(pos.king_square(color) as int) is Some,
{
    lemma_lowest_bit(pos.locations(color, PieceType::King));
}

fn get_found_king_moves(position: &BoardPosition, color: Color, ep_target: u64) -> (moves: Vec<Move>)
    requires
        position.locations(color, PieceType::King) != 0,
        calls_ok(*position, ep_target, king_calls(*position, ep_target, color)),
    ensures
        moves@ == moves_of_calls(*position, ep_target, king_calls(*position, ep_target, color)),
{
    proof { lemma_king_found(*position, color); }
    let king_square = position.find_king(color);
    let piece = position.piece_at(&king_square).unwrap();
    get_moves_for_piece_square(position, &PieceSquare { square: king_square, piece: piece }, ep_target)
}

/// The calls of the king of `color`, taken to be a king of that color.
pub open spec fn color_king_calls(pos: BoardPosition, ep: u64, color: Color) -> Seq<BuildCall> {
    piece_square_calls(pos, ep, PieceSquare { square: pos.king_square(color), piece: Piece { color: color, piece_type: PieceType::King } })
}

fn get_legal_king_moves(position: &BoardPosition, color: Color, ep_target: u64) -> (moves: Vec<Move>)
    requires
        position.locations(color, PieceType::King) != 0,
        calls_ok(*position, ep_target, color_king_calls(*position, ep_target, color)),
    ensures
        moves@ == moves_of_calls(*position, ep_target, color_king_calls(*position, ep_target, color)),
{
    proof { lemma_king_found(*position, color); }
    let king_square = position.find_king(color);
    get_moves_for_piece_square(position, &PieceSquare { square: king_square, piece: Piece { color: color, piece_type: PieceType::King } }, ep_target)
}

/// The calls of a piece on `start` that can answer the check: to the squares of its move
/// bitboard that block the check or take the checking piece, and, for a pawn, the en passant
/// capture of a checking pawn.
pub open spec fn check_piece_calls(pos: BoardPosition, ep: u64, check: Attack, start: int, piece: Piece) -> Seq<BuildCall> {
    let mb = move_board(pos, start, piece, ep);
    let main = calls_to(start, squares_of(mb & (check.attack_path | (1u64 << check.attacking_square))), piece);
    let end = vstd::std_specs::bits::u64_trailing_zeros(ep) as int;
    let extra = if piece.piece_type == PieceType::Pawn && mb & ep != 0 && ep_capture_square(end) == check.attacking_square
        && mb & (1u64 << (end as u64)) != 0 {
        seq![(start, end, piece)]
    } else {
        seq![]
    };
    main + extra
}

/// The answers to a check by the pieces on `starts` other than kings, taken as the pieces found
/// on those squares.
pub open spec fn check_calls_by_square(pos: BoardPosition, ep: u64, check: Attack, starts: Seq<u8>) -> Seq<BuildCall>
    decreases starts.len(),
{
    if starts.len() == 0 {
        seq![]
    } else {
        let s = starts.last();
        check_calls_by_square(pos, ep, check, starts.drop_last()) + match pos.occupant(s as int) {
            Some(p) => if p.piece_type == PieceType::King { seq![] } else { check_piece_calls(pos, ep, check, s as int, p) },
            None => seq![],
        }
    }
}

/// The answers to a check by the listed pieces other than kings.
pub open spec fn check_calls_by_piece(pos: BoardPosition, ep: u64, check: Attack, locs: Seq<PieceSquare>) -> Seq<BuildCall>
    decreases locs.len(),
{
    if locs.len() == 0 {
        seq![]
    } else {
        let l = locs.last();
        check_calls_by_piece(pos, ep, check, locs.drop_last())
            + if l.piece.piece_type == PieceType::King { seq![] } else { check_piece_calls(pos, ep, check, l.square as int, l.piece) }
    }
}

fn add_check_answers(position: &BoardPosition, moves: &mut Vec<Move>, start: u8, piece: Piece, check: &Attack, ep_target: u64)
    requires
        start < 64,
        check.attacking_square < 64,
        calls_ok(*position, ep_target, check_piece_calls(*position, ep_target, *check, start as int, piece)),
    ensures
        final(moves)@ == old(moves)@ + moves_of_calls(*position, ep_target, check_piece_calls(*position, ep_target, *check, start as int, piece)),
{
    let ghost pos = *position;
    let ghost base = moves@;
    let move_board = get_moves_board(position, start, piece, ep_target);
    let legal_moves = move_board & (check.attack_path | get_bit_for_square(check.attacking_square));
    let ends = bitboard_squares(legal_moves);
    let ghost main = calls_to(start as int, ends@, piece);
    let ghost all = check_piece_calls(pos, ep_target, *check, start as int, piece);
    let ghost extra = all.subrange(main.len() as int, all.len() as int);
    proof {
        assert(main == calls_to(start as int, squares_of(self::move_board(pos, start as int, piece, ep_target)
            & (check.attack_path | (1u64 << check.attacking_square))), piece));
        assert(main + extra =~= all);
        lemma_calls_ok_split(pos, ep_target, main, extra);
    }
    add_moves_to(position, moves, start, &ends, piece, ep_target);
    proof { vstd::std_specs::bits::axiom_u64_trailing_zeros(ep_target); }
    if piece.piece_type == PieceType::Pawn && move_board & ep_target != 0 {
        assert(ep_target != 0) by {
            assert(move_board & 0u64 == 0u64) by (bit_vector);
        }
        let end = ep_target.trailing_zeros() as u8;
        let capture_square = get_capture_square_for_ep_target(end);
        if capture_square == check.attacking_square && move_board & get_bit_for_square(end) != 0 {
            let ghost c = all[main.len() as int];
            assert(c == (start as int, end as int, piece));
            assert(build_ok(pos, ep_target, c.0, c.1, c.2));
            let mut built = build_move(position, start, end, &piece, ep_target);
            let ghost b = built@;
            let ghost mid = moves@;
            moves.append(&mut built);
            proof {
                assert(all =~= main + seq![c]);
                lemma_moves_of_calls_append(pos, ep_target, main, seq![c]);
                assert(seq![c].drop_last() =~= Seq::<BuildCall>::empty());
                assert(moves_of_calls(pos, ep_target, Seq::<BuildCall>::empty()) =~= Seq::<Move>::empty());
                assert(seq![c].last() == c);
                assert(b == built_moves(pos, ep_target, start as int, end as int, piece));
                assert(moves_of_calls(pos, ep_target, seq![c]) =~= b);
                assert(moves@ =~= mid + b);
                assert(mid == base + moves_of_calls(pos, ep_target, main));
            }
            return;
        }
    }
    assert(all =~= main);
}

/// The calls of each pinned piece, one pin after the other.
pub open spec fn pins_calls(pos: BoardPosition, ep: u64, pins: Seq<Pin>) -> Seq<BuildCall>
    decreases pins.len(),
{
    if pins.len() == 0 {
        seq![]
    } else {
        pins_calls(pos, ep, pins.drop_last()) + pin_calls(pos, ep, pins.last())
    }
}

/// The calls of each listed piece, one after the other.
pub open spec fn locs_calls(pos: BoardPosition, ep: u64, locs: Seq<PieceSquare>) -> Seq<BuildCall>
    decreases locs.len(),
{
    if locs.len() == 0 {
        seq![]
    } else {
        locs_calls(pos, ep, locs.drop_last()) + piece_square_calls(pos, ep, locs.last())
    }
}

// ---------------------------------------------------------------------------
// Castling
// ---------------------------------------------------------------------------

/// The castling of `color` on `side`, when the right is held, the squares between king and
/// rook are empty, and neither the square the king passes nor the one it reaches is attacked.
pub open spec fn castle_move(pos: BoardPosition, state: BoardState, color: Color, side: CastleType) -> Option<Move> {
    let d = castling_squares(color, side);
    let all = pos.color_board(Color::White) | pos.color_board(Color::Black);
    let passes = squares_of(d.king_transit_squares);
    if !state.castle_rights.allows(CastleRight { color: color, side: side }) {
        None
    } else if d.transit_squares & all != 0 {
        None
    } else if exists|i: int| 0 <= i < passes.len() && pos.attacked(#[trigger] passes[i] as int, color) {
        None
    } else if pos.attacked(d.king_end as int, color) {
        None
    } else {
        Some(Move::Castle(Castle {
            color: color,
            side: side,
            king_start: d.king_start,
            king_end: d.king_end,
            rook_start: d.rook_start,
            rook_end: d.rook_end,
        }))
    }
}

/// The list of a possible move: empty or of one move.
pub open spec fn option_moves(m: Option<Move>) -> Seq<Move> {
    match m {
        Some(x) => seq![x],
        None => seq![],
    }
}

/// The castlings of `color`: kingside, then queenside.
pub open spec fn castle_moves(pos: BoardPosition, state: BoardState, color: Color) -> Seq<Move> {
    option_moves(castle_move(pos, state, color, CastleType::Kingside))
        + option_moves(castle_move(pos, state, color, CastleType::Queenside))
}

fn get_castle(position: &BoardPosition, state: &BoardState, color: Color, side: CastleType) -> (r: Option<Move>)
    requires
        position.locations(color, PieceType::King) != 0,
    ensures
        r == castle_move(*position, *state, color, side),
{
    if !state.can_castle(&CastleRight { color: color, side: side }) {
        return None;
    }
    let detail = CastlingSquares::from_color_and_type(color, side);
    let all_pieces = position.get_all_piece_locations(Color::White) | position.get_all_piece_locations(Color::Black);
    if detail.transit_squares & all_pieces != 0 {
        return None;
    }
    let passes = bitboard_squares(detail.king_transit_squares);
    proof { self::bitboards::lemma_squares_below(detail.king_transit_squares, 64); }
    let mut i: usize = 0;
    while i < passes.len()
        invariant
            i <= passes@.len(),
            passes@ == squares_of(detail.king_transit_squares),
            forall|j: int| 0 <= j < passes@.len() ==> passes@[j] < 64,
            position.locations(color, PieceType::King) != 0,
            detail == castling_squares(color, side),
            state.castle_rights.allows(CastleRight { color: color, side: side }),
            all_pieces == position.color_board(Color::White) | position.color_board(Color::Black),
            detail.transit_squares & all_pieces == 0,
            forall|j: int| 0 <= j < i ==> !position.attacked(#[trigger] passes@[j] as int, color),
        decreases passes@.len() - i,
    {
        if position.is_check(passes[i], color) {
            assert(position.attacked(passes@[i as int] as int, color));
            return None;
        }
        i += 1;
    }
    if position.is_check(detail.king_end, color) {
        return None;
    }
    Some(Move::Castle(Castle {
        color: color,
        side: side,
        king_start: detail.king_start,
        king_end: detail.king_end,
        rook_start: detail.rook_start,
        rook_end: detail.rook_end,
    }))
}

fn get_castle_moves(position: &BoardPosition, state: &BoardState, color: Color) -> (moves: Vec<Move>)
    requires
        position.locations(color, PieceType::King) != 0,
    ensures
        moves@ == castle_moves(*position, *state, color),
{
    let mut moves: Vec<Move> = Vec::new();
    match get_castle(position, state, color, CastleType::Kingside) {
        Some(m) => moves.push(m),
        None => {},
    }
    match get_castle(position, state, color, CastleType::Queenside) {
        Some(m) => moves.push(m),
        None => {},
    }
    assert(moves@ =~= castle_moves(*position, *state, color));
    moves
}

// ---------------------------------------------------------------------------
// Prefixes of the lists of calls
// ---------------------------------------------------------------------------

proof fn lemma_check_by_square_prefix(pos: BoardPosition, ep: u64, check: Attack, s: Seq<u8>, j: int)
    requires
        0 <= j <= s.len(),
        calls_ok(pos, ep, check_calls_by_square(pos, ep, check, s)),
    ensures
        calls_ok(pos, ep, check_calls_by_square(pos, ep, check, s.take(j))),
    decreases s.len(),
{
    if j == s.len() {
        assert(s.take(j) =~= s);
    } else {
        let l = s.last();
        let step = match pos.occupant(l as int) {
            Some(p) => if p.piece_type == PieceType::King { seq![] } else { check_piece_calls(pos, ep, check, l as int, p) },
            None => seq![],
        };
        lemma_calls_ok_split(pos, ep, check_calls_by_square(pos, ep, check, s.drop_last()), step);
        lemma_check_by_square_prefix(pos, ep, check, s.drop_last(), j);
        assert(s.drop_last().take(j) =~= s.take(j));
    }
}

proof fn lemma_check_by_piece_prefix(pos: BoardPosition, ep: u64, check: Attack, s: Seq<PieceSquare>, j: int)
    requires
        0 <= j <= s.len(),
        calls_ok(pos, ep, check_calls_by_piece(pos, ep, check, s)),
    ensures
        calls_ok(pos, ep, check_calls_by_piece(pos, ep, check, s.take(j))),
    decreases s.len(),
{
    if j == s.len() {
        assert(s.take(j) =~= s);
    } else {
        let l = s.last();
        let step = if l.piece.piece_type == PieceType::King { seq![] } else { check_piece_calls(pos, ep, check, l.square as int, l.piece) };
        lemma_calls_ok_split(pos, ep, check_calls_by_piece(pos, ep, check, s.drop_last()), step);
        lemma_check_by_piece_prefix(pos, ep, check, s.drop_last(), j);
        assert(s.drop_last().take(j) =~= s.take(j));
    }
}

proof fn lemma_pins_prefix(pos: BoardPosition, ep: u64, s: Seq<Pin>, j: int)
    requires
        0 <= j <= s.len(),
        calls_ok(pos, ep, pins_calls(pos, ep, s)),
    ensures
        calls_ok(pos, ep, pins_calls(pos, ep, s.take(j))),
    decreases s.len(),
{
    if j == s.len() {
        assert(s.take(j) =~= s);
    } else {
        lemma_calls_ok_split(pos, ep, pins_calls(pos, ep, s.drop_last()), pin_calls(pos, ep, s.last()));
        lemma_pins_prefix(pos, ep, s.drop_last(), j);
        assert(s.drop_last().take(j) =~= s.take(j));
    }
}

proof fn lemma_locs_prefix(pos: BoardPosition, ep: u64, s: Seq<PieceSquare>, j: int)
    requires
        0 <= j <= s.len(),
        calls_ok(pos, ep, locs_calls(pos, ep, s)),
    ensures
        calls_ok(pos, ep, locs_calls(pos, ep, s.take(j))),
    decreases s.len(),
{
    if j == s.len() {
        assert(s.take(j) =~= s);
    } else {
        lemma_calls_ok_split(pos, ep, locs_calls(pos, ep, s.drop_last()), piece_square_calls(pos, ep, s.last()));
        lemma_locs_prefix(pos, ep, s.drop_last(), j);
        assert(s.drop_last().take(j) =~= s.take(j));
    }
}

/// The squares of a list of masked piece squares are squares of the board.
proof fn lemma_masked_squares_on_board(pos: BoardPosition, pieces: Seq<Piece>, mask: u64)
    ensures
        forall|i: int| 0 <= i < masked_piece_squares(pos, pieces, mask).len() ==> #[trigger] masked_piece_squares(pos, pieces, mask)[i].square < 64,
    decreases pieces.len(),
{
    if pieces.len() > 0 {
        let p = pieces.last();
        let sq = squares_of(pos.locations(p.color, p.piece_type) & mask);
        self::bitboards::lemma_squares_below(pos.locations(p.color, p.piece_type) & mask, 64);
        lemma_masked_squares_on_board(pos, pieces.drop_last(), mask);
        let first = self::positions::squares_with_piece(sq, p);
        let rest = masked_piece_squares(pos, pieces.drop_last(), mask);
        assert forall|i: int| 0 <= i < masked_piece_squares(pos, pieces, mask).len() implies #[trigger] masked_piece_squares(pos, pieces, mask)[i].square < 64 by {
            if i < first.len() {
                assert(first[i].square == sq[i]);
            } else {
                assert(masked_piece_squares(pos, pieces, mask)[i] == rest[i - first.len()]);
            }
        }
    }
}

fn get_legal_moves_from_check(position: &BoardPosition, color: Color, check: &Attack, pinned: u64, ep_target: u64) -> (moves: Vec<Move>)
    requires
        position.locations(color, PieceType::King) != 0,
        check.attacking_square < 64,
        calls_ok(*position, ep_target, color_king_calls(*position, ep_target, color)
            + check_calls_by_piece(*position, ep_target, *check, masked_piece_squares(*position, pieces_of_color(color), !pinned))),
    ensures
        moves@ == moves_of_calls(*position, ep_target, color_king_calls(*position, ep_target, color)
            + check_calls_by_piece(*position, ep_target, *check, masked_piece_squares(*position, pieces_of_color(color), !pinned))),
{
    let ghost pos = *position;
    let ghost kc = color_king_calls(pos, ep_target, color);
    let locs = position.get_all_masked_piece_squares_for_color(color, !pinned);
    let ghost ls = locs@;
    proof {
        lemma_calls_ok_split(pos, ep_target, kc, check_calls_by_piece(pos, ep_target, *check, ls));
        lemma_masked_squares_on_board(pos, pieces_of_color(color), !pinned);
        lemma_moves_of_calls_append(pos, ep_target, kc, check_calls_by_piece(pos, ep_target, *check, ls));
    }
    let mut moves = get_legal_king_moves(position, color, ep_target);
    let mut i: usize = 0;
    while i < locs.len()
        invariant
            i <= ls.len(),
            ls == locs@,
            check.attacking_square < 64,
            forall|j: int| 0 <= j < ls.len() ==> #[trigger] ls[j].square < 64,
            calls_ok(pos, ep_target, check_calls_by_piece(pos, ep_target, *check, ls)),
            pos == *position,
            moves@ == moves_of_calls(pos, ep_target, kc) + moves_of_calls(pos, ep_target, check_calls_by_piece(pos, ep_target, *check, ls.take(i as int))),
        decreases ls.len() - i,
    {
        let loc = locs[i];
        let ghost prev = check_calls_by_piece(pos, ep_target, *check, ls.take(i as int));
        assert(ls.take(i + 1).drop_last() =~= ls.take(i as int));
        assert(ls.take(i + 1).last() == loc);
        proof { lemma_check_by_piece_prefix(pos, ep_target, *check, ls, i + 1); }
        if loc.piece.piece_type != PieceType::King {
            let ghost step = check_piece_calls(pos, ep_target, *check, loc.square as int, loc.piece);
            proof {
                lemma_calls_ok_split(pos, ep_target, prev, step);
                lemma_moves_of_calls_append(pos, ep_target, prev, step);
            }
            add_check_answers(position, &mut moves, loc.square, loc.piece, check, ep_target);
        } else {
            assert(check_calls_by_piece(pos, ep_target, *check, ls.take(i + 1)) =~= prev);
        }
        i += 1;
    }
    assert(ls.take(ls.len() as int) =~= ls);
    moves
}

// ---------------------------------------------------------------------------
// The board
// ---------------------------------------------------------------------------

/// A game position: where the pieces stand, the state of the game and the position's hash.
#[derive(Copy, Clone, PartialEq, Eq, Structural)]
pub struct Board {
    pub position: BoardPosition,
    pub state: BoardState,
    pub zobrist: ZobristId,
}

/// Whether a move is a plain step of a king that ends on a square attacked in the position.
pub open spec fn king_steps_into_attack(pos: BoardPosition, m: Move) -> bool {
    m matches Move::BasicMove(bm) && bm.piece.piece_type == PieceType::King && pos.attacked(bm.end as int, bm.piece.color)
}

/// No move built for a list of calls steps a king onto an attacked square.
pub proof fn lemma_calls_keep_kings_safe(pos: BoardPosition, ep: u64, calls: Seq<BuildCall>)
    requires
        calls_ok(pos, ep, calls),
    ensures
        forall|i: int| 0 <= i < moves_of_calls(pos, ep, calls).len()
            ==> !king_steps_into_attack(pos, #[trigger] moves_of_calls(pos, ep, calls)[i]),
    decreases calls.len(),
{
    if calls.len() > 0 {
        let prev = calls.drop_last();
        assert(calls_ok(pos, ep, prev)) by {
            assert forall|i: int| 0 <= i < prev.len() implies #[trigger] build_ok(pos, ep, prev[i].0, prev[i].1, prev[i].2) by {
                assert(prev[i] == calls[i]);
            }
        }
        lemma_calls_keep_kings_safe(pos, ep, prev);
        let c = calls.last();
        assert(build_ok(pos, ep, calls[calls.len() - 1].0, calls[calls.len() - 1].1, calls[calls.len() - 1].2));
        let built = built_moves(pos, ep, c.0, c.1, c.2);
        let all = moves_of_calls(pos, ep, calls);
        assert(all == moves_of_calls(pos, ep, prev) + built);
        assert forall|i: int| 0 <= i < all.len() implies !king_steps_into_attack(pos, #[trigger] all[i]) by {
            if i >= moves_of_calls(pos, ep, prev).len() {
                let k = i - moves_of_calls(pos, ep, prev).len();
                assert(all[i] == built[k]);
            } else {
                assert(all[i] == moves_of_calls(pos, ep, prev)[i]);
            }
        }
    }
}

impl Board {
    /// The en passant target bitboard.
    pub open spec fn ep(self) -> u64 {
        self.state.en_passant_target
    }

    /// The checks and pins against the king of the side to move.
    pub open spec fn checks_and_pins(self) -> (Seq<Attack>, u64, Seq<Pin>, u64, u64) {
        self.position.attacks_and_pins(self.position.king_square(self.state.to_move) as int, self.state.to_move)
    }

    /// The pieces that can answer a check: those of the side to move, the pinned ones flipped.
    pub open spec fn answering_squares(self) -> Seq<u8> {
        squares_of(self.position.color_board(self.state.to_move) ^ self.checks_and_pins().4)
    }

    /// The pieces and squares for which moves are built: under a double check the king's; under
    /// a check the king's and those that block or take the checking piece; otherwise each pinned
    /// piece's along its pin, then every piece that is not pinned, from king to pawns.
    pub open spec fn move_calls(self) -> Seq<BuildCall> {
        let pos = self.position;
        let ep = self.ep();
        let color = self.state.to_move;
        let (attacks, attackers, pins, pinners, pinned) = self.checks_and_pins();
        if attacks.len() > 1 {
            king_calls(pos, ep, color)
        } else if attacks.len() == 1 {
            king_calls(pos, ep, color) + check_calls_by_square(pos, ep, attacks[0], self.answering_squares())
        } else {
            pins_calls(pos, ep, pins) + locs_calls(pos, ep, masked_piece_squares(pos, pieces_of_color(color), !pinned))
        }
    }

    /// The legal moves of the side to move: the moves built for `move_calls`, followed, when the
    /// king is not in check, by the castlings.
    pub open spec fn legal_moves(self) -> Seq<Move> {
        moves_of_calls(self.position, self.ep(), self.move_calls())
            + if self.checks_and_pins().0.len() == 0 { castle_moves(self.position, self.state, self.state.to_move) } else { seq![] }
    }

    /// On a board whose moves can be generated, no legal move steps the king of the side to
    /// move onto a square that is attacked in the position, the king itself taken off the board.
    pub proof fn lemma_legal_king_steps_safe(self)
        requires
            self.can_generate_moves(),
        ensures
            forall|i: int| 0 <= i < self.legal_moves().len() ==> !king_steps_into_attack(self.position, #[trigger] self.legal_moves()[i]),
    {
        let built = moves_of_calls(self.position, self.ep(), self.move_calls());
        let castles = if self.checks_and_pins().0.len() == 0 { castle_moves(self.position, self.state, self.state.to_move) } else { seq![] };
        lemma_calls_keep_kings_safe(self.position, self.ep(), self.move_calls());
        assert forall|i: int| 0 <= i < self.legal_moves().len() implies !king_steps_into_attack(self.position, #[trigger] self.legal_moves()[i]) by {
            if i < built.len() {
                assert(self.legal_moves()[i] == built[i]);
            } else {
                let k = i - built.len();
                assert(self.legal_moves()[i] == castles[k]);
                let kc = castle_move(self.position, self.state, self.state.to_move, CastleType::Kingside);
                let qc = castle_move(self.position, self.state, self.state.to_move, CastleType::Queenside);
                assert(castles[k] is Castle) by {
                    if kc is Some { assert(kc->0 is Castle); }
                    if qc is Some { assert(qc->0 is Castle); }
                }
            }
        }
    }

    /// The boards on which the moves can be generated: the side to move has a king, every piece
    /// that is looked up is there, and every move can be built.
    pub open spec fn can_generate_moves(self) -> bool {
        let pos = self.position;
        let (attacks, attackers, pins, pinners, pinned) = self.checks_and_pins();
        &&& pos.locations(self.state.to_move, PieceType::King) != 0
        &&& attacks.len() == 1 ==> (forall|i: int| 0 <= i < self.answering_squares().len()
            ==> pos.occupant(#[trigger] self.answering_squares()[i] as int) is Some)
        &&& attacks.len() == 1 ==> attacks[0].attacking_square < 64
        &&& attacks.len() == 0 ==> (forall|i: int| 0 <= i < pins.len() ==> pin_ok(pos, #[trigger] pins[i]))
        &&& calls_ok(pos, self.ep(), self.move_calls())
    }

    fn find_king(&self, color: Color) -> (s: u8)
        ensures
            s == self.position.king_square(color),
    {
        match color {
            Color::White => self.position.find_king(Color::White),
            Color::Black => self.position.find_king(Color::Black),
        }
    }

    fn get_pieces_to_move(&self) -> (b: u64)
        ensures
            b == self.position.color_board(self.state.to_move),
    {
        match self.state.get_move_color() {
            Color::White => self.position.get_all_piece_locations(Color::White),
            Color::Black => self.position.get_all_piece_locations(Color::Black),
        }
    }

    fn get_checks_and_pins(&self, king_square: &u8, king_color: Color) -> (r: AttacksAndPins)
        requires
            *king_square < 64,
        ensures
            (r.attacks@, r.attackers, r.pins@, r.pinners, r.pinned) == self.position.attacks_and_pins(*king_square as int, king_color),
    {
        self.position.get_attacks_and_pins(*king_square, king_color)
    }

    pub fn in_check(&self) -> (b: bool)
        requires
            self.position.locations(self.state.to_move, PieceType::King) != 0,
        ensures
            b == self.position.attacked(self.position.king_square(self.state.to_move) as int, self.state.to_move),
    {
        proof { lemma_king_found(self.position, self.state.to_move); }
        self.position.is_check(self.position.find_king(self.state.get_move_color()), self.state.get_move_color())
    }

    fn get_legal_king_moves(&self) -> (moves: Vec<Move>)
        requires
            self.position.locations(self.state.to_move, PieceType::King) != 0,
            calls_ok(self.position, self.ep(), king_calls(self.position, self.ep(), self.state.to_move)),
        ensures
            moves@ == moves_of_calls(self.position, self.ep(), king_calls(self.position, self.ep(), self.state.to_move)),
    {
        get_found_king_moves(&self.position, self.state.get_move_color(), self.state.en_passant_target)
    }

    fn get_legal_moves_from_check(&self, check: &Attack, pinned_squares: u64) -> (moves: Vec<Move>)
        requires
            self.position.locations(self.state.to_move, PieceType::King) != 0,
            check.attacking_square < 64,
            forall|i: int| 0 <= i < squares_of(self.position.color_board(self.state.to_move) ^ pinned_squares).len()
                ==> self.position.occupant(#[trigger] squares_of(self.position.color_board(self.state.to_move) ^ pinned_squares)[i] as int) is Some,
            calls_ok(self.position, self.ep(), king_calls(self.position, self.ep(), self.state.to_move)
                + check_calls_by_square(self.position, self.ep(), *check, squares_of(self.position.color_board(self.state.to_move) ^ pinned_squares))),
        ensures
            moves@ == moves_of_calls(self.position, self.ep(), king_calls(self.position, self.ep(), self.state.to_move)
                + check_calls_by_square(self.position, self.ep(), *check, squares_of(self.position.color_board(self.state.to_move) ^ pinned_squares))),
    {
        let ghost pos = self.position;
        let ghost ep = self.ep();
        let ghost kc = king_calls(pos, ep, self.state.to_move);
        let pieces = self.get_pieces_to_move() ^ pinned_squares;
        let starts = bitboard_squares(pieces);
        let ghost ss = starts@;
        proof {
            lemma_calls_ok_split(pos, ep, kc, check_calls_by_square(pos, ep, *check, ss));
            lemma_moves_of_calls_append(pos, ep, kc, check_calls_by_square(pos, ep, *check, ss));
            self::bitboards::lemma_squares_below(pieces, 64);
        }
        let mut moves = self.get_legal_king_moves();
        let mut i: usize = 0;
        while i < starts.len()
            invariant
                i <= ss.len(),
                ss == starts@,
                ss == squares_of(pieces),
                forall|j: int| 0 <= j < ss.len() ==> #[trigger] ss[j] < 64,
                forall|j: int| 0 <= j < ss.len() ==> pos.occupant(#[trigger] ss[j] as int) is Some,
                check.attacking_square < 64,
                calls_ok(pos, ep, check_calls_by_square(pos, ep, *check, ss)),
                pos == self.position,
                ep == self.ep(),
                moves@ == moves_of_calls(pos, ep, kc) + moves_of_calls(pos, ep, check_calls_by_square(pos, ep, *check, ss.take(i as int))),
            decreases ss.len() - i,
        {
            let start_square = starts[i];
            let ghost prev = check_calls_by_square(pos, ep, *check, ss.take(i as int));
            assert(ss.take(i + 1).drop_last() =~= ss.take(i as int));
            assert(ss.take(i + 1).last() == start_square);
            proof { lemma_check_by_square_prefix(pos, ep, *check, ss, i + 1); }
            assert(pos.occupant(ss[i as int] as int) is Some);
            let piece = self.position.piece_at(&start_square).unwrap();
            if piece.piece_type != PieceType::King {
                let ghost step = check_piece_calls(pos, ep, *check, start_square as int, piece);
                proof {
                    lemma_calls_ok_split(pos, ep, prev, step);
                    lemma_moves_of_calls_append(pos, ep, prev, step);
                }
                add_check_answers(&self.position, &mut moves, start_square, piece, check, self.state.en_passant_target);
            } else {
                assert(check_calls_by_square(pos, ep, *check, ss.take(i + 1)) =~= prev);
            }
            i += 1;
        }
        assert(ss.take(ss.len() as int) =~= ss);
        moves
    }

    pub fn get_legal_moves(&self) -> (moves: Vec<Move>)
        requires
            self.can_generate_moves(),
        ensures
            moves@ == self.legal_moves(),
    {
        let ghost pos = self.position;
        let ghost ep = self.ep();
        let color = self.state.to_move;
        proof { lemma_king_found(pos, color); }
        let king_square = self.find_king(color);
        let checks_and_pins = self.get_checks_and_pins(&king_square, color);
        let checks = checks_and_pins.attacks;
        let pins = checks_and_pins.pins;
        let pinned_squares = checks_and_pins.pinned;
        if checks.len() > 1 {
            assert(moves_of_calls(pos, ep, self.move_calls()) + seq![] =~= moves_of_calls(pos, ep, self.move_calls()));
            return self.get_legal_king_moves();
        }
        if !checks.is_empty() {
            let r = self.get_legal_moves_from_check(&checks[0], pinned_squares);
            assert(r@ + seq![] =~= r@);
            return r;
        }
        let ghost pcs = pins_calls(pos, ep, pins@);
        let locs = self.position.get_all_masked_piece_squares_for_color(color, !pinned_squares);
        let ghost ls = locs@;
        let ghost lcs = locs_calls(pos, ep, ls);
        proof {
            lemma_calls_ok_split(pos, ep, pcs, lcs);
            lemma_moves_of_calls_append(pos, ep, pcs, lcs);
            lemma_masked_squares_on_board(pos, pieces_of_color(color), !pinned_squares);
        }
        let mut moves: Vec<Move> = Vec::new();
        let mut i: usize = 0;
        while i < pins.len()
            invariant
                i <= pins@.len(),
                pos == self.position,
                ep == self.ep(),
                forall|j: int| 0 <= j < pins@.len() ==> pin_ok(pos, #[trigger] pins@[j]),
                calls_ok(pos, ep, pins_calls(pos, ep, pins@)),
                moves@ == moves_of_calls(pos, ep, pins_calls(pos, ep, pins@.take(i as int))),
            decreases pins@.len() - i,
        {
            let pin = pins[i];
            let ghost prev = pins_calls(pos, ep, pins@.take(i as int));
            assert(pins@.take(i + 1).drop_last() =~= pins@.take(i as int));
            assert(pins@.take(i + 1).last() == pin);
            proof {
                lemma_pins_prefix(pos, ep, pins@, i + 1);
                lemma_calls_ok_split(pos, ep, prev, pin_calls(pos, ep, pin));
                lemma_moves_of_calls_append(pos, ep, prev, pin_calls(pos, ep, pin));
            }
            let mut pm = get_legal_moves_for_pinned_piece(&self.position, &pin, self.state.en_passant_target);
            moves.append(&mut pm);
            i += 1;
        }
        assert(pins@.take(pins@.len() as int) =~= pins@);
        let mut k: usize = 0;
        while k < locs.len()
            invariant
                k <= ls.len(),
                ls == locs@,
                pos == self.position,
                ep == self.ep(),
                forall|j: int| 0 <= j < ls.len() ==> #[trigger] ls[j].square < 64,
                calls_ok(pos, ep, locs_calls(pos, ep, ls)),
                moves@ == moves_of_calls(pos, ep, pcs) + moves_of_calls(pos, ep, locs_calls(pos, ep, ls.take(k as int))),
            decreases ls.len() - k,
        {
            let loc = locs[k];
            let ghost prev = locs_calls(pos, ep, ls.take(k as int));
            assert(ls.take(k + 1).drop_last() =~= ls.take(k as int));
            assert(ls.take(k + 1).last() == loc);
            proof {
                lemma_locs_prefix(pos, ep, ls, k + 1);
                lemma_calls_ok_split(pos, ep, prev, piece_square_calls(pos, ep, loc));
                lemma_moves_of_calls_append(pos, ep, prev, piece_square_calls(pos, ep, loc));
            }
            let mut lm = get_moves_for_piece_square(&self.position, &loc, self.state.en_passant_target);
            moves.append(&mut lm);
            k += 1;
        }
        assert(ls.take(ls.len() as int) =~= ls);
        let mut castles = get_castle_moves(&self.position, &self.state, color);
        moves.append(&mut castles);
        moves
    }
}

// ---------------------------------------------------------------------------
// Making and taking back moves
// ---------------------------------------------------------------------------

pub open spec fn white_kingside() -> CastleRight { CastleRight { color: Color::White, side: CastleType::Kingside } }
pub open spec fn white_queenside() -> CastleRight { CastleRight { color: Color::White, side: CastleType::Queenside } }
pub open spec fn black_kingside() -> CastleRight { CastleRight { color: Color::Black, side: CastleType::Kingside } }
pub open spec fn black_queenside() -> CastleRight { CastleRight { color: Color::Black, side: CastleType::Queenside } }

/// When `hit` and the right is still held, the right is revoked and recorded.
pub open spec fn revoke_if(acc: (Seq<CastleRight>, BoardCastles), right: CastleRight, hit: bool) -> (Seq<CastleRight>, BoardCastles) {
    if hit && acc.1.allows(right) {
        (acc.0.push(right), acc.1.with_right(right, false))
    } else {
        acc
    }
}

/// Whether a movement starts or ends on a square.
pub open spec fn touches(m: PieceMovement, sq: int) -> bool {
    m.start_square == sq || m.end_square == sq
}

/// The rights a movement revokes: both of a color's rights when it touches that color's king
/// square (kingside first), and one right when it touches the corner of its rook.
pub open spec fn revoke_for_movement(acc: (Seq<CastleRight>, BoardCastles), m: PieceMovement) -> (Seq<CastleRight>, BoardCastles) {
    let a1 = revoke_if(acc, white_kingside(), touches(m, 4));
    let a2 = revoke_if(a1, white_queenside(), touches(m, 4));
    let a3 = revoke_if(a2, black_kingside(), touches(m, 60));
    let a4 = revoke_if(a3, black_queenside(), touches(m, 60));
    let a5 = revoke_if(a4, white_kingside(), touches(m, 7));
    let a6 = revoke_if(a5, white_queenside(), touches(m, 0));
    let a7 = revoke_if(a6, black_kingside(), touches(m, 63));
    revoke_if(a7, black_queenside(), touches(m, 56))
}

/// The rights the movements revoke, one movement after the other.
pub open spec fn revoke_for_movements(acc: (Seq<CastleRight>, BoardCastles), ms: Seq<PieceMovement>) -> (Seq<CastleRight>, BoardCastles)
    decreases ms.len(),
{
    if ms.len() == 0 {
        acc
    } else {
        revoke_for_movement(revoke_for_movements(acc, ms.drop_last()), ms.last())
    }
}

/// The change the revoked rights make to a hash.
pub open spec fn rights_adjustment(rs: Seq<CastleRight>) -> u64
    decreases rs.len(),
{
    if rs.len() == 0 {
        0
    } else {
        rights_adjustment(rs.drop_last()) ^ adjustment(BoardChange::CastleRight(rs.last()))
    }
}

/// The halfmove clock after a move: back to zero after a capture or a pawn move, one more
/// otherwise.
pub open spec fn halfmove_after(half: u8, m: Move) -> u8 {
    if move_capture(m) is Some || move_movements(m)[0].piece_type == PieceType::Pawn || m is Promotion {
        0
    } else {
        (half + 1) as u8
    }
}

/// The moves that `make_move` takes: a piece moves, on the board, and the counters do not
/// run over.
pub open spec fn move_fits_state(state: BoardState, m: Move) -> bool {
    &&& move_movements(m).len() > 0
    &&& move_squares_valid(m)
    &&& state.halfmove_clock < 255
    &&& state.to_move == Color::Black ==> state.move_number < 255
    &&& m matches Move::TwoSquarePawnMove(t) ==> t.en_passant_target < 64
}

impl Board {
    /// The rights a move revokes, and the rights left.
    pub open spec fn revocations(self, m: Move) -> (Seq<CastleRight>, BoardCastles) {
        revoke_for_movements((seq![], self.state.castle_rights), move_movements(m))
    }

    /// The state after a move.
    pub open spec fn moved_state(self, m: Move) -> BoardState {
        BoardState {
            to_move: self.state.to_move.opponent(),
            castle_rights: self.revocations(m).1,
            en_passant_target: match m {
                Move::TwoSquarePawnMove(t) => 1u64 << t.en_passant_target,
                _ => 0,
            },
            move_number: if self.state.to_move == Color::Black { (self.state.move_number + 1) as u8 } else { self.state.move_number },
            halfmove_clock: halfmove_after(self.state.halfmove_clock, m),
        }
    }

    /// The hash after a move: the pieces move, the revoked rights and the old en passant target
    /// leave, a new en passant target comes, and the side to move changes.
    pub open spec fn moved_hash(self, m: Move) -> u64 {
        let h1 = self.zobrist@ ^ move_adjustment(m);
        let h2 = h1 ^ rights_adjustment(self.revocations(m).0);
        let h3 = match ep_square(self.ep()) {
            Some(sq) => h2 ^ adjustment(BoardChange::EnPassantTarget(sq)),
            None => h2,
        };
        let h4 = match m {
            Move::TwoSquarePawnMove(t) => h3 ^ adjustment(BoardChange::EnPassantTarget(t.en_passant_target)),
            _ => h3,
        };
        h4 ^ crate::util::zobrist::TO_MOVE_BIT
    }

    /// The board after a move.
    pub open spec fn after_move(self, m: Move) -> Board {
        Board {
            position: self.position.applied(m),
            state: self.moved_state(m),
            zobrist: ZobristId::with_id(self.moved_hash(m)),
        }
    }

    /// The record that takes the board back to what it is.
    pub open spec fn change_record(self) -> ReversibleBoardChange {
        ReversibleBoardChange { prior_zobrist_id: self.zobrist@, prior_position: self.position, prior_state: self.state }
    }

    /// The board that a record takes back to.
    pub open spec fn undone(change: ReversibleBoardChange) -> Board {
        Board { position: change.prior_position, state: change.prior_state, zobrist: ZobristId::with_id(change.prior_zobrist_id) }
    }

    fn revoke_castle_rights(&mut self, new_move: &Move) -> (revoked: Vec<CastleRight>)
        ensures
            revoked@ == old(self).revocations(*new_move).0,
            *final(self) == (Board { state: BoardState { castle_rights: old(self).revocations(*new_move).1, ..old(self).state }, ..*old(self) }),
    {
        let mut revoked_rights: Vec<CastleRight> = Vec::new();
        let movements = new_move.get_piece_movements();
        let ghost start = *self;
        let mut i: usize = 0;
        while i < movements.len()
            invariant
                i <= movements@.len(),
                movements@ == move_movements(*new_move),
                (revoked_rights@, self.state.castle_rights) == revoke_for_movements((seq![], start.state.castle_rights), movements@.take(i as int)),
                *self == (Board { state: BoardState { castle_rights: self.state.castle_rights, ..start.state }, ..start }),
            decreases movements@.len() - i,
        {
            let m = movements[i];
            assert(movements@.take(i + 1).drop_last() =~= movements@.take(i as int));
            assert(movements@.take(i + 1).last() == m);
            if m.start_square == BoardSquare::E1.value() || m.end_square == BoardSquare::E1.value() {
                let kingside = CastleRight { color: Color::White, side: CastleType::Kingside };
                let queenside = CastleRight { color: Color::White, side: CastleType::Queenside };
                if self.state.can_castle(&kingside) {
                    self.state.revoke_castle_right(&kingside);
                    revoked_rights.push(kingside);
                }
                if self.state.can_castle(&queenside) {
                    self.state.revoke_castle_right(&queenside);
                    revoked_rights.push(queenside);
                }
            }
            if m.start_square == BoardSquare::E8.value() || m.end_square == BoardSquare::E8.value() {
                let kingside = CastleRight { color: Color::Black, side: CastleType::Kingside };
                let queenside = CastleRight { color: Color::Black, side: CastleType::Queenside };
                if self.state.can_castle(&kingside) {
                    self.state.revoke_castle_right(&kingside);
                    revoked_rights.push(kingside);
                }
                if self.state.can_castle(&queenside) {
                    self.state.revoke_castle_right(&queenside);
                    revoked_rights.push(queenside);
                }
            }
            if m.start_square == BoardSquare::H1.value() || m.end_square == BoardSquare::H1.value() {
                let castle = CastleRight { color: Color::White, side: CastleType::Kingside };
                if self.state.can_castle(&castle) {
                    self.state.revoke_castle_right(&castle);
                    revoked_rights.push(castle);
                }
            }
            if m.start_square == BoardSquare::A1.value() || m.end_square == BoardSquare::A1.value() {
                let castle = CastleRight { color: Color::White, side: CastleType::Queenside };
                if self.state.can_castle(&castle) {
                    self.state.revoke_castle_right(&castle);
                    revoked_rights.push(castle);
                }
            }
            if m.start_square == BoardSquare::H8.value() || m.end_square == BoardSquare::H8.value() {
                let castle = CastleRight { color: Color::Black, side: CastleType::Kingside };
                if self.state.can_castle(&castle) {
                    self.state.revoke_castle_right(&castle);
                    revoked_rights.push(castle);
                }
            }
            if m.start_square == BoardSquare::A8.value() || m.end_square == BoardSquare::A8.value() {
                let castle = CastleRight { color: Color::Black, side: CastleType::Queenside };
                if self.state.can_castle(&castle) {
                    self.state.revoke_castle_right(&castle);
                    revoked_rights.push(castle);
                }
            }
            i += 1;
        }
        assert(movements@.take(movements@.len() as int) =~= movements@);
        revoked_rights
    }

    pub fn make_move(&mut self, new_move: &Move) -> (change: ReversibleBoardChange)
        requires
            move_fits_state(old(self).state, *new_move),
        ensures
            change == old(self).change_record(),
            *final(self) == old(self).after_move(*new_move),
    {
        let result = ReversibleBoardChange {
            prior_zobrist_id: self.zobrist.get_id(),
            prior_position: self.position,
            prior_state: self.state,
        };
        let ghost start = *self;
        self.zobrist.update_move(new_move);
        let ghost h1 = self.zobrist@;
        let revoked = self.revoke_castle_rights(new_move);
        let mut i: usize = 0;
        assert(revoked@.take(0) =~= Seq::<CastleRight>::empty());
        assert(h1 ^ 0u64 == h1) by (bit_vector);
        let ghost after_revoke = self.state;
        while i < revoked.len()
            invariant
                i <= revoked@.len(),
                self.zobrist@ == h1 ^ rights_adjustment(revoked@.take(i as int)),
                self.position == start.position,
                self.state == after_revoke,
                after_revoke == (BoardState { castle_rights: start.revocations(*new_move).1, ..start.state }),
                revoked@ == start.revocations(*new_move).0,
                h1 == start.zobrist@ ^ move_adjustment(*new_move),
                move_fits_state(start.state, *new_move),
            decreases revoked@.len() - i,
        {
            let ghost before = self.zobrist@;
            self.zobrist.update_castle_right(revoked[i]);
            proof {
                assert(revoked@.take(i + 1).drop_last() =~= revoked@.take(i as int));
                let a = rights_adjustment(revoked@.take(i as int));
                let b = adjustment(BoardChange::CastleRight(revoked@[i as int]));
                assert((h1 ^ a) ^ b == h1 ^ (a ^ b)) by (bit_vector);
            }
            i += 1;
        }
        assert(revoked@.take(revoked@.len() as int) =~= revoked@);
        match self.state.clear_en_passant_target() {
            Some(square) => self.zobrist.update_en_passant(square),
            None => {},
        }
        self.state.increment_halfmove_clock();
        let movements = new_move.get_piece_movements();
        if new_move.get_capture().is_some() {
            self.state.reset_halfmove_clock();
        } else if movements[0].get_piece().piece_type == PieceType::Pawn {
            self.state.reset_halfmove_clock();
        }
        self.position.apply_move(new_move);
        match new_move {
            Move::TwoSquarePawnMove(m) => {
                self.state.set_en_passant_target(m.en_passant_target);
                self.zobrist.update_en_passant(m.en_passant_target);
            },
            Move::Promotion(_) => self.state.reset_halfmove_clock(),
            _ => {},
        }
        if self.state.get_move_color() == Color::Black {
            self.state.increment_move_number();
        }
        self.state.change_move_color();
        self.zobrist.update_turn();
        proof {
            ZobristId::lemma_with_id(self.zobrist@, self.zobrist);
        }
        result
    }

    pub fn unmake_move(&mut self, change: ReversibleBoardChange)
        ensures
            *final(self) == Board::undone(change),
    {
        self.zobrist = ZobristId::from_id(change.prior_zobrist_id);
        self.position = change.prior_position;
        self.state = change.prior_state;
    }

    pub fn apply_change(&mut self, change: ApplyableBoardChange) -> (r: ReversibleBoardChange)
        ensures
            r == old(self).change_record(),
            *final(self) == (Board { position: change.new_position, state: change.new_state, zobrist: ZobristId::with_id(change.new_zobrist_id) }),
    {
        let result = ReversibleBoardChange {
            prior_zobrist_id: self.zobrist.get_id(),
            prior_position: self.position,
            prior_state: self.state,
        };
        self.zobrist = ZobristId::from_id(change.new_zobrist_id);
        self.state = change.new_state;
        self.position = change.new_position;
        result
    }
}

/// Taking a move back with the record that making it returned gives the board back.
pub proof fn lemma_unmake_restores(b: Board, m: Move)
    ensures
        Board::undone(b.change_record()) == b,
{
    ZobristId::lemma_with_id(b.zobrist@, b.zobrist);
}

// ---------------------------------------------------------------------------
// Changes worked out ahead
// ---------------------------------------------------------------------------

/// The castling rights that belong to a square: a king square holds both rights of its color
/// (queenside first), a rook corner one.
pub open spec fn associated_rights(sq: int) -> Seq<CastleRight> {
    (if sq == 0 || sq == 4 { seq![white_queenside()] } else { seq![] })
        + (if sq == 7 || sq == 4 { seq![white_kingside()] } else { seq![] })
        + (if sq == 56 || sq == 60 { seq![black_queenside()] } else { seq![] })
        + (if sq == 63 || sq == 60 { seq![black_kingside()] } else { seq![] })
}

impl CastleRight {
    fn associated_rights_by_square(square: u8) -> (rights: Vec<CastleRight>)
        ensures
            rights@ == associated_rights(square as int),
    {
        let mut rights = Vec::new();
        if square == BoardSquare::A1.value() || square == BoardSquare::E1.value() {
            rights.push(CastleRight { color: Color::White, side: CastleType::Queenside });
        }
        if square == BoardSquare::H1.value() || square == BoardSquare::E1.value() {
            rights.push(CastleRight { color: Color::White, side: CastleType::Kingside });
        }
        if square == BoardSquare::A8.value() || square == BoardSquare::E8.value() {
            rights.push(CastleRight { color: Color::Black, side: CastleType::Queenside });
        }
        if square == BoardSquare::H8.value() || square == BoardSquare::E8.value() {
            rights.push(CastleRight { color: Color::Black, side: CastleType::Kingside });
        }
        assert(rights@ =~= associated_rights(square as int));
        rights
    }
}

/// The rights of the start and end squares of each movement, in order.
pub open spec fn movement_rights(ms: Seq<PieceMovement>) -> Seq<CastleRight>
    decreases ms.len(),
{
    if ms.len() == 0 {
        seq![]
    } else {
        movement_rights(ms.drop_last()) + associated_rights(ms.last().start_square as int) + associated_rights(ms.last().end_square as int)
    }
}

/// The rights of a list that are still held, in order and with repetitions.
pub open spec fn held_rights(rs: Seq<CastleRight>, castles: BoardCastles) -> Seq<CastleRight>
    decreases rs.len(),
{
    if rs.len() == 0 {
        seq![]
    } else {
        held_rights(rs.drop_last(), castles) + if castles.allows(rs.last()) { seq![rs.last()] } else { seq![] }
    }
}

/// The rights a move would take away: those of its squares that are held.
pub open spec fn lost_rights(m: Move, castles: BoardCastles) -> Seq<CastleRight> {
    held_rights(movement_rights(move_movements(m)), castles)
}

/// The rights left once each listed right is revoked.
pub open spec fn revoke_all(castles: BoardCastles, rs: Seq<CastleRight>) -> BoardCastles
    decreases rs.len(),
{
    if rs.len() == 0 {
        castles
    } else {
        revoke_all(castles, rs.drop_last()).with_right(rs.last(), false)
    }
}

fn predict_lost_castle_rights(mov: &Move, state: &BoardState) -> (rights: Vec<CastleRight>)
    ensures
        rights@ == lost_rights(*mov, state.castle_rights),
{
    let movements = mov.get_piece_movements();
    let mut all: Vec<CastleRight> = Vec::new();
    let mut i: usize = 0;
    while i < movements.len()
        invariant
            i <= movements@.len(),
            movements@ == move_movements(*mov),
            all@ == movement_rights(movements@.take(i as int)),
        decreases movements@.len() - i,
    {
        let movement = movements[i];
        let mut a = CastleRight::associated_rights_by_square(movement.start_square);
        let mut b = CastleRight::associated_rights_by_square(movement.end_square);
        all.append(&mut a);
        all.append(&mut b);
        assert(movements@.take(i + 1).drop_last() =~= movements@.take(i as int));
        assert(movements@.take(i + 1).last() == movement);
        i += 1;
    }
    assert(movements@.take(movements@.len() as int) =~= movements@);
    let mut rights: Vec<CastleRight> = Vec::new();
    let mut k: usize = 0;
    while k < all.len()
        invariant
            k <= all@.len(),
            all@ == movement_rights(move_movements(*mov)),
            rights@ == held_rights(all@.take(k as int), state.castle_rights),
        decreases all@.len() - k,
    {
        let r = all[k];
        assert(all@.take(k + 1).drop_last() =~= all@.take(k as int));
        assert(all@.take(k + 1).last() == r);
        if state.can_castle(&r) {
            rights.push(r);
        } else {
            assert(rights@ =~= rights@ + Seq::<CastleRight>::empty());
        }
        k += 1;
    }
    assert(all@.take(all@.len() as int) =~= all@);
    rights
}

/// The hash a change is given ahead: the move, the lost rights, the en passant target of the
/// new state taken out and that of a first pawn move of two squares put in, and the turn.
pub open spec fn predicted_hash(old_id: u64, m: Move, revoked: Seq<CastleRight>, state: BoardState) -> u64 {
    let h1 = old_id ^ move_adjustment(m) ^ rights_adjustment(revoked);
    let h2 = match ep_square(state.en_passant_target) {
        Some(sq) => h1 ^ adjustment(BoardChange::EnPassantTarget(sq)),
        None => h1,
    };
    let h3 = match m {
        Move::TwoSquarePawnMove(t) => h2 ^ adjustment(BoardChange::EnPassantTarget(t.en_passant_target)),
        _ => h2,
    };
    h3 ^ crate::util::zobrist::TO_MOVE_BIT
}

fn predict_zobrist_update(old_id: u64, mov: &Move, revoked_castle_rights: &Vec<CastleRight>, state: &BoardState) -> (h: u64)
    ensures
        h == predicted_hash(old_id, *mov, revoked_castle_rights@, *state),
{
    let mut hash = ZobristId::from_id(old_id);
    hash.update_move(mov);
    let ghost h0 = hash@;
    let mut i: usize = 0;
    assert(revoked_castle_rights@.take(0) =~= Seq::<CastleRight>::empty());
    assert(h0 ^ 0u64 == h0) by (bit_vector);
    while i < revoked_castle_rights.len()
        invariant
            i <= revoked_castle_rights@.len(),
            hash@ == h0 ^ rights_adjustment(revoked_castle_rights@.take(i as int)),
        decreases revoked_castle_rights@.len() - i,
    {
        let right = revoked_castle_rights[i];
        hash.update_castle_right(right);
        proof {
            assert(revoked_castle_rights@.take(i + 1).drop_last() =~= revoked_castle_rights@.take(i as int));
            let a = rights_adjustment(revoked_castle_rights@.take(i as int));
            let b = adjustment(BoardChange::CastleRight(right));
            assert((h0 ^ a) ^ b == h0 ^ (a ^ b)) by (bit_vector);
        }
        i += 1;
    }
    assert(revoked_castle_rights@.take(revoked_castle_rights@.len() as int) =~= revoked_castle_rights@);
    if let Some(ep) = state.get_en_passant_target() {
        hash.update_en_passant(ep);
    }
    if let Move::TwoSquarePawnMove(m) = mov {
        hash.update_en_passant(m.en_passant_target);
    }
    hash.update_turn();
    hash.get_id()
}

/// The position, state and answers that a move gives, worked out ahead of making it.
pub open spec fn prepared_position(m: Move, pos: BoardPosition) -> BoardPosition {
    pos.applied(m)
}

/// The state that a change worked out ahead records.
pub open spec fn prepared_state(m: Move, state: BoardState) -> BoardState {
    BoardState {
        to_move: state.to_move.opponent(),
        castle_rights: revoke_all(state.castle_rights, lost_rights(m, state.castle_rights)),
        en_passant_target: match m {
            Move::TwoSquarePawnMove(t) => 1u64 << t.en_passant_target,
            _ => 0,
        },
        move_number: if state.to_move == Color::Black { (state.move_number + 1) as u8 } else { state.move_number },
        halfmove_clock: if move_capture(m) is Some || move_movements(m)[0].piece_type == PieceType::Pawn { 0 } else { (state.halfmove_clock + 1) as u8 },
    }
}

/// The calls of the answers to the checks a move gives: the king's under a double check, the
/// king's and those of the other pieces under a check, none otherwise.
pub open spec fn response_calls(m: Move, pos: BoardPosition, state: BoardState) -> Seq<BuildCall> {
    let p = prepared_position(m, pos);
    let s = prepared_state(m, state);
    let opp = state.to_move.opponent();
    let (attacks, attackers, pins, pinners, pinned) = p.attacks_and_pins(p.king_square(opp) as int, opp);
    if attacks.len() > 1 {
        color_king_calls(p, s.en_passant_target, opp)
    } else if attacks.len() == 1 {
        color_king_calls(p, s.en_passant_target, opp)
            + check_calls_by_piece(p, s.en_passant_target, attacks[0], masked_piece_squares(p, pieces_of_color(opp), !pinned))
    } else {
        seq![]
    }
}

/// The moves on which a change can be worked out ahead: the move fits the state, the side
/// that answers has a king, and the answers can be built.
pub open spec fn prepare_ok(m: Move, pos: BoardPosition, state: BoardState) -> bool {
    let p = prepared_position(m, pos);
    let opp = state.to_move.opponent();
    let attacks = p.attacks_and_pins(p.king_square(opp) as int, opp).0;
    &&& move_fits_state(state, m)
    &&& p.locations(opp, PieceType::King) != 0
    &&& attacks.len() == 1 ==> attacks[0].attacking_square < 64
    &&& calls_ok(p, prepared_state(m, state).en_passant_target, response_calls(m, pos, state))
}

/// Whether `ch` is the change worked out ahead for `m` from the position, state and hash.
pub open spec fn is_prepared(ch: ApplyableBoardChange, m: Move, pos: BoardPosition, state: BoardState, id: u64) -> bool {
    let p = prepared_position(m, pos);
    let s = prepared_state(m, state);
    let opp = state.to_move.opponent();
    let (attacks, attackers, pins, pinners, pinned) = p.attacks_and_pins(p.king_square(opp) as int, opp);
    &&& ch.new_move == m
    &&& ch.checks@ == attacks
    &&& ch.absolute_pins@ == pins
    &&& ch.pinned_pieces == pinned
    &&& ch.responses@ == moves_of_calls(p, s.en_passant_target, response_calls(m, pos, state))
    &&& ch.new_zobrist_id == predicted_hash(id, m, lost_rights(m, state.castle_rights), s)
    &&& ch.new_position == p
    &&& ch.new_state == s
}

fn prepare_change(mov: Move, position: &BoardPosition, state: &BoardState, board_id: u64) -> (ch: ApplyableBoardChange)
    requires
        prepare_ok(mov, *position, *state),
    ensures
        is_prepared(ch, mov, *position, *state, board_id),
{
    let mut updated_position = *position;
    let mut updated_state = *state;
    updated_position.apply_move(&mov);
    let opp = updated_state.get_move_color().swap();
    proof { lemma_king_found(updated_position, opp); }
    let checks_and_pins = updated_position.get_attacks_and_pins(updated_position.find_king(opp), opp);
    let revoked_castle_rights = predict_lost_castle_rights(&mov, &updated_state);
    let ghost base = updated_state;
    let mut i: usize = 0;
    while i < revoked_castle_rights.len()
        invariant
            i <= revoked_castle_rights@.len(),
            updated_state == (BoardState { castle_rights: revoke_all(base.castle_rights, revoked_castle_rights@.take(i as int)), ..base }),
        decreases revoked_castle_rights@.len() - i,
    {
        assert(revoked_castle_rights@.take(i + 1).drop_last() =~= revoked_castle_rights@.take(i as int));
        updated_state.revoke_castle_right(&revoked_castle_rights[i]);
        i += 1;
    }
    assert(revoked_castle_rights@.take(revoked_castle_rights@.len() as int) =~= revoked_castle_rights@);
    if let Move::TwoSquarePawnMove(m) = mov {
        updated_state.set_en_passant_target(m.en_passant_target);
    } else {
        updated_state.clear_en_passant_target();
    }
    updated_state.increment_halfmove_clock();
    let movements = mov.get_piece_movements();
    if mov.get_capture().is_some() {
        updated_state.reset_halfmove_clock();
    } else if movements[0].get_piece().piece_type == PieceType::Pawn {
        updated_state.reset_halfmove_clock();
    }
    if updated_state.get_move_color() == Color::Black {
        updated_state.increment_move_number();
    }
    updated_state.change_move_color();
    assert(updated_state == prepared_state(mov, *state));
    let updated_zobrist_id = predict_zobrist_update(board_id, &mov, &revoked_castle_rights, &updated_state);
    let ep = updated_state.en_passant_target;
    let responses: Vec<Move> = if checks_and_pins.attacks.len() > 1 {
        get_legal_king_moves(&updated_position, opp, ep)
    } else if checks_and_pins.attacks.len() == 1 {
        get_legal_moves_from_check(&updated_position, opp, &checks_and_pins.attacks[0], checks_and_pins.pinned, ep)
    } else {
        Vec::new()
    };
    assert(responses@ == moves_of_calls(updated_position, ep, response_calls(mov, *position, *state)));
    ApplyableBoardChange {
        new_move: mov,
        checks: checks_and_pins.attacks,
        absolute_pins: checks_and_pins.pins,
        pinned_pieces: checks_and_pins.pinned,
        responses: responses,
        new_zobrist_id: updated_zobrist_id,
        new_position: updated_position,
        new_state: updated_state,
    }
}

impl Board {
    /// The changes of all legal moves, worked out ahead one after the other, in the order of
    /// the legal moves.
    pub fn get_legal_moves_threaded(&self) -> (changes: Vec<ApplyableBoardChange>)
        requires
            self.can_generate_moves(),
            forall|i: int| 0 <= i < self.legal_moves().len() ==> prepare_ok(#[trigger] self.legal_moves()[i], self.position, self.state),
        ensures
            changes@.len() == self.legal_moves().len(),
            forall|i: int| 0 <= i < changes@.len() ==> is_prepared(#[trigger] changes@[i], self.legal_moves()[i], self.position, self.state, self.zobrist@),
    {
        let moves = self.get_legal_moves();
        let mut changes: Vec<ApplyableBoardChange> = Vec::new();
        let mut i: usize = 0;
        while i < moves.len()
            invariant
                i <= moves@.len(),
                moves@ == self.legal_moves(),
                forall|j: int| 0 <= j < moves@.len() ==> prepare_ok(#[trigger] moves@[j], self.position, self.state),
                changes@.len() == i,
                forall|j: int| 0 <= j < i ==> is_prepared(#[trigger] changes@[j], moves@[j], self.position, self.state, self.zobrist@),
            decreases moves@.len() - i,
        {
            let m = moves[i];
            assert(prepare_ok(moves@[i as int], self.position, self.state));
            let ch = prepare_change(m, &self.position, &self.state, self.zobrist.get_id());
            changes.push(ch);
            i += 1;
        }
        changes
    }
}

// ---------------------------------------------------------------------------
// Boards and FEN records
// ---------------------------------------------------------------------------

fn piece_map_from_fen_board(board: [[Option<Piece>; 8]; 8]) -> (map: Vec<(u8, Piece)>)
    ensures
        map@ == fen_pieces(board, 64),
{
    let mut piece_map: Vec<(u8, Piece)> = Vec::new();
    let mut row_index: usize = 0;
    while row_index < 8
        invariant
            row_index <= 8,
            piece_map@ == fen_pieces(board, (row_index * 8) as int),
        decreases 8 - row_index,
    {
        let row = board[7 - row_index];
        let mut col_index: usize = 0;
        while col_index < 8
            invariant
                row_index < 8,
                col_index <= 8,
                row == board@[7 - row_index],
                piece_map@ == fen_pieces(board, (row_index * 8 + col_index) as int),
            decreases 8 - col_index,
        {
            let n = col_index + row_index * 8;
            assert(fen_cell(board, n as int) == row@[col_index as int]);
            match row[col_index] {
                None => {},
                Some(piece) => {
                    piece_map.push(((col_index + (row_index * 8)) as u8, piece));
                },
            }
            col_index += 1;
        }
        row_index += 1;
    }
    piece_map
}

/// Putting the pieces of a board of rows, square by square, on an empty position gives a
/// well-formed position with those pieces on those squares.
pub proof fn lemma_fen_position(board: [[Option<Piece>; 8]; 8], n: int)
    requires
        0 <= n <= 64,
    ensures
        with_pieces(BoardPosition::empty(), fen_pieces(board, n)).wf(),
        forall|t: int| 0 <= t < 64 ==> #[trigger] with_pieces(BoardPosition::empty(), fen_pieces(board, n)).occupant(t)
            == if t < n { fen_cell(board, t) } else { None },
    decreases n,
{
    if n == 0 {
        let e = BoardPosition::empty();
        assert(fen_pieces(board, 0) =~= Seq::<(u8, Piece)>::empty());
        assert forall|t: int| 0 <= t < 64 implies #[trigger] e.square_consistent(t) by {}
        assert forall|t: int| 0 <= t < 64 implies #[trigger] e.occupant(t) == None::<Piece> by {}
    } else {
        lemma_fen_position(board, n - 1);
        let prev = with_pieces(BoardPosition::empty(), fen_pieces(board, n - 1));
        match fen_cell(board, n - 1) {
            Some(p) => {
                let list = fen_pieces(board, n);
                assert(list.drop_last() =~= fen_pieces(board, n - 1));
                assert(list.last() == ((n - 1) as u8, p));
                prev.lemma_with_piece(n - 1, p);
            },
            None => {
                assert(fen_pieces(board, n) =~= fen_pieces(board, n - 1));
            },
        }
    }
}

pub fn fen_board_from_position(position: &BoardPosition) -> (board: [[Option<Piece>; 8]; 8])
    ensures
        forall|r: int, c: int| 0 <= r < 8 && 0 <= c < 8 ==> #[trigger] board@[r]@[c] == position.occupant(c + (7 - r) * 8),
{
    let mut board: [[Option<Piece>; 8]; 8] = [[None; 8]; 8];
    let mut row: usize = 0;
    while row < 8
        invariant
            row <= 8,
            forall|r: int, c: int| 7 - row < r < 8 && 0 <= c < 8 ==> #[trigger] board@[r]@[c] == position.occupant(c + (7 - r) * 8),
        decreases 8 - row,
    {
        let index = 7 - row;
        let mut cells: [Option<Piece>; 8] = [None; 8];
        let mut col: usize = 0;
        while col < 8
            invariant
                row < 8,
                col <= 8,
                forall|c: int| 0 <= c < col ==> #[trigger] cells@[c] == position.occupant(c + row * 8),
            decreases 8 - col,
        {
            let square = (col + row * 8) as u8;
            cells[col] = position.piece_at(&square);
            col += 1;
        }
        board[index] = cells;
        row += 1;
    }
    board
}

/// The board a FEN record describes.
pub open spec fn board_of_fen_state(state: FenBoardState) -> Board {
    Board {
        position: with_pieces(BoardPosition::empty(), fen_pieces(state.board, 64)),
        state: BoardState {
            to_move: state.to_move,
            en_passant_target: match state.en_passant {
                Some(s) => 1u64 << (s.index() as u8),
                None => 0,
            },
            halfmove_clock: state.halfmove_timer,
            move_number: state.move_number,
            castle_rights: BoardCastles {
                white_kingside: state.castling.white_kingside,
                white_queenside: state.castling.white_queenside,
                black_kingside: state.castling.black_kingside,
                black_queenside: state.castling.black_queenside,
            },
        },
        zobrist: ZobristId::with_id(xor_all(fen_changes(state))),
    }
}

fn board_from_fen_state(state: FenBoardState) -> (b: Board)
    ensures
        b == board_of_fen_state(state),
{
    let piece_map = piece_map_from_fen_board(state.board);
    let zobrist = ZobristId::from_fen(&state);
    proof {
        lemma_fen_position(state.board, 64);
        ZobristId::lemma_with_id(zobrist@, zobrist);
        self::bitboards::lemma_squares_below(0, 0);
    }
    proof { lemma_fen_pieces_on_board(state.board, 64); }
    Board {
        position: BoardPosition::from_piece_map(piece_map),
        state: BoardState {
            to_move: state.to_move,
            en_passant_target: match state.en_passant {
                Some(s) => get_bit_for_square(s.value()),
                None => 0u64,
            },
            halfmove_clock: state.halfmove_timer,
            move_number: state.move_number,
            castle_rights: BoardCastles {
                white_kingside: state.castling.white_kingside,
                white_queenside: state.castling.white_queenside,
                black_kingside: state.castling.black_kingside,
                black_queenside: state.castling.black_queenside,
            },
        },
        zobrist: zobrist,
    }
}

/// The squares listed for the pieces of a board of rows are squares of the board, each listed
/// once.
pub proof fn lemma_fen_pieces_on_board(board: [[Option<Piece>; 8]; 8], n: int)
    requires
        0 <= n <= 64,
    ensures
        forall|i: int| 0 <= i < fen_pieces(board, n).len() ==> #[trigger] fen_pieces(board, n)[i].0 < n,
        forall|i: int, j: int| 0 <= i < j < fen_pieces(board, n).len()
            ==> (#[trigger] fen_pieces(board, n)[i]).0 != (#[trigger] fen_pieces(board, n)[j]).0,
    decreases n,
{
    if n > 0 {
        lemma_fen_pieces_on_board(board, n - 1);
        let prev = fen_pieces(board, n - 1);
        let cur = fen_pieces(board, n);
        assert forall|i: int| 0 <= i < cur.len() implies #[trigger] cur[i].0 < n by {
            if i < prev.len() {
                assert(cur[i] == prev[i]);
            }
        }
        assert forall|i: int, j: int| 0 <= i < j < cur.len() implies (#[trigger] cur[i]).0 != (#[trigger] cur[j]).0 by {
            assert(cur[i] == prev[i]);
            if j < prev.len() {
                assert(cur[j] == prev[j]);
            } else {
                assert(cur[j].0 == (n - 1) as u8);
                assert(prev[i].0 < n - 1);
            }
        }
    }
}

/// Whether a FEN record holds what a board holds.
pub open spec fn fen_state_of_board(st: FenBoardState, b: Board) -> bool {
    &&& forall|r: int, c: int| 0 <= r < 8 && 0 <= c < 8 ==> #[trigger] st.board@[r]@[c] == b.position.occupant(c + (7 - r) * 8)
    &&& st.to_move == b.state.to_move
    &&& st.castling == (Castling {
        white_kingside: b.state.castle_rights.white_kingside,
        white_queenside: b.state.castle_rights.white_queenside,
        black_kingside: b.state.castle_rights.black_kingside,
        black_queenside: b.state.castle_rights.black_queenside,
    })
    &&& (b.state.en_passant_target == 0 ==> st.en_passant is None)
    &&& (b.state.en_passant_target != 0 ==> (st.en_passant matches Some(sq)
        && sq.index() == vstd::std_specs::bits::u64_trailing_zeros(b.state.en_passant_target) as u8))
    &&& st.halfmove_timer == b.state.halfmove_clock
    &&& st.move_number == b.state.move_number
}

/// The FEN text of a board.
pub open spec fn fen_of(b: Board) -> Seq<char> {
    (choose|st: FenBoardState| fen_state_of_board(st, b)).text()
}

/// Every FEN state read off a board writes the same text.
pub proof fn lemma_fen_state_text(st: FenBoardState, b: Board)
    requires
        fen_state_of_board(st, b),
    ensures
        st.text() == fen_of(b),
{
    let c = choose|s: FenBoardState| fen_state_of_board(s, b);
    assert(fen_state_of_board(c, b));
    assert forall|r: int| 0 <= r < 8 implies st.board@[r]@ =~= c.board@[r]@ by {
        assert forall|col: int| 0 <= col < 8 implies st.board@[r]@[col] == c.board@[r]@[col] by {
            assert(st.board@[r]@[col] == b.position.occupant(col + (7 - r) * 8));
            assert(c.board@[r]@[col] == b.position.occupant(col + (7 - r) * 8));
        }
    }
    assert(rows_of(st.board) =~= rows_of(c.board));
    assert(en_passant_text(st.en_passant) == en_passant_text(c.en_passant));
}

fn fen_state_from_board(board: &Board) -> (st: FenBoardState)
    ensures
        fen_state_of_board(st, *board),
{
    FenBoardState {
        board: fen_board_from_position(&board.position),
        to_move: board.state.to_move,
        castling: Castling {
            white_kingside: board.state.castle_rights.white_kingside,
            white_queenside: board.state.castle_rights.white_queenside,
            black_kingside: board.state.castle_rights.black_kingside,
            black_queenside: board.state.castle_rights.black_queenside,
        },
        en_passant: match board.state.get_en_passant_target() {
            None => None,
            Some(x) => {
                proof { vstd::std_specs::bits::axiom_u64_trailing_zeros(board.state.en_passant_target); }
                Some(BoardSquare::from_value(x))
            },
        },
        halfmove_timer: board.state.halfmove_clock,
        move_number: board.state.move_number,
    }
}

impl Board {
    pub fn from_fen(fen: &str) -> (b: Board)
        requires
            is_fen(fen@),
        ensures
            exists|st: FenBoardState| st.read_from(fen@) && b == board_of_fen_state(st),
    {
        let parsed_fen = FenBoardState::from_fen(fen);
        let b = board_from_fen_state(parsed_fen);
        assert(parsed_fen.read_from(fen@) && b == board_of_fen_state(parsed_fen));
        b
    }

    pub fn from_starting_position() -> (b: Board)
        ensures
            exists|st: FenBoardState| st.read_from(STARTING_POSITION@) && b == board_of_fen_state(st),
    {
        proof { lemma_starting_position_is_fen(); }
        Self::from_fen(STARTING_POSITION)
    }

    pub fn to_fen(&self) -> (s: String)
        ensures
            exists|st: FenBoardState| fen_state_of_board(st, *self) && s@ == st.text(),
            s@ == fen_of(*self),
            is_fen(s@),
    {
        let st = fen_state_from_board(self);
        let s = st.to_fen();
        assert(fen_state_of_board(st, *self) && s@ == st.text());
        proof { lemma_fen_state_text(st, *self); }
        s
    }
}

} // verus!
