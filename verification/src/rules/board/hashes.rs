use vstd::prelude::*;

use crate::rules::Color;
use crate::rules::board::{Board, associated_rights, held_rights, lost_rights, movement_rights, move_fits_state, predicted_hash,
    prepared_position, prepared_state, revoke_all, touches, black_kingside, black_queenside, revoke_for_movement, revoke_for_movements, revoke_if,
    rights_adjustment, white_kingside, white_queenside};
use crate::rules::board::positions::BoardPosition;
use crate::rules::board::state::{BoardCastles, CastleRight, ep_square, lemma_ep_square_of_single};
use crate::rules::pieces::movement::PieceMovement;
use crate::rules::pieces::movement::CastleType;
use crate::util::zobrist::{ZobristId, fen_changes, fen_head_changes, lemma_xor_all_concat, lemma_xor_all_remove, location_change, xor_all};
use crate::util::fen::{FenBoardState, fen_cell, fen_pieces};
use crate::rules::board::{BuildCall, built_moves, castle_move, castle_moves, moves_of_calls, option_moves};
use crate::rules::pieces::movement::Castle;
use crate::rules::board::positions::castling_squares;
use crate::rules::board::bits::bit;
use crate::rules::board::bitboards::{lemma_squares_below, squares_of};
use crate::rules::board::{board_of_fen_state, fen_of, fen_state_of_board, lemma_fen_position, lemma_fen_state_text};
use crate::util::fen::lemma_fen_text_reads_back;
use crate::rules::board::positions::with_pieces;
use crate::rules::pieces::{Piece, PieceType};
use crate::rules::pieces::movement::{Move, move_capture, move_movements};
use crate::util::zobrist::{adjustment, location_key, move_adjustment, movements_adjustment, BoardChange, TO_MOVE_BIT};

verus! {


// ---------------------------------------------------------------------------
// Facts of exclusive or
// ---------------------------------------------------------------------------

/// Zero changes nothing, a number undoes itself, and grouping and order do not matter.
proof fn lemma_xor_basics(a: u64, b: u64, c: u64, d: u64)
    by (bit_vector)
    ensures
        a ^ 0u64 == a,
        0u64 ^ a == a,
        a ^ a == 0u64,
        (a ^ b) ^ c == a ^ (b ^ c),
        (a ^ b) ^ (c ^ d) == (a ^ c) ^ (b ^ d),
        a ^ d == (a ^ b) ^ b ^ d,
        (a ^ b ^ d) ^ c == (a ^ c) ^ b ^ d,
        (a ^ b) ^ (c ^ b) == a ^ c,
        a ^ b == c ^ 0u64 ==> a == c ^ b,
{
}

/// The changes a move with one moving piece makes to the squares' numbers add up to what the
/// move changes in a hash.
proof fn lemma_xor_one_mover(hp: u64, ks: u64, ke: u64, kc: u64)
    by (bit_vector)
    ensures
        (hp ^ ks ^ 0u64) ^ kc ^ ke == hp ^ ((ks ^ ke ^ 0u64) ^ kc),
        (hp ^ ks ^ 0u64) ^ 0u64 ^ ke == hp ^ (ks ^ ke ^ 0u64),
        (hp ^ ks ^ 0u64) ^ 0u64 ^ ke ^ kc ^ 0u64 == hp ^ ((ks ^ ke ^ 0u64) ^ kc),
        (hp ^ ks ^ 0u64) ^ 0u64 ^ ke ^ 0u64 ^ 0u64 == hp ^ (ks ^ ke ^ 0u64),
{
}

/// The same for castling, where the king and a rook move.
proof fn lemma_xor_castle(hp: u64, x1: u64, x2: u64, x3: u64, x4: u64)
    by (bit_vector)
    ensures
        (hp ^ x1 ^ 0u64) ^ 0u64 ^ x2 ^ x3 ^ 0u64 ^ 0u64 ^ x4 == hp ^ (x1 ^ x2 ^ (x3 ^ x4 ^ 0u64)),
{
}

/// Dropping one of four numbers is adding it once more.
proof fn lemma_xor_drop_one(a: u64, b: u64, d: u64, e: u64, k: u64)
    by (bit_vector)
    ensures
        0u64 ^ b ^ d ^ e == (k ^ b ^ d ^ e) ^ k,
        a ^ 0u64 ^ d ^ e == (a ^ k ^ d ^ e) ^ k,
        a ^ b ^ 0u64 ^ e == (a ^ b ^ k ^ e) ^ k,
        a ^ b ^ d ^ 0u64 == (a ^ b ^ d ^ k) ^ k,
{
}

/// The hash after a move, step by step, is the hash of the board it leaves.
proof fn lemma_xor_after_move(p: u64, rh: u64, eo: u64, t0: u64, ma: u64, ra: u64, en: u64, bit: u64)
    by (bit_vector)
    ensures
        (((((p ^ rh ^ eo ^ t0) ^ ma) ^ ra) ^ eo) ^ en) ^ bit == (p ^ ma) ^ (rh ^ ra) ^ en ^ (t0 ^ bit),
{
}

/// The hash of a read board, feature by feature, is its hash from scratch.
proof fn lemma_xor_read_board(t: u64, e: u64, a: u64, q: u64, k: u64, r: u64, ph: u64)
    by (bit_vector)
    ensures
        ((((t ^ e) ^ a) ^ q) ^ k) ^ r ^ ph == ph ^ (a ^ q ^ k ^ r) ^ e ^ t,
{
}

// ---------------------------------------------------------------------------
// Folding numbers with exclusive or
// ---------------------------------------------------------------------------

/// The exclusive or of the numbers `f` gives the squares below `n`.
pub open spec fn xor_fold(f: spec_fn(int) -> u64, n: int) -> u64
    decreases n,
{
    if n <= 0 {
        0
    } else {
        xor_fold(f, n - 1) ^ f(n - 1)
    }
}

/// Folding numbers that agree below `n` gives the same result.
proof fn lemma_fold_same(f: spec_fn(int) -> u64, g: spec_fn(int) -> u64, n: int)
    requires
        forall|s: int| 0 <= s < n ==> #[trigger] f(s) == g(s),
    ensures
        xor_fold(f, n) == xor_fold(g, n),
    decreases n,
{
    if n > 0 {
        lemma_fold_same(f, g, n - 1);
    }
}

/// The exclusive or of two functions of squares.
pub open spec fn xor_fns(f: spec_fn(int) -> u64, g: spec_fn(int) -> u64) -> spec_fn(int) -> u64 {
    |s: int| f(s) ^ g(s)
}

/// Folding the exclusive or of two functions is the exclusive or of their folds.
proof fn lemma_fold_xor(f: spec_fn(int) -> u64, g: spec_fn(int) -> u64, n: int)
    ensures
        xor_fold(xor_fns(f, g), n) == xor_fold(f, n) ^ xor_fold(g, n),
    decreases n,
{
    if n > 0 {
        lemma_fold_xor(f, g, n - 1);
        let a = xor_fold(f, n - 1);
        let b = xor_fold(g, n - 1);
        let x = f(n - 1);
        let y = g(n - 1);
        assert(xor_fns(f, g)(n - 1) == x ^ y);
        lemma_xor_basics(a, x, b, y);
    } else {
        lemma_xor_basics(0u64, 0u64, 0u64, 0u64);
    }
}

/// Folding a function that is zero but on one square gives its number there.
proof fn lemma_fold_point(f: spec_fn(int) -> u64, a: int, n: int)
    requires
        forall|s: int| s != a ==> #[trigger] f(s) == 0,
    ensures
        xor_fold(f, n) == if 0 <= a < n { f(a) } else { 0 },
    decreases n,
{
    if n > 0 {
        lemma_fold_point(f, a, n - 1);
        let r = xor_fold(f, n - 1);
        let x = f(n - 1);
        lemma_xor_basics(r, 0u64, 0u64, 0u64);
        lemma_xor_basics(x, 0u64, 0u64, 0u64);
    }
}

/// A function of squares with the number on one square replaced.
pub open spec fn upd(f: spec_fn(int) -> u64, a: int, v: u64) -> spec_fn(int) -> u64 {
    |s: int| if s == a { v } else { f(s) }
}

/// Replacing the number on one square below `n` changes the fold by the old and new numbers.
proof fn lemma_fold_upd(f: spec_fn(int) -> u64, a: int, v: u64, n: int)
    requires
        0 <= a < n,
    ensures
        xor_fold(upd(f, a, v), n) == xor_fold(f, n) ^ f(a) ^ v,
    decreases n,
{
    let g = upd(f, a, v);
    if a == n - 1 {
        assert forall|s: int| 0 <= s < n - 1 implies #[trigger] g(s) == f(s) by {}
        lemma_fold_same(g, f, n - 1);
        let r = xor_fold(f, n - 1);
        let x = f(a);
        lemma_xor_basics(r, x, 0u64, v);
    } else {
        lemma_fold_upd(f, a, v, n - 1);
        let r = xor_fold(f, n - 1);
        let x = f(a);
        let y = f(n - 1);
        lemma_xor_basics(r, x, y, v);
    }
}

// ---------------------------------------------------------------------------
// The hash of a board, from scratch
// ---------------------------------------------------------------------------

/// What a square of a position adds to the hash: the number of the piece on it, if any.
pub open spec fn square_key(pos: BoardPosition, s: int) -> u64 {
    match pos.occupant(s) {
        Some(p) => location_key(s as u8, p),
        None => 0,
    }
}

/// The numbers the squares of a position add to the hash.
pub open spec fn square_keys(pos: BoardPosition) -> spec_fn(int) -> u64 {
    |s: int| square_key(pos, s)
}

/// The hash of the pieces of a position.
pub open spec fn pieces_hash(pos: BoardPosition) -> u64 {
    xor_fold(square_keys(pos), 64)
}

/// Making a fitting move changes the hash of the pieces by what the move changes in a hash.
pub proof fn lemma_pieces_hash_move(p: BoardPosition, m: Move)
    requires
        p.wf(),
        p.move_fits(m),
    ensures
        pieces_hash(p.applied(m)) == pieces_hash(p) ^ move_adjustment(m),
{
    p.lemma_applied(m);
    let q = p.applied(m);
    let kp = square_keys(p);
    let kq = square_keys(q);
    let hp = pieces_hash(p);
    reveal_with_fuel(movements_adjustment, 3);
    match m {
        Move::NewGame(_) => {
            assert forall|s: int| 0 <= s < 64 implies #[trigger] kq(s) == kp(s) by {
                assert(q.occupant(s) == p.occupant(s));
            }
            lemma_fold_same(kq, kp, 64);
            assert(move_movements(m).len() == 0);
            assert(move_adjustment(m) == 0);
            lemma_xor_basics(hp, 0u64, 0u64, 0u64);
        },
        Move::BasicMove(b) => {
            let (st, e) = (b.start as int, b.end as int);
            let k1 = upd(kp, st, kq(st));
            let k2 = upd(k1, e, kq(e));
            lemma_fold_upd(kp, st, kq(st), 64);
            lemma_fold_upd(k1, e, kq(e), 64);
            assert forall|s: int| 0 <= s < 64 implies #[trigger] k2(s) == kq(s) by {
                if s != st && s != e {
                    assert(q.occupant(s) == p.occupant(s));
                }
            }
            lemma_fold_same(k2, kq, 64);
            let ks = location_key(b.start, b.piece);
            let ke = location_key(b.end, b.piece);
            assert(kp(st) == ks);
            assert(kq(st) == 0);
            assert(kq(e) == ke);
            match b.capture {
                Some(c) => {
                    let kc = location_key(b.end, c);
                    assert(k1(e) == kc);
                    assert(move_adjustment(m) == (ks ^ ke ^ 0u64) ^ kc);
                    lemma_xor_one_mover(hp, ks, ke, kc);
                },
                None => {
                    assert(k1(e) == 0);
                    assert(move_adjustment(m) == ks ^ ke ^ 0u64);
                    lemma_xor_one_mover(hp, ks, ke, 0u64);
                },
            }
        },
        Move::TwoSquarePawnMove(t) => {
            let b = t.basic_move;
            let (st, e) = (b.start as int, b.end as int);
            let k1 = upd(kp, st, kq(st));
            let k2 = upd(k1, e, kq(e));
            lemma_fold_upd(kp, st, kq(st), 64);
            lemma_fold_upd(k1, e, kq(e), 64);
            assert forall|s: int| 0 <= s < 64 implies #[trigger] k2(s) == kq(s) by {
                if s != st && s != e {
                    assert(q.occupant(s) == p.occupant(s));
                }
            }
            lemma_fold_same(k2, kq, 64);
            let ks = location_key(b.start, b.piece);
            let ke = location_key(b.end, b.piece);
            assert(kp(st) == ks);
            assert(kq(st) == 0);
            assert(kq(e) == ke);
            match b.capture {
                Some(c) => {
                    let kc = location_key(b.end, c);
                    assert(k1(e) == kc);
                    assert(move_adjustment(m) == (ks ^ ke ^ 0u64) ^ kc);
                    lemma_xor_one_mover(hp, ks, ke, kc);
                },
                None => {
                    assert(k1(e) == 0);
                    assert(move_adjustment(m) == ks ^ ke ^ 0u64);
                    lemma_xor_one_mover(hp, ks, ke, 0u64);
                },
            }
        },
        Move::Promotion(pr) => {
            let b = pr.basic_move;
            let (st, e) = (b.start as int, b.end as int);
            let k1 = upd(kp, st, kq(st));
            let k2 = upd(k1, e, kq(e));
            lemma_fold_upd(kp, st, kq(st), 64);
            lemma_fold_upd(k1, e, kq(e), 64);
            assert forall|s: int| 0 <= s < 64 implies #[trigger] k2(s) == kq(s) by {
                if s != st && s != e {
                    assert(q.occupant(s) == p.occupant(s));
                }
            }
            lemma_fold_same(k2, kq, 64);
            let ks = location_key(b.start, b.piece);
            let ke = location_key(b.end, Piece { color: b.piece.color, piece_type: pr.promote_to });
            assert(kp(st) == ks);
            assert(kq(st) == 0);
            assert(kq(e) == ke);
            match b.capture {
                Some(c) => {
                    let kc = location_key(b.end, c);
                    assert(k1(e) == kc);
                    assert(move_adjustment(m) == (ks ^ ke ^ 0u64) ^ kc);
                    lemma_xor_one_mover(hp, ks, ke, kc);
                },
                None => {
                    assert(k1(e) == 0);
                    assert(move_adjustment(m) == ks ^ ke ^ 0u64);
                    lemma_xor_one_mover(hp, ks, ke, 0u64);
                },
            }
        },
        Move::EnPassant(ep) => {
            let b = ep.basic_move;
            let (st, e, cs) = (b.start as int, b.end as int, ep.capture_square as int);
            let k1 = upd(kp, st, kq(st));
            let k2 = upd(k1, e, kq(e));
            let k3 = upd(k2, cs, kq(cs));
            lemma_fold_upd(kp, st, kq(st), 64);
            lemma_fold_upd(k1, e, kq(e), 64);
            lemma_fold_upd(k2, cs, kq(cs), 64);
            assert forall|s: int| 0 <= s < 64 implies #[trigger] k3(s) == kq(s) by {
                if s != st && s != e && s != cs {
                    assert(q.occupant(s) == p.occupant(s));
                }
            }
            lemma_fold_same(k3, kq, 64);
            let ks = location_key(b.start, b.piece);
            let ke = location_key(b.end, b.piece);
            assert(kp(st) == ks);
            assert(kq(st) == 0);
            assert(k1(e) == 0);
            assert(kq(e) == ke);
            assert(kq(cs) == 0);
            match b.capture {
                Some(c) => {
                    let kc = location_key(ep.capture_square, c);
                    assert(k2(cs) == kc);
                    assert(move_adjustment(m) == (ks ^ ke ^ 0u64) ^ kc);
                    lemma_xor_one_mover(hp, ks, ke, kc);
                },
                None => {
                    assert(k2(cs) == 0);
                    assert(move_adjustment(m) == ks ^ ke ^ 0u64);
                    lemma_xor_one_mover(hp, ks, ke, 0u64);
                },
            }
        },
        Move::Castle(c) => {
            let king = Piece { color: c.color, piece_type: PieceType::King };
            let rook = Piece { color: c.color, piece_type: PieceType::Rook };
            let (a, b2, r1, r2) = (c.king_start as int, c.king_end as int, c.rook_start as int, c.rook_end as int);
            let k1 = upd(kp, a, kq(a));
            let k2 = upd(k1, b2, kq(b2));
            let k3 = upd(k2, r1, kq(r1));
            let k4 = upd(k3, r2, kq(r2));
            lemma_fold_upd(kp, a, kq(a), 64);
            lemma_fold_upd(k1, b2, kq(b2), 64);
            lemma_fold_upd(k2, r1, kq(r1), 64);
            lemma_fold_upd(k3, r2, kq(r2), 64);
            assert forall|s: int| 0 <= s < 64 implies #[trigger] k4(s) == kq(s) by {
                if s != a && s != b2 && s != r1 && s != r2 {
                    assert(q.occupant(s) == p.occupant(s));
                }
            }
            lemma_fold_same(k4, kq, 64);
            let x1 = location_key(c.king_start, king);
            let x2 = location_key(c.king_end, king);
            let x3 = location_key(c.rook_start, rook);
            let x4 = location_key(c.rook_end, rook);
            assert(kp(a) == x1);
            assert(kq(a) == 0);
            assert(k1(b2) == 0);
            assert(kq(b2) == x2);
            assert(k2(r1) == x3);
            assert(kq(r1) == 0);
            assert(k3(r2) == 0);
            assert(kq(r2) == x4);
            assert(move_capture(m) is None);
            assert(move_adjustment(m) == x1 ^ x2 ^ (x3 ^ x4 ^ 0u64));
            lemma_xor_castle(hp, x1, x2, x3, x4);
        },
    }
}

/// What a castling right adds to the hash when it is held.
pub open spec fn right_key(held: bool, r: CastleRight) -> u64 {
    if held { adjustment(BoardChange::CastleRight(r)) } else { 0 }
}

/// The hash of the castling rights held.
pub open spec fn rights_hash(c: BoardCastles) -> u64 {
    right_key(c.white_kingside, white_kingside()) ^ right_key(c.white_queenside, white_queenside())
        ^ right_key(c.black_kingside, black_kingside()) ^ right_key(c.black_queenside, black_queenside())
}

/// What an en passant target adds to the hash.
pub open spec fn ep_hash(target: u64) -> u64 {
    match ep_square(target) {
        Some(sq) => adjustment(BoardChange::EnPassantTarget(sq)),
        None => 0,
    }
}

/// What the side to move adds to the hash.
pub open spec fn turn_hash(c: Color) -> u64 {
    match c {
        Color::White => 0,
        Color::Black => TO_MOVE_BIT,
    }
}

/// The hash of a board from scratch: its pieces, castling rights, en passant target and side
/// to move.
pub open spec fn board_hash(b: Board) -> u64 {
    pieces_hash(b.position) ^ rights_hash(b.state.castle_rights) ^ ep_hash(b.state.en_passant_target) ^ turn_hash(b.state.to_move)
}

/// Revoking a held right takes its number out of the hash of the rights.
proof fn lemma_rights_revoke(c: BoardCastles, r: CastleRight)
    requires
        c.allows(r),
    ensures
        rights_hash(c.with_right(r, false)) == rights_hash(c) ^ adjustment(BoardChange::CastleRight(r)),
{
    let k = adjustment(BoardChange::CastleRight(r));
    let a = right_key(c.white_kingside, white_kingside());
    let b = right_key(c.white_queenside, white_queenside());
    let d = right_key(c.black_kingside, black_kingside());
    let e = right_key(c.black_queenside, black_queenside());
    match (r.color, r.side) {
        (Color::White, CastleType::Kingside) => {
            assert(a == k);
            lemma_xor_drop_one(a, b, d, e, k);
        },
        (Color::White, CastleType::Queenside) => {
            assert(b == k);
            lemma_xor_drop_one(a, b, d, e, k);
        },
        (Color::Black, CastleType::Kingside) => {
            assert(d == k);
            lemma_xor_drop_one(a, b, d, e, k);
        },
        (Color::Black, CastleType::Queenside) => {
            assert(e == k);
            lemma_xor_drop_one(a, b, d, e, k);
        },
    }
}

/// The rights held together with the rights recorded as revoked: what revoking keeps the same.
pub open spec fn rights_kept(acc: (Seq<CastleRight>, BoardCastles)) -> u64 {
    rights_hash(acc.1) ^ rights_adjustment(acc.0)
}

proof fn lemma_revoke_if_keeps(acc: (Seq<CastleRight>, BoardCastles), r: CastleRight, hit: bool)
    ensures
        rights_kept(revoke_if(acc, r, hit)) == rights_kept(acc),
{
    if hit && acc.1.allows(r) {
        lemma_rights_revoke(acc.1, r);
        let pushed = acc.0.push(r);
        assert(pushed.drop_last() =~= acc.0);
        let h = rights_hash(acc.1);
        let ra = rights_adjustment(acc.0);
        let k = adjustment(BoardChange::CastleRight(r));
        lemma_xor_basics(h, k, ra, 0u64);
    }
}

proof fn lemma_revoke_movement_keeps(acc: (Seq<CastleRight>, BoardCastles), m: PieceMovement)
    ensures
        rights_kept(revoke_for_movement(acc, m)) == rights_kept(acc),
{
    let a1 = revoke_if(acc, white_kingside(), m.start_square == 4 || m.end_square == 4);
    lemma_revoke_if_keeps(acc, white_kingside(), m.start_square == 4 || m.end_square == 4);
    let a2 = revoke_if(a1, white_queenside(), m.start_square == 4 || m.end_square == 4);
    lemma_revoke_if_keeps(a1, white_queenside(), m.start_square == 4 || m.end_square == 4);
    let a3 = revoke_if(a2, black_kingside(), m.start_square == 60 || m.end_square == 60);
    lemma_revoke_if_keeps(a2, black_kingside(), m.start_square == 60 || m.end_square == 60);
    let a4 = revoke_if(a3, black_queenside(), m.start_square == 60 || m.end_square == 60);
    lemma_revoke_if_keeps(a3, black_queenside(), m.start_square == 60 || m.end_square == 60);
    let a5 = revoke_if(a4, white_kingside(), m.start_square == 7 || m.end_square == 7);
    lemma_revoke_if_keeps(a4, white_kingside(), m.start_square == 7 || m.end_square == 7);
    let a6 = revoke_if(a5, white_queenside(), m.start_square == 0 || m.end_square == 0);
    lemma_revoke_if_keeps(a5, white_queenside(), m.start_square == 0 || m.end_square == 0);
    let a7 = revoke_if(a6, black_kingside(), m.start_square == 63 || m.end_square == 63);
    lemma_revoke_if_keeps(a6, black_kingside(), m.start_square == 63 || m.end_square == 63);
    lemma_revoke_if_keeps(a7, black_queenside(), m.start_square == 56 || m.end_square == 56);
}

proof fn lemma_revocations_keep(acc: (Seq<CastleRight>, BoardCastles), ms: Seq<PieceMovement>)
    ensures
        rights_kept(revoke_for_movements(acc, ms)) == rights_kept(acc),
    decreases ms.len(),
{
    if ms.len() > 0 {
        lemma_revocations_keep(acc, ms.drop_last());
        lemma_revoke_movement_keeps(revoke_for_movements(acc, ms.drop_last()), ms.last());
    }
}

/// The hash of a board follows its moves: when a board's hash is the hash of its position and
/// state, a move that fits the position leaves a board whose hash is again the hash of its
/// position and state.
pub proof fn lemma_hash_follows_move(b: Board, m: Move)
    requires
        b.position.wf(),
        b.position.move_fits(m),
        b.zobrist@ == board_hash(b),
        m matches Move::TwoSquarePawnMove(t) ==> t.en_passant_target < 64,
    ensures
        b.after_move(m).zobrist@ == board_hash(b.after_move(m)),
{
    let a = b.after_move(m);
    ZobristId::lemma_with_id(b.moved_hash(m), a.zobrist);
    lemma_pieces_hash_move(b.position, m);
    lemma_revocations_keep((seq![], b.state.castle_rights), move_movements(m));
    let p = pieces_hash(b.position);
    let ma = move_adjustment(m);
    let rh = rights_hash(b.state.castle_rights);
    let rh2 = rights_hash(b.revocations(m).1);
    let ra = rights_adjustment(b.revocations(m).0);
    assert(rights_adjustment(Seq::<CastleRight>::empty()) == 0);
    assert(rh2 ^ ra == rh ^ 0u64);
    let eo = ep_hash(b.state.en_passant_target);
    let en = ep_hash(a.state.en_passant_target);
    match m {
        Move::TwoSquarePawnMove(t) => {
            lemma_ep_square_of_single(t.en_passant_target);
            assert(en == adjustment(BoardChange::EnPassantTarget(t.en_passant_target)));
        },
        _ => {
            assert(ep_square(0u64) is None);
            assert(en == 0);
        },
    }
    let t0 = turn_hash(b.state.to_move);
    let t1 = turn_hash(a.state.to_move);
    assert(t1 == t0 ^ TO_MOVE_BIT) by {
        lemma_xor_basics(TO_MOVE_BIT, 0u64, 0u64, 0u64);
    }
    let z = b.zobrist@;
    let h1 = z ^ ma;
    let h2 = h1 ^ ra;
    let h3 = h2 ^ eo;
    lemma_xor_basics(h2, 0u64, 0u64, 0u64);
    let h4 = h3 ^ en;
    lemma_xor_basics(h3, 0u64, 0u64, 0u64);
    assert(b.moved_hash(m) == h4 ^ TO_MOVE_BIT);
    assert(pieces_hash(a.position) == p ^ ma);
    assert(a.state.castle_rights == b.revocations(m).1);
    let bit = TO_MOVE_BIT;
    assert(z == p ^ rh ^ eo ^ t0);
    assert(rh2 == rh ^ ra) by {
        lemma_xor_basics(rh2, ra, rh, 0u64);
    }
    lemma_xor_after_move(p, rh, eo, t0, ma, ra, en, bit);
}

/// The hash of one feature is its number.
proof fn lemma_xor_all_single(c: BoardChange)
    ensures
        xor_all(seq![c]) == adjustment(c),
{
    assert(seq![c].drop_last() =~= Seq::<BoardChange>::empty());
    assert(xor_all(Seq::<BoardChange>::empty()) == 0);
    assert(seq![c].last() == c);
    assert(xor_all(seq![c]) == xor_all(seq![c].drop_last()) ^ adjustment(c));
    let x = adjustment(c);
    lemma_xor_basics(x, 0u64, 0u64, 0u64);
}

/// The pieces of a board of rows on the squares below `n` hash as the squares below `n` of
/// the position they make.
proof fn lemma_fen_pieces_hash(board: [[Option<Piece>; 8]; 8], n: int)
    requires
        0 <= n <= 64,
    ensures
        xor_all(fen_pieces(board, n).map_values(|x: (u8, Piece)| location_change(x)))
            == xor_fold(square_keys(with_pieces(BoardPosition::empty(), fen_pieces(board, 64))), n),
    decreases n,
{
    let pos = with_pieces(BoardPosition::empty(), fen_pieces(board, 64));
    lemma_fen_position(board, 64);
    if n == 0 {
        assert(fen_pieces(board, 0).map_values(|x: (u8, Piece)| location_change(x)) =~= Seq::<BoardChange>::empty());
    } else {
        lemma_fen_pieces_hash(board, n - 1);
        let prev = fen_pieces(board, n - 1).map_values(|x: (u8, Piece)| location_change(x));
        let whole = fen_pieces(board, n).map_values(|x: (u8, Piece)| location_change(x));
        let r = xor_fold(square_keys(pos), n - 1);
        assert(pos.occupant(n - 1) == fen_cell(board, n - 1));
        match fen_cell(board, n - 1) {
            Some(p) => {
                let c = location_change(((n - 1) as u8, p));
                assert(whole =~= prev + seq![c]);
                lemma_xor_all_concat(prev, seq![c]);
                lemma_xor_all_single(c);
                assert(square_keys(pos)(n - 1) == location_key((n - 1) as u8, p));
            },
            None => {
                assert(whole =~= prev);
                assert(square_keys(pos)(n - 1) == 0);
                lemma_xor_basics(r, 0u64, 0u64, 0u64);
            },
        }
    }
}

/// A board read from a FEN record has the hash of its position and state.
pub proof fn lemma_fen_board_hash(st: FenBoardState)
    ensures
        board_of_fen_state(st).zobrist@ == board_hash(board_of_fen_state(st)),
{
    let b = board_of_fen_state(st);
    ZobristId::lemma_with_id(xor_all(fen_changes(st)), b.zobrist);
    lemma_fen_pieces_hash(st.board, 64);
    let pieces = fen_pieces(st.board, 64).map_values(|x: (u8, Piece)| location_change(x));
    lemma_xor_all_concat(fen_head_changes(st), pieces);
    let p1 = if st.to_move == Color::Black { seq![BoardChange::BlackToMove] } else { seq![] };
    let p2 = match st.en_passant { Some(sq) => seq![BoardChange::EnPassantTarget(sq.index() as u8)], None => seq![] };
    let p3 = if st.castling.white_kingside { seq![BoardChange::CastleRight(white_kingside())] } else { seq![] };
    let p4 = if st.castling.white_queenside { seq![BoardChange::CastleRight(white_queenside())] } else { seq![] };
    let p5 = if st.castling.black_kingside { seq![BoardChange::CastleRight(black_kingside())] } else { seq![] };
    let p6 = if st.castling.black_queenside { seq![BoardChange::CastleRight(black_queenside())] } else { seq![] };
    assert(fen_head_changes(st) == p1 + p2 + p3 + p4 + p5 + p6);
    lemma_xor_all_concat(p1, p2);
    lemma_xor_all_concat(p1 + p2, p3);
    lemma_xor_all_concat(p1 + p2 + p3, p4);
    lemma_xor_all_concat(p1 + p2 + p3 + p4, p5);
    lemma_xor_all_concat(p1 + p2 + p3 + p4 + p5, p6);
    let t = turn_hash(st.to_move);
    let e = ep_hash(b.state.en_passant_target);
    let a = right_key(st.castling.white_kingside, white_kingside());
    let q = right_key(st.castling.white_queenside, white_queenside());
    let k = right_key(st.castling.black_kingside, black_kingside());
    let r = right_key(st.castling.black_queenside, black_queenside());
    if st.to_move == Color::Black {
        lemma_xor_all_single(BoardChange::BlackToMove);
    }
    assert(xor_all(p1) == t);
    match st.en_passant {
        Some(sq) => {
            assert(0 <= sq.index() < 64);
            lemma_ep_square_of_single(sq.index() as u8);
            lemma_xor_all_single(BoardChange::EnPassantTarget(sq.index() as u8));
        },
        None => {
            assert(ep_square(0u64) is None);
        },
    }
    assert(xor_all(p2) == e);
    if st.castling.white_kingside { lemma_xor_all_single(BoardChange::CastleRight(white_kingside())); }
    if st.castling.white_queenside { lemma_xor_all_single(BoardChange::CastleRight(white_queenside())); }
    if st.castling.black_kingside { lemma_xor_all_single(BoardChange::CastleRight(black_kingside())); }
    if st.castling.black_queenside { lemma_xor_all_single(BoardChange::CastleRight(black_queenside())); }
    assert(xor_all(p3) == a);
    assert(xor_all(p4) == q);
    assert(xor_all(p5) == k);
    assert(xor_all(p6) == r);
    let ph = pieces_hash(b.position);
    lemma_xor_read_board(t, e, a, q, k, r, ph);
}

/// The board read back from a board's FEN record has the board's position and state, when its
/// two black castling rights are both held or both lost and its en passant target is none or
/// a single square.
proof fn lemma_board_fen_same(b: Board, st: FenBoardState, read: FenBoardState)
    requires
        b.position.wf(),
        b.state.castle_rights.black_queenside == b.state.castle_rights.black_kingside,
        b.state.en_passant_target == 0 || exists|s: u8| s < 64 && b.state.en_passant_target == 1u64 << s,
        fen_state_of_board(st, b),
        read.read_from(st.text()),
    ensures
        board_of_fen_state(read).position == b.position,
        board_of_fen_state(read).state == b.state,
{
    lemma_fen_text_reads_back(st, read);
    let r = board_of_fen_state(read);
    lemma_fen_position(read.board, 64);
    assert forall|t: int| 0 <= t < 64 implies #[trigger] r.position.occupant(t) == b.position.occupant(t) by {
        assert(r.position.occupant(t) == fen_cell(read.board, t));
        let row = 7 - t / 8;
        let col = t % 8;
        assert(read.board@[row]@[col] == st.board@[row]@[col]);
        assert(st.board@[row]@[col] == b.position.occupant(col + (7 - row) * 8));
        assert(col + (7 - row) * 8 == t);
    }
    r.position.lemma_occupant_ext(b.position);
    assert(r.state.castle_rights == b.state.castle_rights);
    if b.state.en_passant_target == 0 {
        assert(st.en_passant is None);
        assert(r.state.en_passant_target == 0);
    } else {
        let s = choose|s: u8| s < 64 && b.state.en_passant_target == 1u64 << s;
        lemma_ep_square_of_single(s);
        let sq = st.en_passant->0;
        assert(sq.index() == s);
        let sq2 = read.en_passant->0;
        assert(sq2.index() == s);
        assert(r.state.en_passant_target == 1u64 << s);
    }
    assert(r.state == b.state);
}

/// Writing a board as a FEN record and reading the record back gives the board again, when the
/// board's hash is the hash of its position and state, its two black castling rights are both
/// held or both lost (the record writes both black letters for the black kingside right), and
/// its en passant target is none or a single square.
pub proof fn lemma_board_fen_round_trip(b: Board, st: FenBoardState, read: FenBoardState)
    requires
        b.position.wf(),
        b.zobrist@ == board_hash(b),
        b.state.castle_rights.black_queenside == b.state.castle_rights.black_kingside,
        b.state.en_passant_target == 0 || exists|s: u8| s < 64 && b.state.en_passant_target == 1u64 << s,
        fen_state_of_board(st, b),
        read.read_from(st.text()),
    ensures
        board_of_fen_state(read) == b,
{
    lemma_board_fen_same(b, st, read);
    let r = board_of_fen_state(read);
    lemma_fen_board_hash(read);
    assert(r.zobrist@ == b.zobrist@);
    ZobristId::lemma_view_eq(r.zobrist, b.zobrist);
}

/// The hash of the FEN record of a board, computed from scratch, is the hash of its position
/// and state.
proof fn lemma_fen_hash_is_board_hash(b: Board, st: FenBoardState, read: FenBoardState)
    requires
        b.position.wf(),
        b.state.castle_rights.black_queenside == b.state.castle_rights.black_kingside,
        b.state.en_passant_target == 0 || exists|s: u8| s < 64 && b.state.en_passant_target == 1u64 << s,
        fen_state_of_board(st, b),
        read.read_from(st.text()),
    ensures
        xor_all(fen_changes(read)) == board_hash(b),
{
    lemma_board_fen_same(b, st, read);
    lemma_fen_board_hash(read);
    ZobristId::lemma_with_id(xor_all(fen_changes(read)), board_of_fen_state(read).zobrist);
}

/// The hash that making a move updates step by step is the hash computed from scratch from
/// the FEN record of the board reached, when it was so before the move: the pieces, the side
/// to move, the castling rights and the en passant target. This holds when both boards grant
/// both black rights or neither (the record writes both black letters for the black kingside
/// right).
pub proof fn lemma_move_hash_matches_fen(b: Board, m: Move, st0: FenBoardState, read0: FenBoardState,
    st1: FenBoardState, read1: FenBoardState)
    requires
        b.position.wf(),
        b.position.move_fits(m),
        move_fits_state(b.state, m),
        b.state.castle_rights.black_queenside == b.state.castle_rights.black_kingside,
        b.after_move(m).state.castle_rights.black_queenside == b.after_move(m).state.castle_rights.black_kingside,
        b.state.en_passant_target == 0 || exists|s: u8| s < 64 && b.state.en_passant_target == 1u64 << s,
        fen_state_of_board(st0, b),
        read0.read_from(st0.text()),
        b.zobrist@ == xor_all(fen_changes(read0)),
        fen_state_of_board(st1, b.after_move(m)),
        read1.read_from(st1.text()),
    ensures
        b.after_move(m).zobrist@ == xor_all(fen_changes(read1)),
{
    lemma_fen_hash_is_board_hash(b, st0, read0);
    lemma_hash_follows_move(b, m);
    let a = b.after_move(m);
    b.position.lemma_applied(m);
    if let Move::TwoSquarePawnMove(t) = m {
        assert(a.state.en_passant_target == 1u64 << t.en_passant_target);
    }
    lemma_fen_hash_is_board_hash(a, st1, read1);
}

// ---------------------------------------------------------------------------
// A change worked out ahead and the move made
// ---------------------------------------------------------------------------

/// A list of rights after each listed right is revoked holds a right when it held it before
/// and the list does not name it.
proof fn lemma_revoke_all_allows(c: BoardCastles, rs: Seq<CastleRight>, r: CastleRight)
    ensures
        revoke_all(c, rs).allows(r) == (c.allows(r) && !rs.contains(r)),
    decreases rs.len(),
{
    if rs.len() > 0 {
        lemma_revoke_all_allows(c, rs.drop_last(), r);
        assert(rs.contains(r) <==> (rs.drop_last().contains(r) || rs.last() == r)) by {
            if rs.contains(r) {
                let i = choose|i: int| 0 <= i < rs.len() && rs[i] == r;
                if i < rs.len() - 1 { assert(rs.drop_last()[i] == r); }
            }
            if rs.drop_last().contains(r) {
                let i = choose|i: int| 0 <= i < rs.drop_last().len() && rs.drop_last()[i] == r;
                assert(rs[i] == r);
            }
            if rs.last() == r { assert(rs[rs.len() - 1] == r); }
        }
    }
}

/// The held rights of a list are the rights that it names and that are held.
proof fn lemma_held_rights_contains(rs: Seq<CastleRight>, c: BoardCastles, r: CastleRight)
    ensures
        held_rights(rs, c).contains(r) == (rs.contains(r) && c.allows(r)),
    decreases rs.len(),
{
    if rs.len() > 0 {
        lemma_held_rights_contains(rs.drop_last(), c, r);
        lemma_contains_push(rs.drop_last(), rs.last(), r);
        assert(rs.drop_last().push(rs.last()) =~= rs);
        let h = held_rights(rs.drop_last(), c);
        let tail = if c.allows(rs.last()) { seq![rs.last()] } else { Seq::<CastleRight>::empty() };
        lemma_contains_concat(h, tail, r);
        if tail.contains(r) { assert(tail[0] == r); }
        if c.allows(rs.last()) && rs.last() == r { assert(tail[0] == r); }
    }
}

proof fn lemma_contains_push(s: Seq<CastleRight>, x: CastleRight, r: CastleRight)
    ensures
        s.push(x).contains(r) == (s.contains(r) || x == r),
{
    if s.push(x).contains(r) {
        let i = choose|i: int| 0 <= i < s.push(x).len() && s.push(x)[i] == r;
        if i < s.len() { assert(s[i] == r); }
    }
    if s.contains(r) {
        let i = choose|i: int| 0 <= i < s.len() && s[i] == r;
        assert(s.push(x)[i] == r);
    }
    if x == r { assert(s.push(x)[s.len() as int] == r); }
}

proof fn lemma_contains_concat(a: Seq<CastleRight>, b: Seq<CastleRight>, r: CastleRight)
    ensures
        (a + b).contains(r) == (a.contains(r) || b.contains(r)),
{
    if (a + b).contains(r) {
        let i = choose|i: int| 0 <= i < (a + b).len() && (a + b)[i] == r;
        if i < a.len() { assert(a[i] == r); } else { assert(b[i - a.len()] == r); }
    }
    if a.contains(r) {
        let i = choose|i: int| 0 <= i < a.len() && a[i] == r;
        assert((a + b)[i] == r);
    }
    if b.contains(r) {
        let i = choose|i: int| 0 <= i < b.len() && b[i] == r;
        assert((a + b)[a.len() + i] == r);
    }
}

/// Whether a castling right belongs to a square: a king's square holds both rights of its
/// color, a rook's corner one.
pub open spec fn owns(sq: int, r: CastleRight) -> bool {
    ||| (sq == 0 || sq == 4) && r == white_queenside()
    ||| (sq == 7 || sq == 4) && r == white_kingside()
    ||| (sq == 56 || sq == 60) && r == black_queenside()
    ||| (sq == 63 || sq == 60) && r == black_kingside()
}

proof fn lemma_associated_contains(sq: int, r: CastleRight)
    ensures
        associated_rights(sq).contains(r) == owns(sq, r),
{
    let a = if sq == 0 || sq == 4 { seq![white_queenside()] } else { Seq::<CastleRight>::empty() };
    let b = if sq == 7 || sq == 4 { seq![white_kingside()] } else { Seq::<CastleRight>::empty() };
    let c = if sq == 56 || sq == 60 { seq![black_queenside()] } else { Seq::<CastleRight>::empty() };
    let d = if sq == 63 || sq == 60 { seq![black_kingside()] } else { Seq::<CastleRight>::empty() };
    lemma_contains_concat(a, b, r);
    lemma_contains_concat(a + b, c, r);
    lemma_contains_concat(a + b + c, d, r);
    if a.contains(r) { assert(a[0] == r); }
    if b.contains(r) { assert(b[0] == r); }
    if c.contains(r) { assert(c[0] == r); }
    if d.contains(r) { assert(d[0] == r); }
    if (sq == 0 || sq == 4) && r == white_queenside() { assert(a[0] == r); }
    if (sq == 7 || sq == 4) && r == white_kingside() { assert(b[0] == r); }
    if (sq == 56 || sq == 60) && r == black_queenside() { assert(c[0] == r); }
    if (sq == 63 || sq == 60) && r == black_kingside() { assert(d[0] == r); }
}

/// What revoking along movements keeps: the list records, once each, the rights that were
/// held at first and are no longer, and a right is still held when it was and no movement
/// touches a square it belongs to.
spec fn revoke_inv(acc: (Seq<CastleRight>, BoardCastles), c: BoardCastles) -> bool {
    &&& acc.0.no_duplicates()
    &&& forall|r: CastleRight| #[trigger] acc.0.contains(r) == (c.allows(r) && !acc.1.allows(r))
    &&& forall|r: CastleRight| acc.1.allows(r) ==> #[trigger] c.allows(r)
}

proof fn lemma_revoke_if_inv(acc: (Seq<CastleRight>, BoardCastles), c: BoardCastles, r0: CastleRight, hit: bool)
    requires
        revoke_inv(acc, c),
    ensures
        revoke_inv(revoke_if(acc, r0, hit), c),
        forall|r: CastleRight| #[trigger] revoke_if(acc, r0, hit).1.allows(r) == (acc.1.allows(r) && !(hit && r == r0)),
{
    if hit && acc.1.allows(r0) {
        let n = acc.0.push(r0);
        assert forall|r: CastleRight| #[trigger] n.contains(r) == (c.allows(r) && !acc.1.with_right(r0, false).allows(r)) by {
            lemma_contains_push(acc.0, r0, r);
        }
        assert(!acc.0.contains(r0));
        assert forall|i: int, j: int| 0 <= i < n.len() && 0 <= j < n.len() && i != j implies n[i] != n[j] by {
            if i == acc.0.len() { assert(acc.0[j] == n[j]); }
            if j == acc.0.len() { assert(acc.0[i] == n[i]); }
        }
    }
}

proof fn lemma_revoke_movement_inv(acc: (Seq<CastleRight>, BoardCastles), c: BoardCastles, m: PieceMovement)
    requires
        revoke_inv(acc, c),
    ensures
        revoke_inv(revoke_for_movement(acc, m), c),
        forall|r: CastleRight| #[trigger] revoke_for_movement(acc, m).1.allows(r)
            == (acc.1.allows(r) && !owns(m.start_square as int, r) && !owns(m.end_square as int, r)),
{
    let a1 = revoke_if(acc, white_kingside(), touches(m, 4));
    lemma_revoke_if_inv(acc, c, white_kingside(), touches(m, 4));
    let a2 = revoke_if(a1, white_queenside(), touches(m, 4));
    lemma_revoke_if_inv(a1, c, white_queenside(), touches(m, 4));
    let a3 = revoke_if(a2, black_kingside(), touches(m, 60));
    lemma_revoke_if_inv(a2, c, black_kingside(), touches(m, 60));
    let a4 = revoke_if(a3, black_queenside(), touches(m, 60));
    lemma_revoke_if_inv(a3, c, black_queenside(), touches(m, 60));
    let a5 = revoke_if(a4, white_kingside(), touches(m, 7));
    lemma_revoke_if_inv(a4, c, white_kingside(), touches(m, 7));
    let a6 = revoke_if(a5, white_queenside(), touches(m, 0));
    lemma_revoke_if_inv(a5, c, white_queenside(), touches(m, 0));
    let a7 = revoke_if(a6, black_kingside(), touches(m, 63));
    lemma_revoke_if_inv(a6, c, black_kingside(), touches(m, 63));
    lemma_revoke_if_inv(a7, c, black_queenside(), touches(m, 56));
}

proof fn lemma_revoke_movements_inv(c: BoardCastles, ms: Seq<PieceMovement>)
    ensures
        revoke_inv(revoke_for_movements((seq![], c), ms), c),
        forall|r: CastleRight| #[trigger] revoke_for_movements((seq![], c), ms).1.allows(r)
            == (c.allows(r) && !movement_rights(ms).contains(r)),
    decreases ms.len(),
{
    if ms.len() == 0 {
        assert(revoke_inv((Seq::<CastleRight>::empty(), c), c));
    } else {
        let prev = revoke_for_movements((seq![], c), ms.drop_last());
        lemma_revoke_movements_inv(c, ms.drop_last());
        let m = ms.last();
        lemma_revoke_movement_inv(prev, c, m);
        assert forall|r: CastleRight| #[trigger] revoke_for_movements((seq![], c), ms).1.allows(r)
            == (c.allows(r) && !movement_rights(ms).contains(r)) by {
            let x = movement_rights(ms.drop_last());
            let y = associated_rights(m.start_square as int);
            let z = associated_rights(m.end_square as int);
            lemma_contains_concat(x, y, r);
            lemma_contains_concat(x + y, z, r);
            lemma_associated_contains(m.start_square as int, r);
            lemma_associated_contains(m.end_square as int, r);
        }
    }
}

proof fn lemma_castles_ext(a: BoardCastles, b: BoardCastles)
    requires
        forall|r: CastleRight| #[trigger] a.allows(r) == b.allows(r),
    ensures
        a == b,
{
    assert(a.allows(white_kingside()) == b.allows(white_kingside()));
    assert(a.allows(white_queenside()) == b.allows(white_queenside()));
    assert(a.allows(black_kingside()) == b.allows(black_kingside()));
    assert(a.allows(black_queenside()) == b.allows(black_queenside()));
}

spec fn castle_changes(rs: Seq<CastleRight>) -> Seq<BoardChange> {
    rs.map_values(|r: CastleRight| BoardChange::CastleRight(r))
}

proof fn lemma_rights_as_changes(rs: Seq<CastleRight>)
    ensures
        rights_adjustment(rs) == xor_all(castle_changes(rs)),
    decreases rs.len(),
{
    if rs.len() > 0 {
        lemma_rights_as_changes(rs.drop_last());
        assert(castle_changes(rs).drop_last() =~= castle_changes(rs.drop_last()));
    }
}

/// Two lists naming the same rights, each once, change a hash alike.
proof fn lemma_rights_adjustment_same(a: Seq<CastleRight>, b: Seq<CastleRight>)
    requires
        a.no_duplicates(),
        b.no_duplicates(),
        forall|r: CastleRight| #[trigger] a.contains(r) == b.contains(r),
    ensures
        rights_adjustment(a) == rights_adjustment(b),
    decreases a.len(),
{
    if a.len() == 0 {
        if b.len() > 0 {
            assert(b.contains(b[0]));
            assert(a.contains(b[0]));
        }
        assert(b.len() == 0);
        assert(rights_adjustment(a) == 0);
        assert(rights_adjustment(b) == 0);
    } else {
        let x = a.last();
        let a1 = a.drop_last();
        assert(a.contains(x)) by { assert(a[a.len() - 1] == x); }
        assert(b.contains(x));
        let j = choose|j: int| 0 <= j < b.len() && b[j] == x;
        let b1 = b.remove(j);
        assert forall|r: CastleRight| #[trigger] a1.contains(r) == b1.contains(r) by {
            if a1.contains(r) {
                let i = choose|i: int| 0 <= i < a1.len() && a1[i] == r;
                assert(a[i] == r);
                assert(r != x);
                assert(a.contains(r));
                assert(b.contains(r));
                let k = choose|k: int| 0 <= k < b.len() && b[k] == r;
                if k < j { assert(b1[k] == r); } else { assert(b1[k - 1] == r); }
            }
            if b1.contains(r) {
                let k = choose|k: int| 0 <= k < b1.len() && b1[k] == r;
                if k < j { assert(b[k] == r); assert(k != j); } else { assert(b[k + 1] == r); }
                assert(r != x);
                assert(a.contains(r));
                let i = choose|i: int| 0 <= i < a.len() && a[i] == r;
                assert(i != a.len() - 1);
                assert(a1[i] == r);
            }
        }
        assert forall|p: int, q: int| 0 <= p < b1.len() && 0 <= q < b1.len() && p != q implies b1[p] != b1[q] by {
            let pp = if p < j { p } else { p + 1 };
            let qq = if q < j { q } else { q + 1 };
            assert(b1[p] == b[pp]);
            assert(b1[q] == b[qq]);
        }
        lemma_rights_adjustment_same(a1, b1);
        lemma_rights_as_changes(b);
        lemma_rights_as_changes(b1);
        assert(castle_changes(b1) =~= castle_changes(b).remove(j));
        lemma_xor_all_remove(castle_changes(b), j);
        assert(castle_changes(b)[j] == BoardChange::CastleRight(x));
        assert(rights_adjustment(a) == rights_adjustment(a1) ^ adjustment(BoardChange::CastleRight(x)));
        assert(rights_adjustment(b) == rights_adjustment(b1) ^ adjustment(BoardChange::CastleRight(x)));
        assert(rights_adjustment(a1) == rights_adjustment(b1));
    }
}

/// A change worked out ahead for a move, and the move made on the board, agree: the change
/// holds the position and the state that making the move gives. Its hash is the one making
/// the move gives when the board has no en passant target, the move is no first pawn move of
/// two squares, and no right is lost twice over (a castling loses the right of its rook's
/// corner once for the king's square and once for the rook's): the change takes out the en
/// passant target of the state it leads to, where making the move takes out the old one, and
/// takes out each lost right as often as it is named.
pub proof fn lemma_prepared_matches_move(b: Board, m: Move)
    requires
        move_fits_state(b.state, m),
        m is Promotion ==> move_movements(m)[0].piece_type == PieceType::Pawn,
    ensures
        prepared_position(m, b.position) == b.after_move(m).position,
        prepared_state(m, b.state) == b.after_move(m).state,
        b.ep() == 0 && !(m is TwoSquarePawnMove) && lost_rights(m, b.state.castle_rights).no_duplicates()
            ==> predicted_hash(b.zobrist@, m, lost_rights(m, b.state.castle_rights), prepared_state(m, b.state))
                == b.after_move(m).zobrist@,
{
    let c = b.state.castle_rights;
    let ms = move_movements(m);
    let rev = b.revocations(m);
    let lost = lost_rights(m, c);
    lemma_revoke_movements_inv(c, ms);
    assert forall|r: CastleRight| #[trigger] revoke_all(c, lost).allows(r) == rev.1.allows(r) by {
        lemma_revoke_all_allows(c, lost, r);
        lemma_held_rights_contains(movement_rights(ms), c, r);
    }
    lemma_castles_ext(revoke_all(c, lost), rev.1);
    ZobristId::lemma_with_id(b.moved_hash(m), b.after_move(m).zobrist);
    if b.ep() == 0 && !(m is TwoSquarePawnMove) && lost.no_duplicates() {
        assert forall|r: CastleRight| #[trigger] lost.contains(r) == rev.0.contains(r) by {
            lemma_held_rights_contains(movement_rights(ms), c, r);
        }
        lemma_rights_adjustment_same(lost, rev.0);
        assert(prepared_state(m, b.state).en_passant_target == 0);
    }
}

/// A FEN record as the writer writes it, read into a board and written again, comes back the
/// same, when it grants both black rights or neither (the writer writes the black queenside
/// letter from the black kingside right).
pub proof fn lemma_fen_text_board_text(st: FenBoardState, read: FenBoardState)
    requires
        st.castling.black_queenside == st.castling.black_kingside,
        read.read_from(st.text()),
    ensures
        fen_of(board_of_fen_state(read)) == st.text(),
{
    lemma_fen_text_reads_back(st, read);
    let b = board_of_fen_state(read);
    lemma_fen_position(read.board, 64);
    assert forall|r: int, c: int| 0 <= r < 8 && 0 <= c < 8 implies #[trigger] st.board@[r]@[c]
        == b.position.occupant(c + (7 - r) * 8) by {
        let t = c + (7 - r) * 8;
        assert(t / 8 == 7 - r && t % 8 == c) by (nonlinear_arith)
            requires t == c + (7 - r) * 8, 0 <= r < 8, 0 <= c < 8;
        assert(b.position.occupant(t) == fen_cell(read.board, t));
        assert(read.board@[r]@[c] == st.board@[r]@[c]);
    }
    if st.en_passant is Some {
        let sq = st.en_passant->0;
        let rsq = read.en_passant->0;
        let i = rsq.index() as u8;
        assert(0 <= rsq.index() < 64);
        lemma_ep_square_of_single(i);
        assert(b.state.en_passant_target == 1u64 << i);
        assert(b.state.en_passant_target != 0);
        assert(vstd::std_specs::bits::u64_trailing_zeros(b.state.en_passant_target) as u8 == i);
    }
    assert(fen_state_of_board(st, b));
    lemma_fen_state_text(st, b);
}

/// Whether a movement starts or ends on a square that a right belongs to.
pub open spec fn movement_owns(mv: PieceMovement, r: CastleRight) -> bool {
    owns(mv.start_square as int, r) || owns(mv.end_square as int, r)
}

/// Whether a movement of the move starts or ends on a square that a right belongs to.
pub open spec fn move_touches_right(m: Move, r: CastleRight) -> bool {
    exists|i: int| 0 <= i < move_movements(m).len() && #[trigger] movement_owns(move_movements(m)[i], r)
}

proof fn lemma_movement_rights_contains(ms: Seq<PieceMovement>, r: CastleRight)
    ensures
        movement_rights(ms).contains(r) == exists|i: int| 0 <= i < ms.len() && #[trigger] movement_owns(ms[i], r),
    decreases ms.len(),
{
    if ms.len() > 0 {
        let p = ms.drop_last();
        lemma_movement_rights_contains(p, r);
        let m = ms.last();
        let x = movement_rights(p);
        let y = associated_rights(m.start_square as int);
        let z = associated_rights(m.end_square as int);
        lemma_contains_concat(x, y, r);
        lemma_contains_concat(x + y, z, r);
        lemma_associated_contains(m.start_square as int, r);
        lemma_associated_contains(m.end_square as int, r);
        if exists|i: int| 0 <= i < p.len() && #[trigger] movement_owns(p[i], r) {
            let i = choose|i: int| 0 <= i < p.len() && #[trigger] movement_owns(p[i], r);
            assert(p[i] == ms[i]);
            assert(movement_owns(ms[i], r));
        }
        if exists|i: int| 0 <= i < ms.len() && #[trigger] movement_owns(ms[i], r) {
            let i = choose|i: int| 0 <= i < ms.len() && #[trigger] movement_owns(ms[i], r);
            if i < p.len() {
                assert(p[i] == ms[i]);
                assert(movement_owns(p[i], r));
            } else {
                assert(ms[i] == m);
            }
        }
        if movement_owns(m, r) {
            assert(ms[ms.len() - 1] == m);
            assert(movement_owns(ms[ms.len() - 1], r));
        }
    }
}

/// What making a move does to the castling rights: each right still held that belongs to a
/// square the move starts or ends a movement on is listed once and revoked; every other right
/// stays as it was.
pub proof fn lemma_revocations(b: Board, m: Move)
    ensures
        b.revocations(m).0.no_duplicates(),
        forall|r: CastleRight| #[trigger] b.revocations(m).0.contains(r)
            == (b.state.castle_rights.allows(r) && move_touches_right(m, r)),
        forall|r: CastleRight| #[trigger] b.revocations(m).1.allows(r)
            == (b.state.castle_rights.allows(r) && !move_touches_right(m, r)),
{
    let c = b.state.castle_rights;
    let ms = move_movements(m);
    lemma_revoke_movements_inv(c, ms);
    assert forall|r: CastleRight| #[trigger] movement_rights(ms).contains(r) == move_touches_right(m, r) by {
        lemma_movement_rights_contains(ms, r);
    }
    assert forall|r: CastleRight| #[trigger] b.revocations(m).0.contains(r)
        == (c.allows(r) && move_touches_right(m, r)) by {
        assert(movement_rights(ms).contains(r) == move_touches_right(m, r));
        assert(b.revocations(m).1.allows(r) == (c.allows(r) && !movement_rights(ms).contains(r)));
    }
    assert forall|r: CastleRight| #[trigger] b.revocations(m).1.allows(r)
        == (c.allows(r) && !move_touches_right(m, r)) by {
        assert(movement_rights(ms).contains(r) == move_touches_right(m, r));
    }
}

/// The halfmove clock after a move, made or worked out ahead: back to zero after a capture or
/// a pawn move, one more after any other move (but a promotion, which making it also resets).
pub proof fn lemma_halfmove_clock_after_move(b: Board, m: Move)
    requires
        b.state.halfmove_clock < 255,
    ensures
        move_capture(m) is Some ==> b.after_move(m).state.halfmove_clock == 0,
        move_capture(m) is Some ==> prepared_state(m, b.state).halfmove_clock == 0,
        move_movements(m).len() > 0 && move_movements(m)[0].piece_type == PieceType::Pawn ==> {
            &&& b.after_move(m).state.halfmove_clock == 0
            &&& prepared_state(m, b.state).halfmove_clock == 0
        },
        move_capture(m) is None && !(m is Promotion) && move_movements(m).len() > 0
            && move_movements(m)[0].piece_type != PieceType::Pawn ==> {
            &&& b.after_move(m).state.halfmove_clock == b.state.halfmove_clock + 1
            &&& prepared_state(m, b.state).halfmove_clock == b.state.halfmove_clock + 1
        },
{
}

/// No move built for a list of calls is a castling.
proof fn lemma_calls_build_no_castles(pos: BoardPosition, ep: u64, calls: Seq<BuildCall>)
    ensures
        forall|i: int| 0 <= i < moves_of_calls(pos, ep, calls).len() ==> !(#[trigger] moves_of_calls(pos, ep, calls)[i] is Castle),
    decreases calls.len(),
{
    if calls.len() > 0 {
        let prev = calls.drop_last();
        lemma_calls_build_no_castles(pos, ep, prev);
        let c = calls.last();
        let built = built_moves(pos, ep, c.0, c.1, c.2);
        let all = moves_of_calls(pos, ep, calls);
        assert forall|i: int| 0 <= i < all.len() implies !(#[trigger] all[i] is Castle) by {
            if i >= moves_of_calls(pos, ep, prev).len() {
                assert(all[i] == built[i - moves_of_calls(pos, ep, prev).len()]);
            } else {
                assert(all[i] == moves_of_calls(pos, ep, prev)[i]);
            }
        }
    }
}

/// A castling is among the legal moves only when the side to move holds its right, the
/// squares between king and rook are empty, and neither a square the king passes over nor the
/// square it reaches is attacked (the king taken off the board); it moves king and rook as
/// castling does.
pub proof fn lemma_legal_castles_not_through_check(b: Board)
    ensures
        forall|i: int| 0 <= i < b.legal_moves().len() ==> (#[trigger] b.legal_moves()[i] matches Move::Castle(c) ==> {
            &&& c.color == b.state.to_move
            &&& b.state.castle_rights.allows(CastleRight { color: c.color, side: c.side })
            &&& castling_squares(c.color, c.side).transit_squares
                & (b.position.color_board(Color::White) | b.position.color_board(Color::Black)) == 0
            &&& forall|s: int| #[trigger] bit(castling_squares(c.color, c.side).king_transit_squares, s)
                ==> !b.position.attacked(s, c.color)
            &&& !b.position.attacked(castling_squares(c.color, c.side).king_end as int, c.color)
            &&& c.king_start == castling_squares(c.color, c.side).king_start
            &&& c.king_end == castling_squares(c.color, c.side).king_end
            &&& c.rook_start == castling_squares(c.color, c.side).rook_start
            &&& c.rook_end == castling_squares(c.color, c.side).rook_end
        }),
{
    let pos = b.position;
    let color = b.state.to_move;
    let built = moves_of_calls(pos, b.ep(), b.move_calls());
    let castles = if b.checks_and_pins().0.len() == 0 { castle_moves(pos, b.state, color) } else { seq![] };
    lemma_calls_build_no_castles(pos, b.ep(), b.move_calls());
    assert forall|i: int| 0 <= i < b.legal_moves().len() implies (#[trigger] b.legal_moves()[i] matches Move::Castle(c) ==> {
        &&& c.color == color
        &&& b.state.castle_rights.allows(CastleRight { color: c.color, side: c.side })
        &&& castling_squares(c.color, c.side).transit_squares
            & (pos.color_board(Color::White) | pos.color_board(Color::Black)) == 0
        &&& forall|s: int| #[trigger] bit(castling_squares(c.color, c.side).king_transit_squares, s)
            ==> !pos.attacked(s, c.color)
        &&& !pos.attacked(castling_squares(c.color, c.side).king_end as int, c.color)
        &&& c.king_start == castling_squares(c.color, c.side).king_start
        &&& c.king_end == castling_squares(c.color, c.side).king_end
        &&& c.rook_start == castling_squares(c.color, c.side).rook_start
        &&& c.rook_end == castling_squares(c.color, c.side).rook_end
    }) by {
        if i < built.len() {
            assert(b.legal_moves()[i] == built[i]);
        } else {
            let k = i - built.len();
            assert(b.legal_moves()[i] == castles[k]);
            let kc = castle_move(pos, b.state, color, CastleType::Kingside);
            let qc = castle_move(pos, b.state, color, CastleType::Queenside);
            let side = if kc is Some && k == 0 { CastleType::Kingside } else { CastleType::Queenside };
            let cm = castle_move(pos, b.state, color, side);
            assert(cm is Some && castles[k] == cm->0);
            let d = castling_squares(color, side);
            lemma_squares_below(d.king_transit_squares, 64);
            assert forall|s: int| #[trigger] bit(d.king_transit_squares, s) implies !pos.attacked(s, color) by {
                let passes = squares_of(d.king_transit_squares);
                if 0 <= s < 64 {
                    assert(passes.contains(s as u8));
                    let j = choose|j: int| 0 <= j < passes.len() && passes[j] == s as u8;
                    assert(!pos.attacked(passes[j] as int, color));
                } else {
                    assert(!bit(d.king_transit_squares, s));
                }
            }
        }
    }
}

/// When the king of the side to move is not in check, each castling whose right it holds,
/// whose squares between king and rook are empty, and whose king passes over and reaches no
/// attacked square is among the legal moves.
pub proof fn lemma_allowed_castles_are_legal(b: Board, side: CastleType)
    requires
        b.checks_and_pins().0.len() == 0,
        b.state.castle_rights.allows(CastleRight { color: b.state.to_move, side: side }),
        castling_squares(b.state.to_move, side).transit_squares
            & (b.position.color_board(Color::White) | b.position.color_board(Color::Black)) == 0,
        forall|s: int| #[trigger] bit(castling_squares(b.state.to_move, side).king_transit_squares, s)
            ==> !b.position.attacked(s, b.state.to_move),
        !b.position.attacked(castling_squares(b.state.to_move, side).king_end as int, b.state.to_move),
    ensures
        b.legal_moves().contains(Move::Castle(Castle {
            color: b.state.to_move,
            side: side,
            king_start: castling_squares(b.state.to_move, side).king_start,
            king_end: castling_squares(b.state.to_move, side).king_end,
            rook_start: castling_squares(b.state.to_move, side).rook_start,
            rook_end: castling_squares(b.state.to_move, side).rook_end,
        })),
{
    let pos = b.position;
    let color = b.state.to_move;
    let d = castling_squares(color, side);
    let passes = squares_of(d.king_transit_squares);
    lemma_squares_below(d.king_transit_squares, 64);
    assert(!(exists|i: int| 0 <= i < passes.len() && pos.attacked(#[trigger] passes[i] as int, color))) by {
        assert forall|i: int| 0 <= i < passes.len() implies !pos.attacked(#[trigger] passes[i] as int, color) by {
            assert(bit(d.king_transit_squares, passes[i] as int));
        }
    }
    let mv = Move::Castle(Castle { color: color, side: side, king_start: d.king_start, king_end: d.king_end,
        rook_start: d.rook_start, rook_end: d.rook_end });
    assert(castle_move(pos, b.state, color, side) == Some(mv));
    let built = moves_of_calls(pos, b.ep(), b.move_calls());
    let castles = castle_moves(pos, b.state, color);
    let k = match side { CastleType::Kingside => 0int, CastleType::Queenside => option_moves(castle_move(pos, b.state, color, CastleType::Kingside)).len() as int };
    assert(castles[k] == mv);
    assert(b.legal_moves()[built.len() + k] == mv);
}

/// After a move, made or worked out ahead, the other side is to move, the move number grows
/// after black's move, and the en passant target is the square a pawn moving two squares has
/// passed, or none.
pub proof fn lemma_state_after_move(b: Board, m: Move)
    requires
        b.state.to_move == Color::Black ==> b.state.move_number < 255,
    ensures
        b.after_move(m).state.to_move != b.state.to_move,
        prepared_state(m, b.state).to_move != b.state.to_move,
        b.after_move(m).state.move_number == if b.state.to_move == Color::Black { b.state.move_number + 1 } else { b.state.move_number as int },
        prepared_state(m, b.state).move_number == if b.state.to_move == Color::Black { b.state.move_number + 1 } else { b.state.move_number as int },
        m matches Move::TwoSquarePawnMove(t) ==> b.after_move(m).state.en_passant_target == 1u64 << t.en_passant_target
            && prepared_state(m, b.state).en_passant_target == 1u64 << t.en_passant_target,
        !(m is TwoSquarePawnMove) ==> b.after_move(m).state.en_passant_target == 0 && prepared_state(m, b.state).en_passant_target == 0,
{
}

} // verus!
