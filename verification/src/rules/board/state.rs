use vstd::prelude::*;
use vstd::std_specs::bits::u64_trailing_zeros;

use crate::rules::Color;
use crate::rules::pieces::movement::{CastleType, Move};
use super::bitboards::get_bit_for_square;
use super::positions::{Attack, Pin, BoardPosition};
use super::bits::{bit, group_bits};

verus! {

broadcast use group_bits;

/// Everything a move does to a board, worked out before it is made: the new position, state
/// and hash, the checks and pins it gives the side that answers, and, when that side is in
/// check, its answers.
#[derive(Clone)]
pub struct ApplyableBoardChange {
    pub new_move: Move,
    pub checks: Vec<Attack>,
    pub absolute_pins: Vec<Pin>,
    pub pinned_pieces: u64,
    pub responses: Vec<Move>,
    pub new_zobrist_id: u64,
    pub new_position: BoardPosition,
    pub new_state: BoardState,
}

/// What a board was before a move, so that the move can be taken back.
#[derive(Copy, Clone)]
pub struct ReversibleBoardChange {
    pub prior_zobrist_id: u64,
    pub prior_position: BoardPosition,
    pub prior_state: BoardState,
}

/// The right of one side to castle on one side of the board.
#[derive(Copy, Clone, PartialEq, Eq, Structural)]
pub struct CastleRight {
    pub color: Color,
    pub side: CastleType,
}

/// Which of the four castlings are still allowed.
#[derive(Copy, Clone, Debug, PartialEq, Eq, Structural)]
pub struct BoardCastles {
    pub white_kingside: bool,
    pub white_queenside: bool,
    pub black_kingside: bool,
    pub black_queenside: bool,
}

impl BoardCastles {
    /// Whether the right is still held.
    pub open spec fn allows(self, right: CastleRight) -> bool {
        match (right.color, right.side) {
            (Color::White, CastleType::Kingside) => self.white_kingside,
            (Color::White, CastleType::Queenside) => self.white_queenside,
            (Color::Black, CastleType::Kingside) => self.black_kingside,
            (Color::Black, CastleType::Queenside) => self.black_queenside,
        }
    }

    /// The same rights, with the one given set to `held`.
    pub open spec fn with_right(self, right: CastleRight, held: bool) -> BoardCastles {
        match (right.color, right.side) {
            (Color::White, CastleType::Kingside) => BoardCastles { white_kingside: held, ..self },
            (Color::White, CastleType::Queenside) => BoardCastles { white_queenside: held, ..self },
            (Color::Black, CastleType::Kingside) => BoardCastles { black_kingside: held, ..self },
            (Color::Black, CastleType::Queenside) => BoardCastles { black_queenside: held, ..self },
        }
    }

    pub fn revoke_right(&mut self, right: &CastleRight)
        ensures
            *final(self) == old(self).with_right(*right, false),
    {
        match (right.color, right.side) {
            (Color::White, CastleType::Kingside) => self.white_kingside = false,
            (Color::White, CastleType::Queenside) => self.white_queenside = false,
            (Color::Black, CastleType::Kingside) => self.black_kingside = false,
            (Color::Black, CastleType::Queenside) => self.black_queenside = false,
        }
    }

    pub fn unrevoke_right(&mut self, right: &CastleRight)
        ensures
            *final(self) == old(self).with_right(*right, true),
    {
        match (right.color, right.side) {
            (Color::White, CastleType::Kingside) => self.white_kingside = true,
            (Color::White, CastleType::Queenside) => self.white_queenside = true,
            (Color::Black, CastleType::Kingside) => self.black_kingside = true,
            (Color::Black, CastleType::Queenside) => self.black_queenside = true,
        }
    }

    pub fn can_castle(&self, right: CastleRight) -> (b: bool)
        ensures
            b == self.allows(right),
    {
        match (right.color, right.side) {
            (Color::White, CastleType::Kingside) => self.white_kingside,
            (Color::White, CastleType::Queenside) => self.white_queenside,
            (Color::Black, CastleType::Kingside) => self.black_kingside,
            (Color::Black, CastleType::Queenside) => self.black_queenside,
        }
    }
}

impl Default for BoardCastles {
    fn default() -> (c: Self)
        ensures
            c == (BoardCastles { white_kingside: true, white_queenside: true, black_kingside: true, black_queenside: true }),
    {
        BoardCastles { white_kingside: true, white_queenside: true, black_kingside: true, black_queenside: true }
    }
}

/// Giving back a right that was held and then revoked leaves the rights as they were, and
/// revoking or giving back a right touches no other right.
pub proof fn lemma_revoke_then_unrevoke(castles: BoardCastles, right: CastleRight, other: CastleRight)
    ensures
        castles.allows(right) ==> castles.with_right(right, false).with_right(right, true) == castles,
        !castles.with_right(right, false).allows(right),
        castles.with_right(right, true).allows(right),
        other != right ==> castles.with_right(right, false).allows(other) == castles.allows(other),
        other != right ==> castles.with_right(right, true).allows(other) == castles.allows(other),
{
}

/// The square of the lowest set bit of an en passant bitboard, if any bit is set.
pub open spec fn ep_square(target: u64) -> Option<u8> {
    if target == 0 {
        None
    } else {
        Some(u64_trailing_zeros(target) as u8)
    }
}

/// Whose move it is, the castling rights, the en passant target and the two clocks.
#[derive(Copy, Clone, PartialEq, Eq, Structural)]
pub struct BoardState {
    pub to_move: Color,
    pub castle_rights: BoardCastles,
    pub en_passant_target: u64,
    pub move_number: u8,
    pub halfmove_clock: u8,
}

impl Default for BoardState {
    fn default() -> (s: Self)
        ensures
            s == (BoardState {
                to_move: Color::White,
                castle_rights: BoardCastles { white_kingside: true, white_queenside: true, black_kingside: true, black_queenside: true },
                en_passant_target: 0,
                move_number: 0,
                halfmove_clock: 0,
            }),
    {
        BoardState {
            to_move: Color::White,
            castle_rights: BoardCastles::default(),
            en_passant_target: 0,
            move_number: 0,
            halfmove_clock: 0,
        }
    }
}

impl BoardState {
    pub fn reset_halfmove_clock(&mut self)
        ensures
            *final(self) == (BoardState { halfmove_clock: 0, ..*old(self) }),
    {
        self.halfmove_clock = 0;
    }

    pub fn increment_halfmove_clock(&mut self)
        requires
            old(self).halfmove_clock < 255,
        ensures
            *final(self) == (BoardState { halfmove_clock: (old(self).halfmove_clock + 1) as u8, ..*old(self) }),
    {
        self.halfmove_clock += 1;
    }

    pub fn increment_move_number(&mut self)
        requires
            old(self).move_number < 255,
        ensures
            *final(self) == (BoardState { move_number: (old(self).move_number + 1) as u8, ..*old(self) }),
    {
        self.move_number += 1;
    }

    pub fn get_move_color(&self) -> (c: Color)
        ensures
            c == self.to_move,
    {
        self.to_move
    }

    pub fn change_move_color(&mut self)
        ensures
            *final(self) == (BoardState { to_move: old(self).to_move.opponent(), ..*old(self) }),
    {
        self.to_move = self.to_move.swap();
    }

    pub fn clear_en_passant_target(&mut self) -> (r: Option<u8>)
        ensures
            *final(self) == (BoardState { en_passant_target: 0, ..*old(self) }),
            r == ep_square(old(self).en_passant_target),
    {
        let old_target = self.en_passant_target;
        self.en_passant_target = 0u64;
        if old_target == 0 {
            None
        } else {
            proof { vstd::std_specs::bits::axiom_u64_trailing_zeros(old_target); }
            Some(old_target.trailing_zeros() as u8)
        }
    }

    pub fn set_en_passant_target(&mut self, square: u8)
        requires
            square < 64,
        ensures
            *final(self) == (BoardState { en_passant_target: 1u64 << square, ..*old(self) }),
    {
        self.en_passant_target = get_bit_for_square(square)
    }

    pub fn get_en_passant_target(&self) -> (r: Option<u8>)
        ensures
            r == ep_square(self.en_passant_target),
    {
        if self.en_passant_target == 0 {
            None
        } else {
            proof { vstd::std_specs::bits::axiom_u64_trailing_zeros(self.en_passant_target); }
            Some(self.en_passant_target.trailing_zeros() as u8)
        }
    }

    pub fn can_castle(&self, castle: &CastleRight) -> (b: bool)
        ensures
            b == self.castle_rights.allows(*castle),
    {
        self.castle_rights.can_castle(*castle)
    }

    pub fn revoke_castle_right(&mut self, castle: &CastleRight)
        ensures
            *final(self) == (BoardState { castle_rights: old(self).castle_rights.with_right(*castle, false), ..*old(self) }),
    {
        self.castle_rights.revoke_right(castle);
    }

    pub fn return_castle_right(&mut self, castle: &CastleRight)
        ensures
            *final(self) == (BoardState { castle_rights: old(self).castle_rights.with_right(*castle, true), ..*old(self) }),
    {
        self.castle_rights.unrevoke_right(castle);
    }
}

/// The square that an en passant target names is the one set in a target made from it.
pub proof fn lemma_ep_square_of_single(square: u8)
    requires
        square < 64,
    ensures
        ep_square(1u64 << square) == Some(square),
{
    let b = 1u64 << square;
    assert(bit(b, square as int));
    super::bits::lemma_lowest_bit(b);
    let t = u64_trailing_zeros(b) as int;
    assert(bit(b, t));
}

} // verus!
