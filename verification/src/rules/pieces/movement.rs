use vstd::prelude::*;

use crate::rules::Color;
use crate::rules::board::squares::{is_second_rank, row_of};

use super::{Piece, PieceType, piece_type_value};

verus! {

/// The eight directions in which a sliding piece can move.
#[derive(Clone, Copy, PartialEq, Eq, Structural)]
pub enum SlideDirection {
    North,
    NorthEast,
    East,
    SouthEast,
    South,
    SouthWest,
    West,
    NorthWest,
}

/// The (column, row) step of a direction.
pub open spec fn dir_delta(d: SlideDirection) -> (int, int) {
    match d {
        SlideDirection::North => (0, 1),
        SlideDirection::NorthEast => (1, 1),
        SlideDirection::East => (1, 0),
        SlideDirection::SouthEast => (1, -1),
        SlideDirection::South => (0, -1),
        SlideDirection::SouthWest => (-1, -1),
        SlideDirection::West => (-1, 0),
        SlideDirection::NorthWest => (-1, 1),
    }
}

/// The change of square number made by one step in a direction.
pub open spec fn dir_step(d: SlideDirection) -> int {
    match d {
        SlideDirection::North => 8,
        SlideDirection::NorthEast => 9,
        SlideDirection::East => 1,
        SlideDirection::SouthEast => -7,
        SlideDirection::South => -8,
        SlideDirection::SouthWest => -9,
        SlideDirection::West => -1,
        SlideDirection::NorthWest => 7,
    }
}

/// The position of a direction in the list of all directions.
pub open spec fn dir_index(d: SlideDirection) -> int {
    match d {
        SlideDirection::North => 0,
        SlideDirection::NorthEast => 1,
        SlideDirection::East => 2,
        SlideDirection::SouthEast => 3,
        SlideDirection::South => 4,
        SlideDirection::SouthWest => 5,
        SlideDirection::West => 6,
        SlideDirection::NorthWest => 7,
    }
}

impl SlideDirection {
    pub fn diagonals() -> (ds: [SlideDirection; 4])
        ensures
            ds@ == seq![SlideDirection::NorthEast, SlideDirection::SouthEast, SlideDirection::SouthWest, SlideDirection::NorthWest],
    {
        let ds = [
            SlideDirection::NorthEast,
            SlideDirection::SouthEast,
            SlideDirection::SouthWest,
            SlideDirection::NorthWest,
        ];
        assert(ds@ =~= seq![SlideDirection::NorthEast, SlideDirection::SouthEast, SlideDirection::SouthWest, SlideDirection::NorthWest]);
        ds
    }

    pub fn orthagonals() -> (ds: [SlideDirection; 4])
        ensures
            ds@ == seq![SlideDirection::North, SlideDirection::East, SlideDirection::South, SlideDirection::West],
    {
        let ds = [
            SlideDirection::North,
            SlideDirection::East,
            SlideDirection::South,
            SlideDirection::West,
        ];
        assert(ds@ =~= seq![SlideDirection::North, SlideDirection::East, SlideDirection::South, SlideDirection::West]);
        ds
    }

    pub fn all_directions() -> (ds: [SlideDirection; 8])
        ensures
            ds@ == seq![SlideDirection::North, SlideDirection::NorthEast, SlideDirection::East, SlideDirection::SouthEast,
                SlideDirection::South, SlideDirection::SouthWest, SlideDirection::West, SlideDirection::NorthWest],
    {
        let ds = [
            SlideDirection::North,
            SlideDirection::NorthEast,
            SlideDirection::East,
            SlideDirection::SouthEast,
            SlideDirection::South,
            SlideDirection::SouthWest,
            SlideDirection::West,
            SlideDirection::NorthWest,
        ];
        assert(ds@ =~= seq![SlideDirection::North, SlideDirection::NorthEast, SlideDirection::East, SlideDirection::SouthEast,
                SlideDirection::South, SlideDirection::SouthWest, SlideDirection::West, SlideDirection::NorthWest]);
        ds
    }

    pub fn get_direction(&self) -> (d: (i8, i8))
        ensures
            (d.0 as int, d.1 as int) == dir_delta(*self),
    {
        match self {
            SlideDirection::North => (0, 1),
            SlideDirection::NorthEast => (1, 1),
            SlideDirection::East => (1, 0),
            SlideDirection::SouthEast => (1, -1),
            SlideDirection::South => (0, -1),
            SlideDirection::SouthWest => (-1, -1),
            SlideDirection::West => (-1, 0),
            SlideDirection::NorthWest => (-1, 1),
        }
    }

    /// The offset that separates the lookup keys of this direction from those of the others.
    pub open spec fn hash_offset_spec(&self) -> int {
        64 * dir_index(*self)
    }

    pub fn get_hash_offset(&self) -> (o: u16)
        ensures
            o == self.hash_offset_spec(),
    {
        match self {
            SlideDirection::North => 64 * 0,
            SlideDirection::NorthEast => 64 * 1,
            SlideDirection::East => 64 * 2,
            SlideDirection::SouthEast => 64 * 3,
            SlideDirection::South => 64 * 4,
            SlideDirection::SouthWest => 64 * 5,
            SlideDirection::West => 64 * 6,
            SlideDirection::NorthWest => 64 * 7,
        }
    }

    pub fn is_positive(&self) -> (b: bool)
        ensures
            b == (dir_step(*self) > 0),
    {
        match self {
            SlideDirection::North => true,
            SlideDirection::NorthEast => true,
            SlideDirection::East => true,
            SlideDirection::SouthEast => false,
            SlideDirection::South => false,
            SlideDirection::SouthWest => false,
            SlideDirection::West => false,
            SlideDirection::NorthWest => true,
        }
    }
}

/// The four ways in which pawns move: advancing or attacking, for each color.
#[derive(Clone, Copy, PartialEq, Eq, Structural)]
pub enum PawnMovement {
    WhiteAdvance,
    WhiteAttack,
    BlackAdvance,
    BlackAttack,
}

/// The (column, row) steps of a pawn movement.
pub open spec fn pawn_shifts(m: PawnMovement) -> Seq<(i8, i8)> {
    match m {
        PawnMovement::WhiteAdvance => seq![(0i8, 1i8)],
        PawnMovement::WhiteAttack => seq![(1i8, 1i8), (-1i8, 1i8)],
        PawnMovement::BlackAdvance => seq![(0i8, -1i8)],
        PawnMovement::BlackAttack => seq![(1i8, -1i8), (-1i8, -1i8)],
    }
}

/// How many times each step of a pawn movement may be repeated from a square.
pub open spec fn pawn_max_distance(m: PawnMovement, square: int) -> int {
    match m {
        PawnMovement::WhiteAdvance => if row_of(square) == 1 { 2 } else { 1 },
        PawnMovement::BlackAdvance => if row_of(square) == 6 { 2 } else { 1 },
        _ => 1,
    }
}

/// Whether the square numbers grow along a pawn movement.
pub open spec fn pawn_is_positive(m: PawnMovement) -> bool {
    m == PawnMovement::WhiteAdvance || m == PawnMovement::WhiteAttack
}

impl PawnMovement {
    pub fn get_movements(&self) -> (v: Vec<(i8, i8)>)
        ensures
            v@ == pawn_shifts(*self),
    {
        let v = match self {
            PawnMovement::WhiteAdvance => vec![(0i8, 1i8)],
            PawnMovement::WhiteAttack => vec![(1i8, 1i8), (-1i8, 1i8)],
            PawnMovement::BlackAdvance => vec![(0i8, -1i8)],
            PawnMovement::BlackAttack => vec![(1i8, -1i8), (-1i8, -1i8)],
        };
        assert(v@ =~= pawn_shifts(*self));
        v
    }

    /// The offset that separates the lookup keys of this movement from those of the others.
    pub open spec fn hash_offset_spec(&self) -> int {
        64 * match *self {
            PawnMovement::WhiteAdvance => 0int,
            PawnMovement::WhiteAttack => 1int,
            PawnMovement::BlackAdvance => 2int,
            PawnMovement::BlackAttack => 3int,
        }
    }

    pub fn get_hash_offset(&self) -> (o: u8)
        ensures
            o == self.hash_offset_spec(),
    {
        match self {
            PawnMovement::WhiteAdvance => 64 * 0,
            PawnMovement::WhiteAttack => 64 * 1,
            PawnMovement::BlackAdvance => 64 * 2,
            PawnMovement::BlackAttack => 64 * 3,
        }
    }

    pub fn get_max_distance(&self, square: u8) -> (d: u8)
        requires
            square <= 63,
        ensures
            d == pawn_max_distance(*self, square as int),
    {
        match self {
            PawnMovement::WhiteAdvance => if is_second_rank(square, Color::White) { 2u8 } else { 1u8 },
            PawnMovement::WhiteAttack => 1u8,
            PawnMovement::BlackAdvance => if is_second_rank(square, Color::Black) { 2u8 } else { 1u8 },
            PawnMovement::BlackAttack => 1u8,
        }
    }

    pub fn is_positive(&self) -> (b: bool)
        ensures
            b == pawn_is_positive(*self),
    {
        match self {
            PawnMovement::WhiteAdvance => true,
            PawnMovement::WhiteAttack => true,
            PawnMovement::BlackAdvance => false,
            PawnMovement::BlackAttack => false,
        }
    }
}

/// The two sides on which a king can castle.
#[derive(Copy, Clone, Debug, PartialEq, Eq, Hash, Structural)]
pub enum CastleType {
    Kingside,
    Queenside,
}

impl CastleType {
    fn get_notation(&self) -> (s: String)
        ensures
            *self == CastleType::Kingside ==> s@ == "O-O"@,
            *self == CastleType::Queenside ==> s@ == "O-O-O"@,
    {
        match self {
            CastleType::Kingside => String::from_str("O-O"),
            CastleType::Queenside => String::from_str("O-O-O"),
        }
    }

    pub fn value(&self) -> (s: &'static str)
        ensures
            *self == CastleType::Kingside ==> s@ == "kingside"@,
            *self == CastleType::Queenside ==> s@ == "queenside"@,
    {
        match self {
            CastleType::Kingside => "kingside",
            CastleType::Queenside => "queenside",
        }
    }
}

/// One piece going from one square to another.
#[derive(Copy, Clone, PartialEq, Eq, Hash, Structural)]
pub struct PieceMovement {
    pub color: Color,
    pub piece_type: PieceType,
    pub start_square: u8,
    pub end_square: u8,
}

impl PieceMovement {
    pub fn get_piece(&self) -> (p: Piece)
        ensures
            p == (Piece { color: self.color, piece_type: self.piece_type }),
    {
        Piece { color: self.color, piece_type: self.piece_type }
    }
}

/// A piece taken off a square.
#[derive(Copy, Clone, PartialEq, Eq, Hash, Structural)]
pub struct Capture {
    pub color: Color,
    pub piece_type: PieceType,
    pub square: u8,
}

impl Capture {
    pub fn get_piece(&self) -> (p: Piece)
        ensures
            p == (Piece { color: self.color, piece_type: self.piece_type }),
    {
        Piece { color: self.color, piece_type: self.piece_type }
    }
}

/// A move of the game.
#[derive(Copy, Clone, PartialEq, Eq, Hash, Structural)]
pub enum Move {
    NewGame(NewGame),
    BasicMove(BasicMove),
    Castle(Castle),
    Promotion(Promotion),
    TwoSquarePawnMove(TwoSquarePawnMove),
    EnPassant(EnPassant),
}

/// The movement of the piece that a basic move moves.
pub open spec fn basic_movement(b: BasicMove) -> PieceMovement {
    PieceMovement { color: b.piece.color, piece_type: b.piece.piece_type, start_square: b.start, end_square: b.end }
}

/// The capture that a basic move makes: whatever stood on its end square.
pub open spec fn basic_capture(b: BasicMove) -> Option<Capture> {
    match b.capture {
        Some(p) => Some(Capture { color: p.color, piece_type: p.piece_type, square: b.end }),
        None => None,
    }
}

/// The pieces that a move displaces, in the order in which they move.
pub open spec fn move_movements(m: Move) -> Seq<PieceMovement> {
    match m {
        Move::NewGame(_) => seq![],
        Move::BasicMove(b) => seq![basic_movement(b)],
        Move::Castle(c) => seq![
            PieceMovement { color: c.color, piece_type: PieceType::King, start_square: c.king_start, end_square: c.king_end },
            PieceMovement { color: c.color, piece_type: PieceType::Rook, start_square: c.rook_start, end_square: c.rook_end },
        ],
        Move::Promotion(p) => seq![basic_movement(p.basic_move)],
        Move::TwoSquarePawnMove(t) => seq![basic_movement(t.basic_move)],
        Move::EnPassant(e) => seq![basic_movement(e.basic_move)],
    }
}

/// The piece that a move takes, with the square it is taken from.
pub open spec fn move_capture(m: Move) -> Option<Capture> {
    match m {
        Move::NewGame(_) => None,
        Move::BasicMove(b) => basic_capture(b),
        Move::Castle(_) => None,
        Move::Promotion(p) => basic_capture(p.basic_move),
        Move::TwoSquarePawnMove(t) => basic_capture(t.basic_move),
        Move::EnPassant(e) => match e.basic_move.capture {
            Some(p) => Some(Capture { color: p.color, piece_type: p.piece_type, square: e.capture_square }),
            None => None,
        },
    }
}

/// For a capture, the value of the moving piece less the value of the taken one.
pub open spec fn move_relative_capture_value(m: Move) -> Option<int> {
    match move_capture(m) {
        Some(c) => Some(piece_type_value(move_movements(m)[0].piece_type) - piece_type_value(c.piece_type)),
        None => None,
    }
}

impl Move {
    pub fn get_piece_movements(&self) -> (v: Vec<PieceMovement>)
        ensures
            v@ == move_movements(*self),
    {
        match self {
            Move::NewGame(_m) => Vec::new(),
            Move::BasicMove(m) => m.get_piece_movements(),
            Move::Castle(m) => m.get_piece_movements(),
            Move::Promotion(m) => m.basic_move.get_piece_movements(),
            Move::TwoSquarePawnMove(m) => m.basic_move.get_piece_movements(),
            Move::EnPassant(m) => m.basic_move.get_piece_movements(),
        }
    }

    pub fn get_capture(&self) -> (c: Option<Capture>)
        ensures
            c == move_capture(*self),
    {
        match self {
            Move::NewGame(_m) => None,
            Move::BasicMove(m) => m.get_capture(),
            Move::Castle(m) => m.get_capture(),
            Move::Promotion(m) => m.basic_move.get_capture(),
            Move::TwoSquarePawnMove(m) => m.basic_move.get_capture(),
            Move::EnPassant(m) => m.get_capture(),
        }
    }

    pub fn relative_capture_value(&self) -> (v: Option<i16>)
        ensures
            match move_relative_capture_value(*self) {
                Some(x) => v matches Some(y) && y == x,
                None => v is None,
            },
    {
        match self.get_capture() {
            Some(cap) => {
                let movements = self.get_piece_movements();
                Some(movements[0].get_piece().relative_value(cap.get_piece()))
            },
            None => None,
        }
    }
}

/// The move that stands for the start of a game: nothing moves.
#[derive(Copy, Clone, PartialEq, Eq, Hash, Structural)]
pub struct NewGame {}

/// A piece moving from one square to another, taking whatever stands there.
#[derive(Copy, Clone, PartialEq, Eq, Hash, Structural)]
pub struct BasicMove {
    pub piece: Piece,
    pub start: u8,
    pub end: u8,
    pub capture: Option<Piece>,
}

impl BasicMove {
    fn get_piece_movements(&self) -> (v: Vec<PieceMovement>)
        ensures
            v@ == seq![basic_movement(*self)],
    {
        let v = vec![PieceMovement {
            color: self.piece.color,
            piece_type: self.piece.piece_type,
            start_square: self.start,
            end_square: self.end,
        }];
        assert(v@ =~= seq![basic_movement(*self)]);
        v
    }

    fn get_capture(&self) -> (c: Option<Capture>)
        ensures
            c == basic_capture(*self),
    {
        match self.capture {
            Some(p) => Some(Capture { color: p.color, piece_type: p.piece_type, square: self.end }),
            None => None,
        }
    }
}

/// A king and a rook moving together.
#[derive(Copy, Clone, PartialEq, Eq, Hash, Structural)]
pub struct Castle {
    pub color: Color,
    pub side: CastleType,
    pub king_start: u8,
    pub king_end: u8,
    pub rook_start: u8,
    pub rook_end: u8,
}

impl Castle {
    fn get_piece_movements(&self) -> (v: Vec<PieceMovement>)
        ensures
            v@ == move_movements(Move::Castle(*self)),
    {
        let v = vec![
            PieceMovement { color: self.color, piece_type: PieceType::King, start_square: self.king_start, end_square: self.king_end },
            PieceMovement { color: self.color, piece_type: PieceType::Rook, start_square: self.rook_start, end_square: self.rook_end },
        ];
        assert(v@ =~= move_movements(Move::Castle(*self)));
        v
    }

    fn get_capture(&self) -> (c: Option<Capture>)
        ensures
            c is None,
    {
        None
    }
}

/// A pawn reaching the last rank and turning into another piece.
#[derive(Copy, Clone, PartialEq, Eq, Hash, Structural)]
pub struct Promotion {
    pub basic_move: BasicMove,
    pub promote_to: PieceType,
}

impl Promotion {
    pub fn get_all_from_basic_move(base: &BasicMove) -> (v: Vec<Promotion>)
        ensures
            v@ == seq![
                Promotion { basic_move: *base, promote_to: PieceType::Queen },
                Promotion { basic_move: *base, promote_to: PieceType::Rook },
                Promotion { basic_move: *base, promote_to: PieceType::Bishop },
                Promotion { basic_move: *base, promote_to: PieceType::Knight },
            ],
    {
        let v = vec![
            Promotion { basic_move: *base, promote_to: PieceType::Queen },
            Promotion { basic_move: *base, promote_to: PieceType::Rook },
            Promotion { basic_move: *base, promote_to: PieceType::Bishop },
            Promotion { basic_move: *base, promote_to: PieceType::Knight },
        ];
        assert(v@ =~= seq![
                Promotion { basic_move: *base, promote_to: PieceType::Queen },
                Promotion { basic_move: *base, promote_to: PieceType::Rook },
                Promotion { basic_move: *base, promote_to: PieceType::Bishop },
                Promotion { basic_move: *base, promote_to: PieceType::Knight },
            ]);
        v
    }
}

/// A pawn's first move of two squares, which opens an en passant target behind it.
#[derive(Copy, Clone, PartialEq, Eq, Hash, Structural)]
pub struct TwoSquarePawnMove {
    pub basic_move: BasicMove,
    pub en_passant_target: u8,
}

impl TwoSquarePawnMove {
    pub fn from_basic_move(base: &BasicMove, en_passant_target: u8) -> (m: TwoSquarePawnMove)
        ensures
            m == (TwoSquarePawnMove { basic_move: *base, en_passant_target: en_passant_target }),
    {
        TwoSquarePawnMove { basic_move: *base, en_passant_target: en_passant_target }
    }
}

/// A pawn taking another pawn en passant.
#[derive(Copy, Clone, PartialEq, Eq, Hash, Structural)]
pub struct EnPassant {
    pub basic_move: BasicMove,
    pub capture_square: u8,
}

impl EnPassant {
    pub fn from_basic_move(base: &BasicMove, capture_square: u8) -> (m: EnPassant)
        ensures
            m == (EnPassant { basic_move: *base, capture_square: capture_square }),
    {
        EnPassant { basic_move: *base, capture_square: capture_square }
    }

    fn get_capture(&self) -> (c: Option<Capture>)
        ensures
            c == move_capture(Move::EnPassant(*self)),
    {
        match self.basic_move.capture {
            Some(p) => Some(Capture { color: p.color, piece_type: p.piece_type, square: self.capture_square }),
            None => None,
        }
    }
}

} // verus!
