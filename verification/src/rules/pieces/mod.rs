pub mod movement;

use vstd::prelude::*;

use super::{Color, ColorIterator};

verus! {

/// The six kinds of chess pieces.
#[derive(Copy, Clone, Debug, PartialEq, Eq, Hash, Structural)]
pub enum PieceType {
    Pawn,
    Knight,
    Bishop,
    Rook,
    Queen,
    King,
}

/// The material value of a piece type, in pawns.
pub open spec fn piece_type_value(t: PieceType) -> int {
    match t {
        PieceType::Pawn => 1,
        PieceType::Knight => 3,
        PieceType::Bishop => 3,
        PieceType::Rook => 5,
        PieceType::Queen => 9,
        PieceType::King => 100,
    }
}

impl PieceType {
    pub fn iter() -> (it: PieceTypeIterator)
        ensures
            it.state == None::<PieceType>,
    {
        PieceTypeIterator::new()
    }

    pub fn get_notation(&self) -> (c: char)
        ensures
            c == match *self {
                PieceType::Pawn => ' ',
                PieceType::Knight => 'N',
                PieceType::Bishop => 'B',
                PieceType::Rook => 'R',
                PieceType::Queen => 'Q',
                PieceType::King => 'K',
            },
    {
        match self {
            PieceType::Pawn => ' ',
            PieceType::Knight => 'N',
            PieceType::Bishop => 'B',
            PieceType::Rook => 'R',
            PieceType::Queen => 'Q',
            PieceType::King => 'K',
        }
    }

    pub fn name(&self) -> (s: &'static str)
        ensures
            *self == PieceType::Pawn ==> s@ == "pawn"@,
            *self == PieceType::Knight ==> s@ == "knight"@,
            *self == PieceType::Bishop ==> s@ == "bishop"@,
            *self == PieceType::Rook ==> s@ == "rook"@,
            *self == PieceType::Queen ==> s@ == "queen"@,
            *self == PieceType::King ==> s@ == "king"@,
    {
        match self {
            PieceType::Pawn => "pawn",
            PieceType::Knight => "knight",
            PieceType::Bishop => "bishop",
            PieceType::Rook => "rook",
            PieceType::Queen => "queen",
            PieceType::King => "king",
        }
    }

    pub fn value(&self) -> (v: u8)
        ensures
            v == piece_type_value(*self),
    {
        match self {
            PieceType::Pawn => 1,
            PieceType::Knight => 3,
            PieceType::Bishop => 3,
            PieceType::Rook => 5,
            PieceType::Queen => 9,
            PieceType::King => 100,
        }
    }
}

/// Walks through the piece types from pawn to king, then nothing.
pub struct PieceTypeIterator {
    pub state: Option<PieceType>,
}

impl PieceTypeIterator {
    pub fn new() -> (it: Self)
        ensures
            it.state == None::<PieceType>,
    {
        Self { state: None }
    }

    /// The piece type that follows `state` in the walk.
    pub open spec fn successor(state: Option<PieceType>) -> Option<PieceType> {
        match state {
            None => Some(PieceType::Pawn),
            Some(PieceType::Pawn) => Some(PieceType::Knight),
            Some(PieceType::Knight) => Some(PieceType::Bishop),
            Some(PieceType::Bishop) => Some(PieceType::Rook),
            Some(PieceType::Rook) => Some(PieceType::Queen),
            Some(PieceType::Queen) => Some(PieceType::King),
            Some(PieceType::King) => None,
        }
    }

    pub fn next(&mut self) -> (r: Option<PieceType>)
        ensures
            r == Self::successor(old(self).state),
            final(self).state == r,
    {
        let next = match self.state {
            None => Some(PieceType::Pawn),
            Some(PieceType::Pawn) => Some(PieceType::Knight),
            Some(PieceType::Knight) => Some(PieceType::Bishop),
            Some(PieceType::Bishop) => Some(PieceType::Rook),
            Some(PieceType::Rook) => Some(PieceType::Queen),
            Some(PieceType::Queen) => Some(PieceType::King),
            Some(PieceType::King) => None,
        };
        self.state = next;
        next
    }
}

/// A piece of a given color and type.
#[derive(Copy, Clone, Debug, PartialEq, Eq, Hash, Structural)]
pub struct Piece {
    pub color: Color,
    pub piece_type: PieceType,
}

/// The material score of a piece in centipawns: positive for white, negative for black.
pub open spec fn piece_material_score(p: Piece) -> int {
    piece_type_value(p.piece_type) * 100 * (if p.color == Color::White { 1int } else { -1int })
}

impl Piece {
    pub fn iter() -> (it: PieceIterator)
        ensures
            it.wf(),
            it.color_state == Some(Color::White),
            it.type_state == Some(PieceType::Pawn),
    {
        PieceIterator::new()
    }

    pub fn material_score(&self) -> (s: i16)
        ensures
            s == piece_material_score(*self),
    {
        let sign: i16 = match self.color {
            Color::White => 1,
            Color::Black => -1,
        };
        (self.piece_type.value() as i16) * 100i16 * sign
    }

    pub fn relative_value(&self, other: Piece) -> (v: i16)
        ensures
            v == piece_type_value(self.piece_type) - piece_type_value(other.piece_type),
    {
        self.piece_type.value() as i16 - other.piece_type.value() as i16
    }
}

/// Walks through every piece: the white ones from pawn to king, then the black ones.
pub struct PieceIterator {
    pub color_state: Option<Color>,
    pub color_iter: ColorIterator,
    pub type_state: Option<PieceType>,
    pub type_iter: PieceTypeIterator,
}

impl PieceIterator {
    /// The inner walks stand where the iterator's own states say.
    pub open spec fn wf(&self) -> bool {
        &&& self.color_iter.state == self.color_state
        &&& self.type_iter.state == self.type_state
    }

    /// The piece that `next` hands out from the given states.
    pub open spec fn yielded(color_state: Option<Color>, type_state: Option<PieceType>) -> Option<Piece> {
        match color_state {
            None => None,
            Some(c) => match type_state {
                Some(t) => Some(Piece { color: c, piece_type: t }),
                None => match ColorIterator::successor(Some(c)) {
                    Some(c2) => Some(Piece { color: c2, piece_type: PieceType::Pawn }),
                    None => None,
                },
            },
        }
    }

    pub fn new() -> (it: Self)
        ensures
            it.wf(),
            it.color_state == Some(Color::White),
            it.type_state == Some(PieceType::Pawn),
    {
        let mut citer = ColorIterator::new();
        let mut titer = PieceTypeIterator::new();
        let c = citer.next();
        let t = titer.next();
        Self { color_state: c, color_iter: citer, type_state: t, type_iter: titer }
    }

    /// The states that `next` leaves behind.
    pub open spec fn advanced(color_state: Option<Color>, type_state: Option<PieceType>) -> (Option<Color>, Option<PieceType>) {
        match color_state {
            None => (None, type_state),
            Some(c) => match type_state {
                Some(t) => (Some(c), PieceTypeIterator::successor(Some(t))),
                None => match ColorIterator::successor(Some(c)) {
                    Some(c2) => (Some(c2), Some(PieceType::Knight)),
                    None => (None, Some(PieceType::Pawn)),
                },
            },
        }
    }

    pub fn next(&mut self) -> (r: Option<Piece>)
        requires
            old(self).wf(),
        ensures
            final(self).wf(),
            r == Self::yielded(old(self).color_state, old(self).type_state),
            (final(self).color_state, final(self).type_state) == Self::advanced(old(self).color_state, old(self).type_state),
    {
        match self.color_state {
            Some(color) => match self.type_state {
                Some(piece_type) => {
                    self.type_state = self.type_iter.next();
                    Some(Piece { color: color, piece_type: piece_type })
                },
                None => {
                    self.color_state = self.color_iter.next();
                    self.type_iter = PieceTypeIterator::new();
                    self.type_state = self.type_iter.next();
                    match self.color_state {
                        Some(c2) => {
                            let t = self.type_state.unwrap();
                            self.type_state = self.type_iter.next();
                            Some(Piece { color: c2, piece_type: t })
                        },
                        None => None,
                    }
                },
            },
            None => None,
        }
    }
}

} // verus!
