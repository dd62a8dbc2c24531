use vstd::prelude::*;

use crate::rules::Color;
use crate::rules::pieces::{Piece, PieceType};

verus! {

/// The thirty-two pieces of a game, each by its starting place.
#[derive(Copy, Clone, Debug, PartialEq, Eq, Hash, Structural)]
pub enum GamePiece {
    WhiteKing,        WhiteQueen,        WhiteKingsRook,   WhiteQueensRook,
    WhiteKingsBishop, WhiteQueensBishop, WhiteKingsKnight, WhiteQueensKnight,
    WhiteAPawn,       WhiteBPawn,        WhiteCPawn,       WhiteDPawn,
    WhiteEPawn,       WhiteFPawn,        WhiteGPawn,       WhiteHPawn,
    BlackKing,        BlackQueen,        BlackKingsRook,   BlackQueensRook,
    BlackKingsBishop, BlackQueensBishop, BlackKingsKnight, BlackQueensKnight,
    BlackAPawn,       BlackBPawn,        BlackCPawn,       BlackDPawn,
    BlackEPawn,       BlackFPawn,        BlackGPawn,       BlackHPawn,
}

/// The color of a game piece: the white ones are listed first.
pub open spec fn game_piece_color(g: GamePiece) -> Color {
    match g {
        GamePiece::WhiteKing | GamePiece::WhiteQueen | GamePiece::WhiteKingsRook | GamePiece::WhiteQueensRook
        | GamePiece::WhiteKingsBishop | GamePiece::WhiteQueensBishop | GamePiece::WhiteKingsKnight
        | GamePiece::WhiteQueensKnight | GamePiece::WhiteAPawn | GamePiece::WhiteBPawn | GamePiece::WhiteCPawn
        | GamePiece::WhiteDPawn | GamePiece::WhiteEPawn | GamePiece::WhiteFPawn | GamePiece::WhiteGPawn
        | GamePiece::WhiteHPawn => Color::White,
        _ => Color::Black,
    }
}

/// The type of a game piece.
pub open spec fn game_piece_type(g: GamePiece) -> PieceType {
    match g {
        GamePiece::WhiteKing | GamePiece::BlackKing => PieceType::King,
        GamePiece::WhiteQueen | GamePiece::BlackQueen => PieceType::Queen,
        GamePiece::WhiteKingsRook | GamePiece::WhiteQueensRook | GamePiece::BlackKingsRook
        | GamePiece::BlackQueensRook => PieceType::Rook,
        GamePiece::WhiteKingsBishop | GamePiece::WhiteQueensBishop | GamePiece::BlackKingsBishop
        | GamePiece::BlackQueensBishop => PieceType::Bishop,
        GamePiece::WhiteKingsKnight | GamePiece::WhiteQueensKnight | GamePiece::BlackKingsKnight
        | GamePiece::BlackQueensKnight => PieceType::Knight,
        _ => PieceType::Pawn,
    }
}

/// The piece a game piece is.
pub fn game_piece(g: GamePiece) -> (p: Piece)
    ensures
        p.color == game_piece_color(g),
        p.piece_type == game_piece_type(g),
{
    let color = match g {
        GamePiece::WhiteKing | GamePiece::WhiteQueen | GamePiece::WhiteKingsRook | GamePiece::WhiteQueensRook
        | GamePiece::WhiteKingsBishop | GamePiece::WhiteQueensBishop | GamePiece::WhiteKingsKnight
        | GamePiece::WhiteQueensKnight | GamePiece::WhiteAPawn | GamePiece::WhiteBPawn | GamePiece::WhiteCPawn
        | GamePiece::WhiteDPawn | GamePiece::WhiteEPawn | GamePiece::WhiteFPawn | GamePiece::WhiteGPawn
        | GamePiece::WhiteHPawn => Color::White,
        _ => Color::Black,
    };
    let piece_type = match g {
        GamePiece::WhiteKing | GamePiece::BlackKing => PieceType::King,
        GamePiece::WhiteQueen | GamePiece::BlackQueen => PieceType::Queen,
        GamePiece::WhiteKingsRook | GamePiece::WhiteQueensRook | GamePiece::BlackKingsRook
        | GamePiece::BlackQueensRook => PieceType::Rook,
        GamePiece::WhiteKingsBishop | GamePiece::WhiteQueensBishop | GamePiece::BlackKingsBishop
        | GamePiece::BlackQueensBishop => PieceType::Bishop,
        GamePiece::WhiteKingsKnight | GamePiece::WhiteQueensKnight | GamePiece::BlackKingsKnight
        | GamePiece::BlackQueensKnight => PieceType::Knight,
        _ => PieceType::Pawn,
    };
    Piece { color: color, piece_type: piece_type }
}

} // verus!
