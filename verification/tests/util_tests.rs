use std::ops::ControlFlow;

use chess_engine::rules::pieces::PieceType;
use chess_engine::rules::Color;
use chess_engine::util::concurrency::PriorityQueueBuilder;
use chess_engine::util::data::{game_piece, GamePiece};
use chess_engine::util::errors::InputError;
use chess_engine::util::UnwrapsAll;

#[test]
fn priorities_in_order() {
    let b = PriorityQueueBuilder::from_priorities(vec![1, 2]).add_high_priority(0).add_low_priority(3);
    let v: Vec<i32> = b.priorities.iter().copied().collect();
    assert_eq!(v, vec![0, 1, 2, 3]);
    assert!(PriorityQueueBuilder::<u8>::new().priorities.is_empty());
}

#[test]
fn control_flow_unwraps_either_way() {
    let a: ControlFlow<u8, u8> = ControlFlow::Continue(4);
    let b: ControlFlow<u8, u8> = ControlFlow::Break(7);
    assert_eq!(a.unwrap_all(), 4);
    assert_eq!(b.unwrap_all(), 7);
}

#[test]
fn game_pieces() {
    let k = game_piece(GamePiece::BlackKing);
    assert_eq!(k.color, Color::Black);
    assert_eq!(k.piece_type, PieceType::King);
    let r = game_piece(GamePiece::WhiteQueensRook);
    assert_eq!(r.color, Color::White);
    assert_eq!(r.piece_type, PieceType::Rook);
    assert_eq!(game_piece(GamePiece::WhiteHPawn).piece_type, PieceType::Pawn);
}

#[test]
fn input_error_keeps_its_message() {
    let e = InputError::new("bad input");
    assert_eq!(e.msg, "bad input");
}
