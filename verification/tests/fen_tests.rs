use chess_engine::game::Game;
use chess_engine::rules::board::Board;
use chess_engine::rules::pieces::{Piece, PieceType};
use chess_engine::rules::Color;
use chess_engine::util::fen::{get_notation_for_piece, FenBoardState, STARTING_POSITION};

#[test]
fn starting_position_round_trip() {
    let board = Board::from_starting_position();
    assert_eq!(board.to_fen(), STARTING_POSITION);
}

#[test]
fn fen_state_round_trip() {
    let fen = "r3k2r/8/8/8/8/8/8/R3K2R b KQkq e3 5 12";
    let state = FenBoardState::from_fen(fen);
    assert_eq!(state.to_fen(), fen);
}

#[test]
fn fen_board_round_trip_through_board() {
    let fen = "8/2p5/3p4/KP5r/1R3p1k/8/4P1P1/8 w - - 0 1";
    let board = Board::from_fen(fen);
    assert_eq!(board.to_fen(), fen);
}

#[test]
fn castling_black_kingside_writes_both_black_letters() {
    let board = Board::from_fen("r3k2r/8/8/8/8/8/8/R3K2R w KQk - 0 1");
    assert_eq!(board.to_fen(), "r3k2r/8/8/8/8/8/8/R3K2R w KQkq - 0 1");
}

#[test]
fn castling_black_queenside_alone_is_not_written() {
    let board = Board::from_fen("r3k2r/8/8/8/8/8/8/R3K2R w KQq - 0 1");
    assert_eq!(board.to_fen(), "r3k2r/8/8/8/8/8/8/R3K2R w KQ - 0 1");
}

#[test]
fn no_castling_is_a_dash() {
    let board = Board::from_fen("4k3/8/8/8/8/8/8/4K3 b - - 10 40");
    assert_eq!(board.to_fen(), "4k3/8/8/8/8/8/8/4K3 b - - 10 40");
}

#[test]
fn piece_letters() {
    assert_eq!(get_notation_for_piece(Piece { color: Color::White, piece_type: PieceType::King }), 'K');
    assert_eq!(get_notation_for_piece(Piece { color: Color::Black, piece_type: PieceType::Pawn }), 'p');
    assert_eq!(get_notation_for_piece(Piece { color: Color::Black, piece_type: PieceType::Knight }), 'n');
    assert_eq!(get_notation_for_piece(Piece { color: Color::White, piece_type: PieceType::Queen }), 'Q');
}

#[test]
fn game_serializes_its_board() {
    let game = Game::new();
    assert_eq!(game.serialize_board(), STARTING_POSITION);
}

#[test]
fn en_passant_target_is_read_and_written() {
    let board = Board::from_fen("rnbqkbnr/pppp1ppp/8/8/3Pp3/8/PPP1PPPP/RNBQKBNR b KQkq d3 0 2");
    assert_eq!(board.state.get_en_passant_target(), Some(19));
    assert_eq!(board.to_fen(), "rnbqkbnr/pppp1ppp/8/8/3Pp3/8/PPP1PPPP/RNBQKBNR b KQkq d3 0 2");
}
