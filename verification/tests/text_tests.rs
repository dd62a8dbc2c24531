use chess_engine::game::Game;
use chess_engine::interface::text::{find_move, format_move_elements, get_text_for_move, MoveChoice};
use chess_engine::rules::pieces::movement::{BasicMove, Castle, CastleType, Move, NewGame, Promotion, TwoSquarePawnMove};
use chess_engine::rules::pieces::{Piece, PieceType};
use chess_engine::rules::Color;

fn pawn(color: Color) -> Piece {
    Piece { color: color, piece_type: PieceType::Pawn }
}

fn basic(piece: Piece, start: u8, end: u8) -> BasicMove {
    BasicMove { piece: piece, start: start, end: end, capture: None }
}

fn promotion(start: u8, end: u8, to: PieceType) -> Move {
    Move::Promotion(Promotion { basic_move: basic(pawn(Color::White), start, end), promote_to: to })
}

#[test]
fn move_elements_sentence() {
    assert_eq!(format_move_elements("white", "1", "e2", "moves to", "e4", ""), "white 1 on e2 moves to e4");
    assert_eq!(format_move_elements("black", "9", "d8", "captures white 5 on", "a1", "!"), "black 9 on d8 captures white 5 on a1!");
}

#[test]
fn describes_a_pawn_advance() {
    let game = Game::new();
    let m = Move::TwoSquarePawnMove(TwoSquarePawnMove { basic_move: basic(pawn(Color::White), 12, 28), en_passant_target: 20 });
    assert_eq!(get_text_for_move(&game, &m), "white 1 on e2 moves to e4");
}

#[test]
fn describes_a_knight_move() {
    let game = Game::new();
    let m = Move::BasicMove(basic(Piece { color: Color::White, piece_type: PieceType::Knight }, 6, 21));
    assert_eq!(get_text_for_move(&game, &m), "white 3 on g1 moves to f3");
}

#[test]
fn describes_a_capture() {
    let game = Game::new();
    let m = Move::BasicMove(basic(Piece { color: Color::White, piece_type: PieceType::Rook }, 0, 56));
    assert_eq!(get_text_for_move(&game, &m), "white 5 on a1 captures black 5 on a8");
}

#[test]
fn describes_castling_and_new_game() {
    let game = Game::new();
    let c = Move::Castle(Castle { color: Color::White, side: CastleType::Kingside, king_start: 4, king_end: 6, rook_start: 7, rook_end: 5 });
    assert_eq!(get_text_for_move(&game, &c), "white castles kingside");
    assert_eq!(get_text_for_move(&game, &Move::NewGame(NewGame {})), "new game");
}

#[test]
fn describes_a_promotion() {
    let game = Game::new();
    let m = promotion(8, 56, PieceType::Queen);
    assert_eq!(get_text_for_move(&game, &m), "white 1 on a2 captures black 5 on a8 and promotes to a 9");
}

#[test]
fn finds_a_plain_move() {
    let moves = vec![
        Move::BasicMove(basic(pawn(Color::White), 8, 16)),
        Move::BasicMove(basic(pawn(Color::White), 9, 17)),
    ];
    match find_move(&moves, 9, 17, None) {
        MoveChoice::Found(m) => assert!(m == moves[1]),
        _ => panic!("expected a move"),
    }
    assert!(matches!(find_move(&moves, 9, 25, None), MoveChoice::NotFound));
}

#[test]
fn asks_for_the_promotion_piece() {
    let moves = vec![
        promotion(48, 56, PieceType::Queen),
        promotion(48, 56, PieceType::Rook),
        promotion(48, 56, PieceType::Bishop),
        promotion(48, 56, PieceType::Knight),
    ];
    assert!(matches!(find_move(&moves, 48, 56, None), MoveChoice::NeedsPromotionChoice));
    match find_move(&moves, 48, 56, Some(PieceType::Bishop)) {
        MoveChoice::Found(m) => assert!(m == moves[2]),
        _ => panic!("expected a move"),
    }
    assert!(matches!(find_move(&moves, 49, 57, None), MoveChoice::NotFound));
}

#[test]
fn every_legal_move_has_a_description() {
    let game = Game::new();
    for m in game.get_legal_moves().iter() {
        let text = get_text_for_move(&game, m);
        assert!(text.starts_with("white "));
    }
}
