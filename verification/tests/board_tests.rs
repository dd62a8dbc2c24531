use chess_engine::engine::evaluation::evaluate_board;
use chess_engine::game::{Game, GameHistory};
use chess_engine::rules::board::squares::BoardSquare;
use chess_engine::rules::board::state::{BoardCastles, CastleRight};
use chess_engine::rules::board::Board;
use chess_engine::rules::pieces::movement::{BasicMove, CastleType, Move, TwoSquarePawnMove};
use chess_engine::rules::pieces::{Piece, PieceType};
use chess_engine::rules::Color;
use chess_engine::util::zobrist::ZobristId;

fn e2e4() -> Move {
    Move::TwoSquarePawnMove(TwoSquarePawnMove {
        basic_move: BasicMove {
            piece: Piece { color: Color::White, piece_type: PieceType::Pawn },
            start: 12,
            end: 28,
            capture: None,
        },
        en_passant_target: 20,
    })
}

#[test]
fn square_notation() {
    assert_eq!(BoardSquare::from_value(12).get_notation_string(), "e2");
    assert_eq!(BoardSquare::from_value(63).get_notation_string(), "h8");
    assert_eq!(BoardSquare::from_notation("e4").value(), 28);
    assert_eq!(BoardSquare::from_notation("a1").value(), 0);
}

#[test]
fn starting_position_is_balanced() {
    let board = Board::from_starting_position();
    assert_eq!(evaluate_board(&board), 0);
}

#[test]
fn starting_position_is_not_check() {
    let board = Board::from_starting_position();
    assert!(!board.in_check());
}

#[test]
fn pieces_of_the_starting_position() {
    let board = Board::from_starting_position();
    assert_eq!(board.position.piece_at(&4), Some(Piece { color: Color::White, piece_type: PieceType::King }));
    assert_eq!(board.position.piece_at(&59), Some(Piece { color: Color::Black, piece_type: PieceType::Queen }));
    assert_eq!(board.position.piece_at(&28), None);
    assert_eq!(board.position.find_king(Color::Black), 60);
}

#[test]
fn two_square_pawn_move() {
    let mut board = Board::from_starting_position();
    board.make_move(&e2e4());
    assert_eq!(board.to_fen(), "rnbqkbnr/pppppppp/8/8/4P3/8/PPPP1PPP/RNBQKBNR b KQkq e3 0 1");
}

#[test]
fn make_then_unmake_restores_the_board() {
    let board = Board::from_starting_position();
    let mut after = board;
    let change = after.make_move(&e2e4());
    assert!(after != board);
    after.unmake_move(change);
    assert!(after == board);
}

#[test]
fn hash_changes_with_a_move_and_comes_back() {
    let board = Board::from_starting_position();
    let mut after = board;
    let change = after.make_move(&e2e4());
    assert_ne!(after.zobrist.get_id(), board.zobrist.get_id());
    after.unmake_move(change);
    assert_eq!(after.zobrist.get_id(), board.zobrist.get_id());
}

#[test]
fn hash_updates_undo_themselves() {
    let mut z = ZobristId::from_id(12345);
    z.update_turn();
    assert_ne!(z.get_id(), 12345);
    z.update_turn();
    assert_eq!(z.get_id(), 12345);
    z.update_en_passant(20);
    z.update_en_passant(20);
    assert_eq!(z.get_id(), 12345);
}

#[test]
fn game_move_changes_turn() {
    let mut game = Game::new();
    assert_eq!(game.get_current_turn(), Color::White);
    game.make_move(&e2e4());
    assert_eq!(game.get_current_turn(), Color::Black);
    assert_eq!(game.get_piece_at(28), Some(Piece { color: Color::White, piece_type: PieceType::Pawn }));
    assert_eq!(game.get_piece_at(12), None);
}

fn knight(color: Color, start: u8, end: u8) -> Move {
    Move::BasicMove(BasicMove { piece: Piece { color: color, piece_type: PieceType::Knight }, start: start, end: end, capture: None })
}

#[test]
fn every_legal_move_can_be_undone() {
    let board = Board::from_starting_position();
    let moves = board.get_legal_moves();
    assert!(!moves.is_empty());
    for m in moves.iter() {
        let mut b = board;
        let change = b.make_move(m);
        b.unmake_move(change);
        assert!(b == board);
    }
}

#[test]
fn prepared_changes_follow_the_legal_moves() {
    let board = Board::from_starting_position();
    assert_eq!(board.get_legal_moves_threaded().len(), board.get_legal_moves().len());
}

#[test]
fn threefold_repetition_is_found() {
    let start = Board::from_starting_position();
    let mut history = GameHistory::new(start);
    let dance = [
        knight(Color::White, 6, 21),
        knight(Color::Black, 62, 45),
        knight(Color::White, 21, 6),
        knight(Color::Black, 45, 62),
    ];
    for m in dance.iter() {
        history.take_turn(m);
    }
    for m in dance.iter() {
        history.take_turn(m);
    }
    assert!(!history.has_threefold_repetition(start.zobrist.get_id()));
    history.take_turn(&dance[0]);
    assert!(history.has_threefold_repetition(start.zobrist.get_id()));
    assert!(!history.has_fivefold_repetition(start.zobrist.get_id()));
    history.untake_turn();
    assert!(!history.has_threefold_repetition(start.zobrist.get_id()));
}

#[test]
fn one_ply_search_keeps_the_material() {
    let mut game = Game::new();
    let r = game.search(1);
    assert_eq!(r.color, Color::White);
    assert_eq!(r.best_move_score, 0);
}

#[test]
fn hash_after_a_move_matches_a_fresh_read() {
    let mut board = Board::from_starting_position();
    board.make_move(&e2e4());
    let fresh = Board::from_fen(&board.to_fen());
    assert_eq!(board.zobrist.get_id(), fresh.zobrist.get_id());
    board.make_move(&knight(Color::Black, 62, 45));
    let fresh = Board::from_fen(&board.to_fen());
    assert_eq!(board.zobrist.get_id(), fresh.zobrist.get_id());
}

#[test]
fn a_written_board_reads_back() {
    let mut board = Board::from_starting_position();
    assert!(Board::from_fen(&board.to_fen()) == board);
    board.make_move(&e2e4());
    assert!(Board::from_fen(&board.to_fen()) == board);
}

#[test]
fn a_revoked_right_comes_back() {
    let rights = BoardCastles::default();
    let right = CastleRight { color: Color::Black, side: CastleType::Queenside };
    let mut changed = rights;
    changed.revoke_right(&right);
    assert!(!changed.can_castle(right));
    assert!(changed.can_castle(CastleRight { color: Color::Black, side: CastleType::Kingside }));
    changed.unrevoke_right(&right);
    assert!(changed == rights);
}
