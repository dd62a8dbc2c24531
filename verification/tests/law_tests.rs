use chess_engine::rules::board::squares::move_from_square;
use chess_engine::engine::search::alpha_beta::AlphaBetaSearch;
use chess_engine::game::Game;
use chess_engine::interface::arguments::{ArgumentParser, ParsedArgs};
use chess_engine::rules::board::state::CastleRight;
use chess_engine::rules::board::Board;
use chess_engine::rules::pieces::movement::{BasicMove, Castle, CastleType, Move};
use chess_engine::rules::pieces::{Piece, PieceType};
use chess_engine::rules::Color;
use chess_engine::util::zobrist::{BoardChange, PieceLocation, ZobristId};

fn some_changes() -> Vec<BoardChange> {
    vec![
        BoardChange::BlackToMove,
        BoardChange::CastleRight(CastleRight { color: Color::White, side: CastleType::Kingside }),
        BoardChange::EnPassantTarget(20),
        BoardChange::PieceLocation(PieceLocation { square: 4, piece: Piece { color: Color::White, piece_type: PieceType::King } }),
    ]
}

#[test]
fn hash_of_changes_ignores_their_order() {
    let changes = some_changes();
    let mut reversed = some_changes();
    reversed.reverse();
    assert_eq!(ZobristId::from_changes(changes).get_id(), ZobristId::from_changes(reversed).get_id());
}

#[test]
fn a_change_listed_twice_cancels() {
    let mut twice = some_changes();
    twice.push(BoardChange::EnPassantTarget(44));
    twice.push(BoardChange::EnPassantTarget(44));
    assert_eq!(ZobristId::from_changes(twice).get_id(), ZobristId::from_changes(some_changes()).get_id());
    assert_eq!(ZobristId::from_changes(vec![]).get_id(), 0);
    assert_eq!(ZobristId::from_changes(vec![]).get_id(), ZobristId::new().get_id());
}

#[test]
fn an_added_named_argument_reads_its_value() {
    let mut builder = ArgumentParser::builder();
    builder.add_named_arg("depth", vec!["-d", "--depth"], true, false).unwrap();
    let parser = builder.build();
    for key in ["-d", "--depth"] {
        match parser.parse(&format!("{} 7", key)).unwrap() {
            ParsedArgs::Arguments(a) => {
                assert_eq!(a.get_arg("depth"), Some(String::from("7")));
                assert!(a.nargs.is_empty());
                assert!(a.flags.is_empty());
            },
            ParsedArgs::SubCommand(_) => panic!("expected arguments"),
        }
    }
}

#[test]
fn prepared_change_matches_the_move_made() {
    let board = Board::from_fen("4k3/8/8/3q4/8/8/8/3RK3 w - - 0 1");
    for change in board.get_legal_moves_threaded() {
        let mut made = board;
        made.make_move(&change.new_move);
        assert!(change.new_position == made.position);
        assert!(change.new_state == made.state);
        assert_eq!(change.new_zobrist_id, made.zobrist.get_id());
    }
}

#[test]
fn prepared_castling_hash_counts_a_right_twice() {
    let board = Board::from_fen("4k3/8/8/8/8/8/8/4K2R w K - 0 1");
    let castle = Move::Castle(Castle { color: Color::White, side: CastleType::Kingside, king_start: 4, king_end: 6, rook_start: 7, rook_end: 5 });
    let change = board.get_legal_moves_threaded().into_iter().find(|c| c.new_move == castle).unwrap();
    let mut made = board;
    made.make_move(&castle);
    assert!(change.new_position == made.position);
    assert!(change.new_state == made.state);
    assert_ne!(change.new_zobrist_id, made.zobrist.get_id());
}

#[test]
fn written_fen_reads_and_writes_back() {
    for fen in [
        "rnbqkbnr/pppppppp/8/8/4P3/8/PPPP1PPP/RNBQKBNR b KQkq e3 0 1",
        "4k3/8/8/3q4/8/8/8/3RK3 w - - 0 1",
        "r3k2r/8/8/8/8/8/8/R3K2R b KQkq - 12 40",
    ] {
        assert_eq!(Board::from_fen(fen).to_fen(), fen);
    }
    assert_eq!(Board::from_fen("4k2r/8/8/8/8/8/8/4K3 w q - 0 1").to_fen(), "4k2r/8/8/8/8/8/8/4K3 w - - 0 1");
}

#[test]
fn pieces_match_their_bitboards() {
    let board = Board::from_starting_position();
    for square in 0u8..64 {
        let bit = 1u64 << square;
        let any = (board.position.get_all_piece_locations(Color::White) | board.position.get_all_piece_locations(Color::Black)) & bit;
        match board.position.piece_at(&square) {
            None => assert_eq!(any, 0),
            Some(p) => {
                assert_ne!(board.position.get_piece_locations(p.color, p.piece_type) & bit, 0);
                assert_ne!(any, 0);
            },
        }
    }
}

#[test]
fn moved_hash_is_the_hash_of_the_written_board() {
    let mut board = Board::from_fen("4k3/8/8/3q4/8/8/8/3RK3 w - - 0 1");
    let take = Move::BasicMove(BasicMove {
        piece: Piece { color: Color::White, piece_type: PieceType::Rook },
        start: 3,
        end: 35,
        capture: Some(Piece { color: Color::Black, piece_type: PieceType::Queen }),
    });
    board.make_move(&take);
    assert_eq!(board.zobrist.get_id(), Board::from_fen(&board.to_fen()).zobrist.get_id());
}

#[test]
fn game_move_writes_the_moved_board() {
    let mut game = Game::new();
    let mut board = *game.get_board();
    let m = board.get_legal_moves()[0];
    game.make_move(&m);
    board.make_move(&m);
    assert_eq!(game.get_current_turn(), Color::Black);
    assert_eq!(game.serialize_board(), board.to_fen());
    assert_eq!(game.get_legal_moves().len(), board.get_legal_moves().len());
}

#[test]
fn one_move_search_takes_the_queen() {
    let board = Board::from_fen("4k3/8/8/3q4/8/8/8/3RK3 w - - 0 1");
    let r = AlphaBetaSearch::do_search(board, 1);
    assert_eq!(r.score, 500);
    let take = Move::BasicMove(BasicMove {
        piece: Piece { color: Color::White, piece_type: PieceType::Rook },
        start: 3,
        end: 35,
        capture: Some(Piece { color: Color::Black, piece_type: PieceType::Queen }),
    });
    assert!(r.mov == Some(take));
}

#[test]
fn two_move_search_keeps_the_queen_won() {
    let board = Board::from_fen("4k3/8/8/3q4/8/8/8/3RK3 w - - 0 1");
    assert_eq!(AlphaBetaSearch::do_search(board, 2).score, 500);
}

#[test]
fn a_checked_king_does_not_step_along_the_checking_line() {
    let board = Board::from_fen("4k3/8/8/8/8/8/8/r2K4 w - - 0 1");
    let mut ends: Vec<u8> = Vec::new();
    for m in board.get_legal_moves() {
        if let Move::BasicMove(b) = m {
            assert_eq!(b.piece.piece_type, PieceType::King);
            ends.push(b.end);
        }
    }
    ends.sort();
    assert_eq!(ends, vec![10, 11, 12]);
}

#[test]
fn shifting_a_square_number_past_the_board() {
    assert_eq!(move_from_square(70, 0, -1).ok(), Some(62));
    assert_eq!(move_from_square(100, 1, -5).ok(), Some(61));
    assert!(move_from_square(100, 4, 0).is_err());
    assert!(move_from_square(100, 0, 1).is_err());
}

#[test]
fn a_king_move_revokes_both_rights_of_its_color() {
    let mut board = Board::from_fen("r3k2r/8/8/8/8/8/8/R3K2R w KQkq - 0 1");
    let step = Move::BasicMove(BasicMove { piece: Piece { color: Color::White, piece_type: PieceType::King }, start: 4, end: 12, capture: None });
    board.make_move(&step);
    assert_eq!(board.to_fen(), "r3k2r/8/8/8/8/8/4K3/R6R b kq - 1 1");
}
