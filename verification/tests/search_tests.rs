use chess_engine::engine::scores::{best_score, is_better};
use chess_engine::engine::search::alpha_beta::{
    process_transposition, AlphaBetaResult, AlphaBetaResultType, AlphaBetaSearch, AlphaBetaSearchPriority,
    AlphaBetaThreadContext, ThreadStep, ThreadedMoveOrderIterator, Transposition, TranspositionMatch,
};
use chess_engine::rules::board::Board;
use chess_engine::rules::pieces::movement::{BasicMove, Move};
use chess_engine::rules::pieces::{Piece, PieceType};
use chess_engine::rules::Color;

fn knight_move(start: u8, end: u8) -> Move {
    Move::BasicMove(BasicMove { piece: Piece { color: Color::White, piece_type: PieceType::Knight }, start: start, end: end, capture: None })
}

#[test]
fn best_scores_and_comparisons() {
    assert_eq!(best_score(Color::White), i16::MAX);
    assert_eq!(best_score(Color::Black), i16::MIN);
    assert!(is_better(3, 2, Color::White));
    assert!(!is_better(2, 2, Color::White));
    assert!(is_better(-3, 2, Color::Black));
    assert!(!is_better(3, 2, Color::Black));
}

#[test]
fn search_to_depth_zero_evaluates() {
    let r = AlphaBetaSearch::do_search(Board::from_starting_position(), 0);
    assert!(r.result_type == AlphaBetaResultType::Evaluated);
    assert_eq!(r.score, 0);
    assert_eq!(r.evaluated_nodes, 1);
    assert!(r.mov.is_none());
}

#[test]
fn transposition_decisions() {
    let t = Transposition { result_type: AlphaBetaResultType::Calculated, score: 50, mov: None, depth: 1 };
    match process_transposition(-100, 40, 2, Color::White, &t) {
        TranspositionMatch::FullMatch(r) => {
            assert!(r.result_type == AlphaBetaResultType::BetaCutoff);
            assert_eq!(r.score, 40);
            assert_eq!(r.beta_cutoffs, 1);
        },
        _ => panic!("expected a cutoff"),
    }
    match process_transposition(60, 100, 2, Color::White, &t) {
        TranspositionMatch::FullMatch(r) => {
            assert!(r.result_type == AlphaBetaResultType::AlphaFallback);
            assert_eq!(r.score, 60);
        },
        _ => panic!("expected a fallback"),
    }
    match process_transposition(0, 100, 2, Color::White, &t) {
        TranspositionMatch::FullMatch(r) => {
            assert!(r.result_type == AlphaBetaResultType::Calculated);
            assert_eq!(r.score, 50);
            assert_eq!(r.cache_hits, 1);
        },
        _ => panic!("expected the recorded result"),
    }
    let deeper = Transposition { result_type: AlphaBetaResultType::Calculated, score: 50, mov: Some(knight_move(6, 21)), depth: 5 };
    match process_transposition(0, 100, 2, Color::White, &deeper) {
        TranspositionMatch::BestMove(m) => assert!(m == knight_move(6, 21)),
        _ => panic!("expected a move to try first"),
    }
    let empty = Transposition { result_type: AlphaBetaResultType::Calculated, score: 50, mov: None, depth: 5 };
    assert!(matches!(process_transposition(0, 100, 2, Color::White, &empty), TranspositionMatch::NoMatch));
}

#[test]
fn threaded_node_at_last_level_evaluates() {
    let mut ctx = AlphaBetaThreadContext::initial(Board::from_starting_position(), 0);
    assert_eq!(ctx.alpha, i16::MIN);
    assert_eq!(ctx.beta, i16::MAX);
    match ctx.advance(None, false) {
        ThreadStep::Finish(r, t) => {
            assert!(r.result_type == AlphaBetaResultType::Evaluated);
            assert_eq!(r.score, 0);
            assert_eq!(t.depth, 0);
            assert_eq!(t.score, 0);
        },
        _ => panic!("expected the evaluation"),
    }
    assert!(ctx.is_complete());
    assert!(matches!(ctx.advance(None, false), ThreadStep::Stop));
}

#[test]
fn threaded_node_stops_under_a_complete_node() {
    let mut ctx = AlphaBetaThreadContext::initial(Board::from_starting_position(), 2);
    assert!(matches!(ctx.advance(None, true), ThreadStep::Stop));
    assert!(!ctx.is_complete());
}

#[test]
fn threaded_node_finishes_with_its_best_child() {
    let mut ctx = AlphaBetaThreadContext::initial(Board::from_starting_position(), 1);
    ctx.child_count = 2;
    let first = AlphaBetaResult { result_type: AlphaBetaResultType::Evaluated, score: 5, mov: None, evaluated_nodes: 1, cache_hits: 0, beta_cutoffs: 0 };
    assert!(matches!(ctx.complete_child(first, knight_move(6, 21), false), ThreadStep::Wait));
    assert_eq!(ctx.alpha, 5);
    let second = AlphaBetaResult { result_type: AlphaBetaResultType::Evaluated, score: 3, mov: None, evaluated_nodes: 1, cache_hits: 2, beta_cutoffs: 0 };
    match ctx.complete_child(second, knight_move(1, 18), false) {
        ThreadStep::Finish(r, t) => {
            assert!(r.result_type == AlphaBetaResultType::Calculated);
            assert_eq!(r.score, 5);
            assert!(r.mov == Some(knight_move(6, 21)));
            assert_eq!(r.evaluated_nodes, 2);
            assert_eq!(r.cache_hits, 2);
            assert_eq!(t.depth, 1);
        },
        _ => panic!("expected the node to finish"),
    }
    assert!(ctx.is_complete());
    assert!(ctx.best_move.is_none());
}

#[test]
fn threaded_node_cuts_off_above_beta() {
    let mut ctx = AlphaBetaThreadContext::initial(Board::from_starting_position(), 1);
    ctx.beta = 10;
    ctx.child_count = 3;
    let strong = AlphaBetaResult { result_type: AlphaBetaResultType::Evaluated, score: 20, mov: None, evaluated_nodes: 1, cache_hits: 0, beta_cutoffs: 0 };
    match ctx.complete_child(strong, knight_move(6, 21), false) {
        ThreadStep::Finish(r, _) => {
            assert!(r.result_type == AlphaBetaResultType::BetaCutoff);
            assert_eq!(r.score, 10);
            assert_eq!(r.beta_cutoffs, 1);
        },
        _ => panic!("expected a cutoff"),
    }
}

#[test]
fn threaded_order_puts_the_last_child_first() {
    let board = Board::from_starting_position();
    let mut a = AlphaBetaThreadContext::initial(board, 1);
    a.alpha = 1;
    let mut b = a;
    b.alpha = 2;
    let mut c = a;
    c.alpha = 3;
    let mut it = ThreadedMoveOrderIterator::from_contexts(vec![a, b, c]);
    let (p1, c1) = it.next().unwrap();
    assert!(p1 == AlphaBetaSearchPriority::FirstMove);
    assert_eq!(c1.alpha, 3);
    let (p2, c2) = it.next().unwrap();
    assert!(p2 == AlphaBetaSearchPriority::Remainder);
    assert_eq!(c2.alpha, 1);
    let (_, c3) = it.next().unwrap();
    assert_eq!(c3.alpha, 2);
    assert!(it.next().is_none());
}

#[test]
fn priority_from_index() {
    assert!(AlphaBetaSearchPriority::from_index(0) == AlphaBetaSearchPriority::FirstMove);
    assert!(AlphaBetaSearchPriority::from_index(3) == AlphaBetaSearchPriority::Remainder);
}
