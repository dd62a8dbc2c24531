use chess_engine::rules::board::Board;
use chess_engine::testing::perft::{LevelPerft, Perft, PerftRunner, PrintablePerft};
use chess_engine::testing::zobrist::ZobristCollisionTester;

#[test]
fn perft_at_depth_zero_counts_the_board() {
    let p: Perft = PerftRunner::do_perft(Board::from_starting_position(), 0);
    let levels = p.levels();
    assert_eq!(levels.len(), 1);
    assert_eq!(levels[0].size, 1);
    assert_eq!(levels[0].checks, 0);
    assert_eq!(levels[0].captures, 0);
}

#[test]
fn level_counts_are_added() {
    let mut a = LevelPerft { size: 1, captures: 2, en_passants: 3, castles: 4, promotions: 5, checks: 6 };
    let b = LevelPerft { size: 10, captures: 20, en_passants: 30, castles: 40, promotions: 50, checks: u32::MAX };
    a.merge(&b);
    assert_eq!(a.size, 11);
    assert_eq!(a.captures, 22);
    assert_eq!(a.promotions, 55);
    assert_eq!(a.checks, 5);
}

#[test]
fn counts_are_grouped_by_thousands() {
    let level = LevelPerft { size: 1234567, captures: 0, en_passants: 999, castles: 1000, promotions: 4294967295, checks: 12 };
    let p = PrintablePerft::from_level(&level);
    assert_eq!(p.size, "1,234,567");
    assert_eq!(p.captures, "0");
    assert_eq!(p.en_passants, "999");
    assert_eq!(p.castles, "1,000");
    assert_eq!(p.promotions, "4,294,967,295");
    assert_eq!(p.checks, "12");
}

#[test]
fn collision_test_of_one_board() {
    let board = Board::from_starting_position();
    let r = ZobristCollisionTester::do_test(board, 0);
    assert_eq!(r.positions_checked, 1);
    assert_eq!(r.hash_matches, 0);
    assert_eq!(r.collisions, 0);
    assert_eq!(r.transpositions, 0);
    assert_eq!(r.collided_hash_count, 0);
    assert_eq!(r.memory_size, 8 + (board.to_fen().len() as u64 - 4));
    assert!(r.collision_pairs.is_empty());
}

#[test]
fn perft_at_depth_one_counts_the_moves() {
    let board = Board::from_starting_position();
    let n = board.get_legal_moves().len() as u32;
    let p = PerftRunner::do_perft(board, 1);
    let levels = p.levels();
    assert_eq!(levels.len(), 2);
    assert_eq!(levels[1].size, 1);
    assert_eq!(levels[0].size, n);
    assert_eq!(p.get_analysis().len(), 2);
}

#[test]
fn collision_test_one_level_deep() {
    let board = Board::from_starting_position();
    let n = board.get_legal_moves().len() as u32;
    let r = ZobristCollisionTester::do_test(board, 1);
    assert_eq!(r.positions_checked, 1 + n);
    assert_eq!(r.collision_pairs.len() as u32, r.collisions);
    assert!(r.hash_matches >= r.collisions);
    assert_eq!(r.transpositions, r.hash_matches - r.collisions);
    if r.collisions > 0 {
        assert!(r.collision_pairs[0].fen_1 != r.collision_pairs[0].fen_2);
    }
}

#[test]
fn merging_in_either_order_gives_the_same_counts() {
    let mut a = Perft::default();
    a.increment_size(0);
    a.increment_captures(1);
    let mut b = Perft::default();
    b.increment_size(2);
    b.increment_checks(0);
    let mut ab = Perft::default();
    ab.merge(&a);
    ab.merge(&b);
    let mut ba = Perft::default();
    ba.merge(&b);
    ba.merge(&a);
    assert!(ab.levels() == ba.levels());
    assert_eq!(ab.levels().len(), 3);
    assert_eq!(ab.levels()[0].size, 1);
    assert_eq!(ab.levels()[0].checks, 1);
    assert_eq!(ab.levels()[1].captures, 1);
    assert_eq!(ab.levels()[2].size, 1);
}
