use vstd::prelude::*;
use vstd::std_specs::bits::{u64_trailing_zeros, u64_leading_zeros};
use vstd::arithmetic::div_mod::lemma_fundamental_div_mod_converse;

use crate::rules::Color;
use crate::rules::pieces::{Piece, PieceType};
use crate::rules::pieces::movement::{SlideDirection, PawnMovement, dir_delta, dir_step, pawn_is_positive};

use super::squares::{BoardSquare, col_of, row_of, shift_square};
use super::bits::{bit, group_bits, lemma_lowest_bit, lemma_highest_bit, lemma_zero_iff_empty, lemma_bits_ext};

verus! {

broadcast use group_bits;

pub fn get_bit_for_square(square: u8) -> (b: u64)
    requires
        square < 64,
    ensures
        b == 1u64 << square,
        forall|s: int| #[trigger] bit(b, s) == (s == square),
{
    1u64 << square
}

pub fn set_bit_at_square(board: u64, square: u8) -> (b: u64)
    requires
        square < 64,
    ensures
        b == board | (1u64 << square),
        forall|s: int| #[trigger] bit(b, s) == (s == square || bit(board, s)),
{
    board | (1u64 << square)
}

pub fn unset_bit_at_square(board: u64, square: u8) -> (b: u64)
    requires
        square < 64,
    ensures
        b == board & !(1u64 << square),
        forall|s: int| #[trigger] bit(b, s) == (s != square && bit(board, s)),
{
    board & !(1u64 << square)
}


// ---------------------------------------------------------------------------
// Rays
// ---------------------------------------------------------------------------

/// The (column, row) reached from `from` by `k` steps in direction `d`.
pub open spec fn ray_coords(from: int, d: SlideDirection, k: int) -> (int, int) {
    let c = col_of(from);
    let r = row_of(from);
    match d {
        SlideDirection::North => (c, r + k),
        SlideDirection::NorthEast => (c + k, r + k),
        SlideDirection::East => (c + k, r),
        SlideDirection::SouthEast => (c + k, r - k),
        SlideDirection::South => (c, r - k),
        SlideDirection::SouthWest => (c - k, r - k),
        SlideDirection::West => (c - k, r),
        SlideDirection::NorthWest => (c - k, r + k),
    }
}

/// The square `k` steps away from `from` in direction `d`, when it is on the board.
pub open spec fn ray_square(from: int, d: SlideDirection, k: int) -> Option<int> {
    let (nc, nr) = ray_coords(from, d, k);
    if 0 <= from < 64 && 0 <= nc <= 7 && 0 <= nr <= 7 {
        Some(nr * 8 + nc)
    } else {
        None
    }
}

/// Whether `to` lies on the ray that leaves `from` in direction `d` (not counting `from`).
pub open spec fn on_ray(from: int, d: SlideDirection, to: int) -> bool {
    exists|k: int| 1 <= k && #[trigger] ray_square(from, d, k) == Some(to)
}

/// The column and row of a square along a ray move by whole steps.
pub proof fn lemma_ray_square_coords(from: int, d: SlideDirection, k: int)
    requires
        ray_square(from, d, k) is Some,
    ensures
        0 <= ray_square(from, d, k)->0 < 64,
        col_of(ray_square(from, d, k)->0) == ray_coords(from, d, k).0,
        row_of(ray_square(from, d, k)->0) == ray_coords(from, d, k).1,
        ray_square(from, d, k)->0 == from + k * dir_step(d),
{
    let (nc, nr) = ray_coords(from, d, k);
    lemma_fundamental_div_mod_converse(nr * 8 + nc, 8, nr, nc);
    assert(from == 8 * row_of(from) + col_of(from));
    match d {
        SlideDirection::North => {},
        SlideDirection::NorthEast => {},
        SlideDirection::East => {},
        SlideDirection::SouthEast => {},
        SlideDirection::South => {},
        SlideDirection::SouthWest => {},
        SlideDirection::West => {},
        SlideDirection::NorthWest => {},
    }
}

/// A ray reaches at most seven squares.
pub proof fn lemma_ray_square_bound(from: int, d: SlideDirection, k: int)
    requires
        ray_square(from, d, k) is Some,
        k >= 1,
    ensures
        k <= 7,
{
    assert(0 <= col_of(from) < 8 && 0 <= row_of(from) < 8);
    match d {
        SlideDirection::North => {},
        SlideDirection::NorthEast => {},
        SlideDirection::East => {},
        SlideDirection::SouthEast => {},
        SlideDirection::South => {},
        SlideDirection::SouthWest => {},
        SlideDirection::West => {},
        SlideDirection::NorthWest => {},
    }
}

/// Every square before a square of a ray is on the board.
pub proof fn lemma_ray_square_prefix(from: int, d: SlideDirection, k: int, j: int)
    requires
        ray_square(from, d, k) is Some,
        0 <= j <= k,
    ensures
        ray_square(from, d, j) is Some,
{
    assert(0 <= col_of(from) < 8 && 0 <= row_of(from) < 8);
    match d {
        SlideDirection::North => {},
        SlideDirection::NorthEast => {},
        SlideDirection::East => {},
        SlideDirection::SouthEast => {},
        SlideDirection::South => {},
        SlideDirection::SouthWest => {},
        SlideDirection::West => {},
        SlideDirection::NorthWest => {},
    }
}

/// Walking `j` more steps from the `k`-th square of a ray is walking `k + j` steps.
pub proof fn lemma_ray_square_compose(from: int, d: SlideDirection, k: int, j: int)
    requires
        ray_square(from, d, k) is Some,
    ensures
        ray_square(ray_square(from, d, k)->0, d, j) == ray_square(from, d, k + j),
{
    lemma_ray_square_coords(from, d, k);
    let c = ray_square(from, d, k)->0;
    assert(0 <= col_of(c) < 8 && 0 <= row_of(c) < 8);
    match d {
        SlideDirection::North => {},
        SlideDirection::NorthEast => {},
        SlideDirection::East => {},
        SlideDirection::SouthEast => {},
        SlideDirection::South => {},
        SlideDirection::SouthWest => {},
        SlideDirection::West => {},
        SlideDirection::NorthWest => {},
    }
}

/// One step of a direction from a square of a ray is the next square of the ray.
pub proof fn lemma_ray_square_next(from: int, d: SlideDirection, k: int)
    requires
        ray_square(from, d, k) is Some,
    ensures
        shift_square(ray_square(from, d, k)->0, dir_delta(d).0, dir_delta(d).1) == ray_square(from, d, k + 1),
{
    lemma_ray_square_coords(from, d, k);
    let c = ray_square(from, d, k)->0;
    lemma_ray_square_compose(from, d, k, 1);
    assert(0 <= col_of(c) < 8 && 0 <= row_of(c) < 8);
    assert(c == 8 * row_of(c) + col_of(c));
    if ray_square(from, d, k + 1) is Some {
        lemma_ray_square_coords(from, d, k + 1);
    }
    match d {
        SlideDirection::North => {},
        SlideDirection::NorthEast => {},
        SlideDirection::East => {},
        SlideDirection::SouthEast => {},
        SlideDirection::South => {},
        SlideDirection::SouthWest => {},
        SlideDirection::West => {},
        SlideDirection::NorthWest => {},
    }
}

/// A square is at one distance only along a ray.
pub proof fn lemma_ray_square_unique(from: int, d: SlideDirection, k: int, j: int)
    requires
        ray_square(from, d, k) is Some,
        ray_square(from, d, j) == ray_square(from, d, k),
    ensures
        j == k,
{
    lemma_ray_square_coords(from, d, k);
    lemma_ray_square_coords(from, d, j);
    match d {
        SlideDirection::North => {},
        SlideDirection::NorthEast => {},
        SlideDirection::East => {},
        SlideDirection::SouthEast => {},
        SlideDirection::South => {},
        SlideDirection::SouthWest => {},
        SlideDirection::West => {},
        SlideDirection::NorthWest => {},
    }
}

fn generate_sliding_bitboard(square: u8, direction: SlideDirection) -> (board: u64)
    requires
        square < 64,
    ensures
        forall|t: int| #[trigger] bit(board, t) == on_ray(square as int, direction, t),
{
    let mut board = 0u64;
    let (col_shift, row_shift) = direction.get_direction();
    let mut current_square = square;
    let ghost mut i: int = 0;
    assert(ray_square(square as int, direction, 0) == Some(square as int));
    loop
        invariant
            0 <= i <= 7,
            current_square < 64,
            ray_square(square as int, direction, i) == Some(current_square as int),
            (col_shift as int, row_shift as int) == dir_delta(direction),
            forall|t: int| #[trigger] bit(board, t) == exists|k: int| 1 <= k <= i && #[trigger] ray_square(square as int, direction, k) == Some(t),
        ensures
            forall|t: int| #[trigger] bit(board, t) == exists|k: int| 1 <= k <= i && #[trigger] ray_square(square as int, direction, k) == Some(t),
            ray_square(square as int, direction, i + 1) is None,
            0 <= i,
        decreases 7 - i,
    {
        proof {
            lemma_ray_square_next(square as int, direction, i);
        }
        match BoardSquare::from_value(current_square).apply_movement(col_shift, row_shift) {
            Err(_) => break,
            Ok(new_square) => {
                assert(shift_square(current_square as int, col_shift as int, row_shift as int) == ray_square(square as int, direction, i + 1));
                assert(new_square.index() == ray_square(square as int, direction, i + 1)->0);
                let ghost old_board = board;
                let nb = get_bit_for_square(new_square.value());
                board = board | nb;
                current_square = new_square.value();
                assert(forall|t: int| #[trigger] bit(board, t) == (bit(old_board, t) || t == current_square));
                proof {
                    i = i + 1;
                    lemma_ray_square_bound(square as int, direction, i);
                    assert forall|t: int| #[trigger] bit(board, t) == exists|k: int| 1 <= k <= i && #[trigger] ray_square(square as int, direction, k) == Some(t) by {
                        if bit(board, t) && !bit(old_board, t) {
                            assert(ray_square(square as int, direction, i) == Some(t));
                        }
                        if exists|k: int| 1 <= k <= i && #[trigger] ray_square(square as int, direction, k) == Some(t) {
                            let k = choose|k: int| 1 <= k <= i && #[trigger] ray_square(square as int, direction, k) == Some(t);
                            if k < i {
                                assert(bit(old_board, t));
                            }
                        }
                    }
                }
            },
        }
    }
    proof {
        assert forall|t: int| #[trigger] bit(board, t) == on_ray(square as int, direction, t) by {
            if on_ray(square as int, direction, t) {
                let k = choose|k: int| 1 <= k && #[trigger] ray_square(square as int, direction, k) == Some(t);
                if k > i {
                    lemma_ray_square_prefix(square as int, direction, k, i + 1);
                }
            }
        }
    }
    board
}


pub(crate) fn get_ray_bitboard(square: u8, dir: SlideDirection) -> (board: u64)
    requires
        square < 64,
    ensures
        forall|t: int| #[trigger] bit(board, t) == on_ray(square as int, dir, t),
{
    generate_sliding_bitboard(square, dir)
}

/// No square of the ray before its `k`-th one is set in `occ`.
pub open spec fn ray_clear_before(from: int, d: SlideDirection, k: int, occ: u64) -> bool {
    forall|j: int| 1 <= j < k ==> !bit(occ, #[trigger] ray_square(from, d, j)->0)
}

/// Whether a piece sliding from `from` in direction `d` reaches `t`: every square before it is
/// empty, and `t` itself is empty or holds an enemy.
pub open spec fn slide_reaches(from: int, d: SlideDirection, friendlies: u64, enemies: u64, t: int) -> bool {
    exists|k: int|
        1 <= k && #[trigger] ray_square(from, d, k) == Some(t) && ray_clear_before(from, d, k, friendlies | enemies)
            && (bit(friendlies | enemies, t) ==> bit(enemies, t))
}

/// The first occupied square along a ray is the lowest set square of the blocked part of the
/// ray for a direction in which square numbers grow, and the highest one otherwise; every
/// square of the ray before it is empty.
pub proof fn lemma_first_block(sq: int, d: SlideDirection, ray: u64, occ: u64, fb: int) -> (kf: int)
    requires
        0 <= sq < 64,
        forall|t: int| #[trigger] bit(ray, t) == on_ray(sq, d, t),
        ray & occ != 0,
        dir_step(d) > 0 ==> fb == u64_trailing_zeros(ray & occ),
        dir_step(d) < 0 ==> fb == 63 - u64_leading_zeros(ray & occ),
    ensures
        1 <= kf,
        ray_square(sq, d, kf) == Some(fb),
        ray_clear_before(sq, d, kf, occ),
        bit(occ, fb),
{
    let blocks = ray & occ;
    lemma_lowest_bit(blocks);
    lemma_highest_bit(blocks);
    assert(dir_step(d) != 0) by {
        match d {
            SlideDirection::North => {},
            SlideDirection::NorthEast => {},
            SlideDirection::East => {},
            SlideDirection::SouthEast => {},
            SlideDirection::South => {},
            SlideDirection::SouthWest => {},
            SlideDirection::West => {},
            SlideDirection::NorthWest => {},
        }
    }
    assert(bit(blocks, fb));
    assert(on_ray(sq, d, fb));
    let kf = choose|k: int| 1 <= k && #[trigger] ray_square(sq, d, k) == Some(fb);
    lemma_ray_square_coords(sq, d, kf);
    assert forall|j: int| 1 <= j < kf implies !bit(occ, #[trigger] ray_square(sq, d, j)->0) by {
        lemma_ray_square_prefix(sq, d, kf, j);
        lemma_ray_square_coords(sq, d, j);
        let x = ray_square(sq, d, j)->0;
        assert(on_ray(sq, d, x));
        assert(bit(ray, x));
        assert(!bit(blocks, x));
    }
    kf
}

/// The squares that a piece sliding in direction `dir` from `square` reaches.
fn get_bitboard_for_slide_direction(square: u8, friendlies: u64, enemies: u64, dir: SlideDirection) -> (moves: u64)
    requires
        square < 64,
    ensures
        forall|t: int| #[trigger] bit(moves, t) == slide_reaches(square as int, dir, friendlies, enemies, t),
{
    let all_blockers = friendlies | enemies;
    let ray = get_ray_bitboard(square, dir);
    let blocks = ray & all_blockers;
    if blocks == 0u64 {
        proof {
            lemma_zero_iff_empty(blocks);
            assert forall|t: int| #[trigger] bit(ray, t) == slide_reaches(square as int, dir, friendlies, enemies, t) by {
                if bit(ray, t) {
                    let k = choose|k: int| 1 <= k && #[trigger] ray_square(square as int, dir, k) == Some(t);
                    assert forall|j: int| 1 <= j < k implies !bit(all_blockers, #[trigger] ray_square(square as int, dir, j)->0) by {
                        lemma_ray_square_prefix(square as int, dir, k, j);
                        let x = ray_square(square as int, dir, j)->0;
                        assert(on_ray(square as int, dir, x));
                        assert(!bit(blocks, x));
                    }
                    assert(!bit(blocks, t));
                }
            }
        }
        return ray;
    }
    let first_block = match dir.is_positive() {
        true => blocks.trailing_zeros() as u8,
        false => {
            proof { lemma_highest_bit(blocks); }
            63 - blocks.leading_zeros() as u8
        },
    };
    let ghost kf = lemma_first_block(square as int, dir, ray, all_blockers, first_block as int);
    proof {
        lemma_lowest_bit(blocks);
        lemma_highest_bit(blocks);
    }
    let blocker_bit = get_bit_for_square(first_block);
    let blocked_squares = get_ray_bitboard(first_block, dir);
    let mut moves = ray ^ blocked_squares;
    proof {
        lemma_zero_iff_empty(blocker_bit & enemies);
    }
    if blocker_bit & enemies == 0 {
        moves &= !blocker_bit;
    }
    proof {
        assert(bit(blocker_bit & enemies, first_block as int) == bit(enemies, first_block as int));
        assert forall|t: int| #[trigger] bit(moves, t) == ((bit(ray, t) != bit(blocked_squares, t)) && (t != first_block || bit(enemies, t))) by {
        }
        lemma_ray_square_coords(square as int, dir, kf);
        assert forall|t: int| #[trigger] bit(moves, t) == slide_reaches(square as int, dir, friendlies, enemies, t) by {
            if on_ray(square as int, dir, t) {
                let k = choose|k: int| 1 <= k && #[trigger] ray_square(square as int, dir, k) == Some(t);
                lemma_ray_square_coords(square as int, dir, k);
                if k > kf {
                    lemma_ray_square_compose(square as int, dir, kf, k - kf);
                    assert(on_ray(first_block as int, dir, t));
                    if slide_reaches(square as int, dir, friendlies, enemies, t) {
                        let k2 = choose|k2: int| 1 <= k2 && #[trigger] ray_square(square as int, dir, k2) == Some(t)
                            && ray_clear_before(square as int, dir, k2, friendlies | enemies)
                            && (bit(friendlies | enemies, t) ==> bit(enemies, t));
                        lemma_ray_square_unique(square as int, dir, k, k2);
                        assert(!bit(all_blockers, ray_square(square as int, dir, kf)->0));
                    }
                } else {
                    if on_ray(first_block as int, dir, t) {
                        let j = choose|j: int| 1 <= j && #[trigger] ray_square(first_block as int, dir, j) == Some(t);
                        lemma_ray_square_compose(square as int, dir, kf, j);
                        lemma_ray_square_unique(square as int, dir, k, kf + j);
                    }
                    assert forall|j: int| 1 <= j < k implies !bit(all_blockers, #[trigger] ray_square(square as int, dir, j)->0) by {
                        assert(j < kf);
                    }
                    if k < kf {
                        lemma_ray_square_prefix(square as int, dir, kf, k);
                        assert(!bit(all_blockers, ray_square(square as int, dir, k)->0));
                    }
                }
            } else {
                if on_ray(first_block as int, dir, t) {
                    let j = choose|j: int| 1 <= j && #[trigger] ray_square(first_block as int, dir, j) == Some(t);
                    lemma_ray_square_compose(square as int, dir, kf, j);
                    assert(ray_square(square as int, dir, kf + j) == Some(t));
                }
            }
        }
    }
    moves
}


/// The squares that pieces sliding from `square` in the directions `dirs` reach.
fn get_bitboard_for_slide_directions(square: u8, friendlies: u64, enemies: u64, dirs: &[SlideDirection]) -> (board: u64)
    requires
        square < 64,
    ensures
        forall|t: int| #[trigger] bit(board, t) == exists|i: int| 0 <= i < dirs@.len() && #[trigger] slide_reaches(square as int, dirs@[i], friendlies, enemies, t),
{
    let mut board = 0u64;
    let mut n: usize = 0;
    while n < dirs.len()
        invariant
            square < 64,
            n <= dirs@.len(),
            forall|t: int| #[trigger] bit(board, t) == exists|i: int| 0 <= i < n && #[trigger] slide_reaches(square as int, dirs@[i], friendlies, enemies, t),
        decreases dirs@.len() - n,
    {
        let ghost old_board = board;
        let dir_board = get_bitboard_for_slide_direction(square, friendlies, enemies, dirs[n]);
        board |= dir_board;
        proof {
            assert forall|t: int| #[trigger] bit(board, t) == exists|i: int| 0 <= i < n + 1 && #[trigger] slide_reaches(square as int, dirs@[i], friendlies, enemies, t) by {
                if exists|i: int| 0 <= i < n + 1 && #[trigger] slide_reaches(square as int, dirs@[i], friendlies, enemies, t) {
                    let i = choose|i: int| 0 <= i < n + 1 && #[trigger] slide_reaches(square as int, dirs@[i], friendlies, enemies, t);
                    if i < n {
                        assert(bit(old_board, t));
                    }
                }
            }
        }
        n += 1;
    }
    board
}

/// A step that `move_from_square` takes from `square` without overflowing its arithmetic.
pub open spec fn shift_in_range(square: int, dc: int, dr: int) -> bool {
    &&& square % 8 + dc <= 127
    &&& 0 <= square % 8 + dc <= 7 ==> (-16 <= dr <= 15 && -128 <= square + dc + 8 * dr <= 127)
}

/// Whether one of the steps `shifts` leads from `square` to `t`.
pub open spec fn shift_hits(square: int, shifts: Seq<(i8, i8)>, t: int) -> bool {
    exists|i: int| 0 <= i < shifts.len() && #[trigger] shift_square(square, shifts[i].0 as int, shifts[i].1 as int) == Some(t)
}

fn generate_bitboard_from_shifts(square: u8, shifts: Vec<(i8, i8)>) -> (board: u64)
    requires
        square < 64,
        forall|i: int| 0 <= i < shifts@.len() ==> shift_in_range(square as int, #[trigger] shifts@[i].0 as int, shifts@[i].1 as int),
    ensures
        forall|t: int| #[trigger] bit(board, t) == shift_hits(square as int, shifts@, t),
{
    let bsquare = BoardSquare::from_value(square);
    let mut board = 0u64;
    let mut n: usize = 0;
    while n < shifts.len()
        invariant
            square < 64,
            bsquare.index() == square,
            n <= shifts@.len(),
            forall|i: int| 0 <= i < shifts@.len() ==> shift_in_range(square as int, #[trigger] shifts@[i].0 as int, shifts@[i].1 as int),
            forall|t: int| #[trigger] bit(board, t) == exists|i: int| 0 <= i < n && #[trigger] shift_square(square as int, shifts@[i].0 as int, shifts@[i].1 as int) == Some(t),
        decreases shifts@.len() - n,
    {
        let ghost old_board = board;
        let (col_shift, row_shift) = shifts[n];
        assert(shift_in_range(square as int, shifts@[n as int].0 as int, shifts@[n as int].1 as int));
        match bsquare.apply_movement(col_shift, row_shift) {
            Err(_) => {},
            Ok(new_square) => {
                let nb = get_bit_for_square(new_square.value());
                board = board | nb;
            },
        }
        proof {
            assert forall|t: int| #[trigger] bit(board, t) == exists|i: int| 0 <= i < n + 1 && #[trigger] shift_square(square as int, shifts@[i].0 as int, shifts@[i].1 as int) == Some(t) by {
                if exists|i: int| 0 <= i < n + 1 && #[trigger] shift_square(square as int, shifts@[i].0 as int, shifts@[i].1 as int) == Some(t) {
                    let i = choose|i: int| 0 <= i < n + 1 && #[trigger] shift_square(square as int, shifts@[i].0 as int, shifts@[i].1 as int) == Some(t);
                    if i < n {
                        assert(bit(old_board, t));
                    }
                }
            }
        }
        n += 1;
    }
    board
}

/// The steps of a knight.
pub open spec fn knight_shifts() -> Seq<(i8, i8)> {
    seq![(1i8, 2i8), (2i8, 1i8), (2i8, -1i8), (1i8, -2i8), (-1i8, -2i8), (-2i8, -1i8), (-2i8, 1i8), (-1i8, 2i8)]
}

/// The steps of a king.
pub open spec fn king_shifts() -> Seq<(i8, i8)> {
    seq![(0i8, 1i8), (1i8, 1i8), (1i8, 0i8), (1i8, -1i8), (0i8, -1i8), (-1i8, -1i8), (-1i8, 0i8), (-1i8, 1i8)]
}

fn generate_knight_bitboard(square: u8) -> (board: u64)
    requires
        square < 64,
    ensures
        forall|t: int| #[trigger] bit(board, t) == shift_hits(square as int, knight_shifts(), t),
{
    let shifts = vec![(1i8, 2i8), (2i8, 1i8), (2i8, -1i8), (1i8, -2i8), (-1i8, -2i8), (-2i8, -1i8), (-2i8, 1i8), (-1i8, 2i8)];
    assert(shifts@ =~= knight_shifts());
    generate_bitboard_from_shifts(square, shifts)
}

fn generate_king_bitboard(square: u8) -> (board: u64)
    requires
        square < 64,
    ensures
        forall|t: int| #[trigger] bit(board, t) == shift_hits(square as int, king_shifts(), t),
{
    let shifts = vec![(0i8, 1i8), (1i8, 1i8), (1i8, 0i8), (1i8, -1i8), (0i8, -1i8), (-1i8, -1i8), (-1i8, 0i8), (-1i8, 1i8)];
    assert(shifts@ =~= king_shifts());
    generate_bitboard_from_shifts(square, shifts)
}

/// The squares visited by repeating the step (dc, dr) up to `n` times from `cur`, stopping
/// at the edge of the board.
pub open spec fn repeated_shift_hits(cur: int, dc: int, dr: int, n: nat, t: int) -> bool
    decreases n,
{
    if n == 0 {
        false
    } else {
        match shift_square(cur, dc, dr) {
            None => false,
            Some(x) => x == t || repeated_shift_hits(x, dc, dr, (n - 1) as nat, t),
        }
    }
}

/// The square where repeating the step (dc, dr) up to `n` times from `cur` stops.
pub open spec fn repeated_shift_end(cur: int, dc: int, dr: int, n: nat) -> int
    decreases n,
{
    if n == 0 {
        cur
    } else {
        match shift_square(cur, dc, dr) {
            None => cur,
            Some(x) => repeated_shift_end(x, dc, dr, (n - 1) as nat),
        }
    }
}

/// Repeats one step up to `times` times from `current`, adding each square reached to `board`.
fn walk_shift(board: u64, current: u8, col_shift: i8, row_shift: i8, times: u8) -> (res: (u64, u8))
    requires
        current < 64,
        -1 <= col_shift <= 1,
        -1 <= row_shift <= 1,
    ensures
        res.1 < 64,
        res.1 == repeated_shift_end(current as int, col_shift as int, row_shift as int, times as nat),
        forall|t: int| #[trigger] bit(res.0, t) == (bit(board, t) || repeated_shift_hits(current as int, col_shift as int, row_shift as int, times as nat, t)),
    decreases times,
{
    if times == 0 {
        return (board, current);
    }
    match BoardSquare::from_value(current).apply_movement(col_shift, row_shift) {
        Err(_) => (board, current),
        Ok(new_square) => {
            let nb = get_bit_for_square(new_square.value());
            walk_shift(board | nb, new_square.value(), col_shift, row_shift, times - 1)
        },
    }
}

/// The squares of a pawn movement from `s`, walked as the movement's steps are taken one
/// after the other, each from where the previous one stopped.
pub open spec fn pawn_board_has(s: int, m: PawnMovement, t: int) -> bool {
    match m {
        PawnMovement::WhiteAdvance => match shift_square(s, 0, 1) {
            None => false,
            Some(a1) => a1 == t || (row_of(s) == 1 && shift_square(a1, 0, 1) == Some(t)),
        },
        PawnMovement::BlackAdvance => match shift_square(s, 0, -1) {
            None => false,
            Some(a1) => a1 == t || (row_of(s) == 6 && shift_square(a1, 0, -1) == Some(t)),
        },
        PawnMovement::WhiteAttack => match shift_square(s, 1, 1) {
            Some(f) => f == t || shift_square(f, -1, 1) == Some(t),
            None => shift_square(s, -1, 1) == Some(t),
        },
        PawnMovement::BlackAttack => match shift_square(s, 1, -1) {
            Some(f) => f == t || shift_square(f, -1, -1) == Some(t),
            None => shift_square(s, -1, -1) == Some(t),
        },
    }
}

fn generate_pawn_bitboard(square: u8, movement: PawnMovement) -> (board: u64)
    requires
        square < 64,
    ensures
        forall|t: int| #[trigger] bit(board, t) == pawn_board_has(square as int, movement, t),
{
    reveal_with_fuel(repeated_shift_hits, 3);
    reveal_with_fuel(repeated_shift_end, 3);
    let movements = movement.get_movements();
    let max_distance = movement.get_max_distance(square);
    let (col_shift, row_shift) = movements[0];
    let (board, current_square) = walk_shift(0u64, square, col_shift, row_shift, max_distance);
    if movements.len() > 1 {
        let (col_shift2, row_shift2) = movements[1];
        let (board2, _) = walk_shift(board, current_square, col_shift2, row_shift2, max_distance);
        board2
    } else {
        board
    }
}

pub(crate) fn get_pawn_bitboard(square: u8, mov: PawnMovement) -> (board: u64)
    requires
        square < 64,
    ensures
        forall|t: int| #[trigger] bit(board, t) == pawn_board_has(square as int, mov, t),
{
    generate_pawn_bitboard(square, mov)
}

pub(crate) fn get_knight_bitboard(square: u8) -> (board: u64)
    requires
        square < 64,
    ensures
        forall|t: int| #[trigger] bit(board, t) == shift_hits(square as int, knight_shifts(), t),
{
    generate_knight_bitboard(square)
}

pub(crate) fn get_king_bitboard(square: u8) -> (board: u64)
    requires
        square < 64,
    ensures
        forall|t: int| #[trigger] bit(board, t) == shift_hits(square as int, king_shifts(), t),
{
    generate_king_bitboard(square)
}


/// The squares of the rays leaving `square` in the directions `dirs`.
fn get_rays_bitboard(square: u8, dirs: &[SlideDirection]) -> (board: u64)
    requires
        square < 64,
    ensures
        forall|t: int| #[trigger] bit(board, t) == exists|i: int| 0 <= i < dirs@.len() && #[trigger] on_ray(square as int, dirs@[i], t),
{
    let mut board = 0u64;
    let mut n: usize = 0;
    while n < dirs.len()
        invariant
            square < 64,
            n <= dirs@.len(),
            forall|t: int| #[trigger] bit(board, t) == exists|i: int| 0 <= i < n && #[trigger] on_ray(square as int, dirs@[i], t),
        decreases dirs@.len() - n,
    {
        let ghost old_board = board;
        let ray = get_ray_bitboard(square, dirs[n]);
        board |= ray;
        proof {
            assert forall|t: int| #[trigger] bit(board, t) == exists|i: int| 0 <= i < n + 1 && #[trigger] on_ray(square as int, dirs@[i], t) by {
                if exists|i: int| 0 <= i < n + 1 && #[trigger] on_ray(square as int, dirs@[i], t) {
                    let i = choose|i: int| 0 <= i < n + 1 && #[trigger] on_ray(square as int, dirs@[i], t);
                    if i < n {
                        assert(bit(old_board, t));
                    }
                }
            }
        }
        n += 1;
    }
    board
}

/// The four diagonal directions.
pub open spec fn diagonal_dirs() -> Seq<SlideDirection> {
    seq![SlideDirection::NorthEast, SlideDirection::SouthEast, SlideDirection::SouthWest, SlideDirection::NorthWest]
}

/// The four orthogonal directions.
pub open spec fn orthagonal_dirs() -> Seq<SlideDirection> {
    seq![SlideDirection::North, SlideDirection::East, SlideDirection::South, SlideDirection::West]
}

/// The eight directions in which a queen slides: the diagonals, then the orthogonals.
pub open spec fn queen_dirs() -> Seq<SlideDirection> {
    diagonal_dirs() + orthagonal_dirs()
}

/// Every square on a diagonal through `square`.
pub fn get_diagonal_bitboard(square: u8) -> (board: u64)
    requires
        square < 64,
    ensures
        forall|t: int| #[trigger] bit(board, t) == exists|i: int| 0 <= i < 4 && #[trigger] on_ray(square as int, diagonal_dirs()[i], t),
{
    let dirs = SlideDirection::diagonals();
    assert(dirs@ == diagonal_dirs());
    get_rays_bitboard(square, &dirs)
}

/// Every square on the row or column of `square`.
pub fn get_orthagonal_bitboard(square: u8) -> (board: u64)
    requires
        square < 64,
    ensures
        forall|t: int| #[trigger] bit(board, t) == exists|i: int| 0 <= i < 4 && #[trigger] on_ray(square as int, orthagonal_dirs()[i], t),
{
    let dirs = SlideDirection::orthagonals();
    assert(dirs@ == orthagonal_dirs());
    get_rays_bitboard(square, &dirs)
}

/// A square of a pawn movement on which something stands.
pub open spec fn pawn_blocked(s: int, mov: PawnMovement, all: u64, x: int) -> bool {
    pawn_board_has(s, mov, x) && bit(all, x)
}

/// The blocked square of a pawn movement that comes first in the movement's direction.
pub open spec fn is_first_pawn_block(s: int, mov: PawnMovement, all: u64, x: int) -> bool {
    &&& pawn_blocked(s, mov, all, x)
    &&& forall|y: int| #[trigger] pawn_blocked(s, mov, all, y) ==> if pawn_is_positive(mov) { x <= y } else { y <= x }
}

/// The squares of a pawn movement that remain once the first blocked square, and every square
/// the movement would reach from it, are taken out.
pub open spec fn pawn_advance_has(s: int, mov: PawnMovement, all: u64, t: int) -> bool {
    &&& pawn_board_has(s, mov, t)
    &&& forall|x: int| #[trigger] is_first_pawn_block(s, mov, all, x) ==> !(t == x || pawn_board_has(x, mov, t))
}

fn get_bitboard_for_pawn_attacks(square: u8, enemies: u64, mov: PawnMovement, en_passant_target: u64) -> (board: u64)
    requires
        square < 64,
    ensures
        forall|t: int| #[trigger] bit(board, t) == (pawn_board_has(square as int, mov, t) && (bit(enemies, t) || bit(en_passant_target, t))),
{
    get_pawn_bitboard(square, mov) & (enemies | en_passant_target)
}

fn get_bitboard_for_pawn_advance(square: u8, friendlies: u64, enemies: u64, mov: PawnMovement) -> (board: u64)
    requires
        square < 64,
    ensures
        forall|t: int| #[trigger] bit(board, t) == pawn_advance_has(square as int, mov, friendlies | enemies, t),
{
    let all_blockers = friendlies | enemies;
    let moves = get_pawn_bitboard(square, mov);
    let blocks = moves & all_blockers;
    if blocks == 0u64 {
        proof {
            lemma_zero_iff_empty(blocks);
            assert forall|t: int| #[trigger] bit(moves, t) == pawn_advance_has(square as int, mov, all_blockers, t) by {
                assert forall|x: int| #[trigger] is_first_pawn_block(square as int, mov, all_blockers, x) implies !(t == x || pawn_board_has(x, mov, t)) by {
                    assert(bit(blocks, x));
                }
            }
        }
        return moves;
    }
    proof {
        lemma_lowest_bit(blocks);
        lemma_highest_bit(blocks);
    }
    let first_block = match mov.is_positive() {
        true => blocks.trailing_zeros() as u8,
        false => 63 - blocks.leading_zeros() as u8,
    };
    proof {
        assert(bit(blocks, first_block as int));
        assert(is_first_pawn_block(square as int, mov, all_blockers, first_block as int)) by {
            assert forall|y: int| #[trigger] pawn_blocked(square as int, mov, all_blockers, y) implies
                if pawn_is_positive(mov) { first_block <= y } else { y <= first_block } by {
                assert(bit(blocks, y));
            }
        }
    }
    let blocked_squares = moves & (get_bit_for_square(first_block) | get_pawn_bitboard(first_block, mov));
    let board = moves ^ blocked_squares;
    proof {
        assert forall|t: int| #[trigger] bit(board, t) == pawn_advance_has(square as int, mov, all_blockers, t) by {
            assert forall|x: int| #[trigger] is_first_pawn_block(square as int, mov, all_blockers, x) implies x == first_block by {
                assert(pawn_blocked(square as int, mov, all_blockers, first_block as int));
            }
        }
    }
    board
}

/// The pawn movements of a color: advancing and attacking.
pub open spec fn pawn_advance_for(color: Color) -> PawnMovement {
    if color == Color::White { PawnMovement::WhiteAdvance } else { PawnMovement::BlackAdvance }
}

pub open spec fn pawn_attack_for(color: Color) -> PawnMovement {
    if color == Color::White { PawnMovement::WhiteAttack } else { PawnMovement::BlackAttack }
}

/// The squares a pawn of `color` on `s` may go to: an attacked square holding an enemy or the
/// en passant target, or an unblocked square ahead.
pub open spec fn pawn_move_has(s: int, friendlies: u64, enemies: u64, color: Color, en_passant_target: u64, t: int) -> bool {
    (pawn_board_has(s, pawn_attack_for(color), t) && (bit(enemies, t) || bit(en_passant_target, t)))
        || pawn_advance_has(s, pawn_advance_for(color), friendlies | enemies, t)
}

fn get_bitboard_for_pawn(square: u8, friendlies: u64, enemies: u64, color: Color, en_passant_target: u64) -> (board: u64)
    requires
        square < 64,
    ensures
        forall|t: int| #[trigger] bit(board, t) == pawn_move_has(square as int, friendlies, enemies, color, en_passant_target, t),
{
    let advance = match color {
        Color::White => PawnMovement::WhiteAdvance,
        Color::Black => PawnMovement::BlackAdvance,
    };
    let attack = match color {
        Color::White => PawnMovement::WhiteAttack,
        Color::Black => PawnMovement::BlackAttack,
    };
    get_bitboard_for_pawn_attacks(square, enemies, attack, en_passant_target) | get_bitboard_for_pawn_advance(square, friendlies, enemies, advance)
}

fn get_bitboard_for_knight(square: u8, friendlies: u64) -> (board: u64)
    requires
        square < 64,
    ensures
        forall|t: int| #[trigger] bit(board, t) == (shift_hits(square as int, knight_shifts(), t) != bit(friendlies, t)),
{
    get_knight_bitboard(square) ^ friendlies
}

fn get_bitboard_for_king(square: u8, friendlies: u64) -> (board: u64)
    requires
        square < 64,
    ensures
        forall|t: int| #[trigger] bit(board, t) == (shift_hits(square as int, king_shifts(), t) != bit(friendlies, t)),
{
    get_king_bitboard(square) ^ friendlies
}

/// Whether a piece sliding in one of the directions `dirs` reaches `t`.
pub open spec fn slides_to(square: int, dirs: Seq<SlideDirection>, friendlies: u64, enemies: u64, t: int) -> bool {
    exists|i: int| 0 <= i < dirs.len() && #[trigger] slide_reaches(square, dirs[i], friendlies, enemies, t)
}

/// The squares that the move bitboard of a piece on `square` sets.
pub open spec fn piece_move_has(square: int, piece: Piece, friendlies: u64, enemies: u64, en_passant_target: u64, t: int) -> bool {
    match piece.piece_type {
        PieceType::Pawn => pawn_move_has(square, friendlies, enemies, piece.color, en_passant_target, t),
        PieceType::Knight => shift_hits(square, knight_shifts(), t) != bit(friendlies, t),
        PieceType::Bishop => slides_to(square, diagonal_dirs(), friendlies, enemies, t),
        PieceType::Rook => slides_to(square, orthagonal_dirs(), friendlies, enemies, t),
        PieceType::Queen => slides_to(square, queen_dirs(), friendlies, enemies, t),
        PieceType::King => shift_hits(square, king_shifts(), t) != bit(friendlies, t),
    }
}

pub fn get_moves_bitboard_for_piece(square: u8, piece: Piece, friendlies: u64, enemies: u64, en_passant_target: u64) -> (board: u64)
    requires
        square < 64,
    ensures
        forall|t: int| #[trigger] bit(board, t) == piece_move_has(square as int, piece, friendlies, enemies, en_passant_target, t),
{
    match piece.piece_type {
        PieceType::Pawn => get_bitboard_for_pawn(square, friendlies, enemies, piece.color, en_passant_target),
        PieceType::Knight => get_bitboard_for_knight(square, friendlies),
        PieceType::Bishop => {
            let dirs = SlideDirection::diagonals();
            get_bitboard_for_slide_directions(square, friendlies, enemies, &dirs)
        },
        PieceType::Rook => {
            let dirs = SlideDirection::orthagonals();
            get_bitboard_for_slide_directions(square, friendlies, enemies, &dirs)
        },
        PieceType::Queen => {
            let dirs = [
                SlideDirection::NorthEast, SlideDirection::SouthEast, SlideDirection::SouthWest, SlideDirection::NorthWest,
                SlideDirection::North, SlideDirection::East, SlideDirection::South, SlideDirection::West,
            ];
            assert(dirs@ =~= queen_dirs());
            get_bitboard_for_slide_directions(square, friendlies, enemies, &dirs)
        },
        PieceType::King => get_bitboard_for_king(square, friendlies),
    }
}


/// A piece standing on a square.
#[derive(Copy, Clone, PartialEq, Eq, Structural)]
pub struct PieceSquare {
    pub square: u8,
    pub piece: Piece,
}

/// The squares below `n` that are set in `b`, from the lowest to the highest.
pub open spec fn squares_below(b: u64, n: int) -> Seq<u8>
    decreases n,
{
    if n <= 0 {
        seq![]
    } else {
        squares_below(b, n - 1) + if bit(b, n - 1) { seq![(n - 1) as u8] } else { seq![] }
    }
}

/// The squares set in a bitboard, from the lowest to the highest.
pub open spec fn squares_of(b: u64) -> Seq<u8> {
    squares_below(b, 64)
}

/// The listed squares are exactly the set ones, each below the bound, in increasing order.
pub proof fn lemma_squares_below(b: u64, n: int)
    requires
        0 <= n <= 64,
    ensures
        forall|i: int, j: int| 0 <= i < j < squares_below(b, n).len() ==> squares_below(b, n)[i] < squares_below(b, n)[j],
        forall|i: int| 0 <= i < squares_below(b, n).len() ==> squares_below(b, n)[i] < n && bit(b, #[trigger] squares_below(b, n)[i] as int),
        forall|s: int| 0 <= s < n ==> (#[trigger] bit(b, s) <==> squares_below(b, n).contains(s as u8)),
    decreases n,
{
    if n > 0 {
        lemma_squares_below(b, n - 1);
        let prev = squares_below(b, n - 1);
        let cur = squares_below(b, n);
        assert forall|s: int| 0 <= s < n implies (#[trigger] bit(b, s) <==> cur.contains(s as u8)) by {
            if bit(b, s) {
                if s < n - 1 {
                    let k = choose|k: int| 0 <= k < prev.len() && prev[k] == s as u8;
                    assert(cur[k] == s as u8);
                } else {
                    assert(cur[cur.len() - 1] == s as u8);
                }
            }
            if cur.contains(s as u8) {
                let k = choose|k: int| 0 <= k < cur.len() && cur[k] == s as u8;
                if k < prev.len() {
                    assert(prev[k] == s as u8);
                }
            }
        }
    }
}

/// The squares set in a bitboard, from the lowest to the highest.
pub fn bitboard_squares(board: u64) -> (squares: Vec<u8>)
    ensures
        squares@ == squares_of(board),
{
    let mut squares: Vec<u8> = Vec::new();
    let mut s: u8 = 0;
    while s < 64
        invariant
            s <= 64,
            squares@ == squares_below(board, s as int),
        decreases 64 - s,
    {
        if (board >> s) & 1u64 == 1u64 {
            squares.push(s);
        }
        assert(squares@ =~= squares_below(board, s + 1));
        s += 1;
    }
    squares
}


/// `x` is the first square set in `occ` along the ray leaving `from` in direction `d`.
pub open spec fn first_on_ray(from: int, d: SlideDirection, occ: u64, x: int) -> bool {
    exists|k: int| 1 <= k && #[trigger] ray_square(from, d, k) == Some(x) && ray_clear_before(from, d, k, occ) && bit(occ, x)
}

/// The first square set in `occ` along a ray, if any.
pub open spec fn ray_first(from: int, d: SlideDirection, occ: u64) -> Option<int> {
    if exists|x: int| first_on_ray(from, d, occ, x) {
        Some(choose|x: int| first_on_ray(from, d, occ, x))
    } else {
        None
    }
}

/// `t` lies on the ray from `from` in direction `d`, strictly before `x`.
pub open spec fn ray_before(from: int, d: SlideDirection, x: int, t: int) -> bool {
    exists|k: int, kx: int| 1 <= k < kx && #[trigger] ray_square(from, d, k) == Some(t) && #[trigger] ray_square(from, d, kx) == Some(x)
}

/// A ray has one first occupied square at most.
pub proof fn lemma_first_on_ray_unique(from: int, d: SlideDirection, occ: u64, x: int, y: int)
    requires
        first_on_ray(from, d, occ, x),
        first_on_ray(from, d, occ, y),
    ensures
        x == y,
{
    let kx = choose|k: int| 1 <= k && #[trigger] ray_square(from, d, k) == Some(x) && ray_clear_before(from, d, k, occ) && bit(occ, x);
    let ky = choose|k: int| 1 <= k && #[trigger] ray_square(from, d, k) == Some(y) && ray_clear_before(from, d, k, occ) && bit(occ, y);
    if kx < ky {
        assert(!bit(occ, ray_square(from, d, kx)->0));
    } else if ky < kx {
        assert(!bit(occ, ray_square(from, d, ky)->0));
    }
}

/// Once the first occupied square `x` of a ray is known, `ray_first` names it.
pub proof fn lemma_ray_first_is(from: int, d: SlideDirection, occ: u64, x: int)
    requires
        first_on_ray(from, d, occ, x),
    ensures
        ray_first(from, d, occ) == Some(x),
{
    let y = choose|x: int| first_on_ray(from, d, occ, x);
    lemma_first_on_ray_unique(from, d, occ, x, y);
}

/// A ray with no occupied square has no first occupied square.
pub proof fn lemma_ray_first_none(from: int, d: SlideDirection, ray: u64, occ: u64)
    requires
        forall|t: int| #[trigger] bit(ray, t) == on_ray(from, d, t),
        ray & occ == 0,
    ensures
        ray_first(from, d, occ) is None,
{
    lemma_zero_iff_empty(ray & occ);
    if exists|x: int| first_on_ray(from, d, occ, x) {
        let x = choose|x: int| first_on_ray(from, d, occ, x);
        assert(on_ray(from, d, x));
        assert(bit(ray & occ, x));
    }
}

/// Finds the first occupied square of a ray, given the ray's bitboard.
pub fn first_blocker(square: u8, dir: SlideDirection, ray: u64, occ: u64) -> (r: Option<u8>)
    requires
        square < 64,
        forall|t: int| #[trigger] bit(ray, t) == on_ray(square as int, dir, t),
    ensures
        match ray_first(square as int, dir, occ) {
            Some(x) => r matches Some(y) && y == x && x < 64,
            None => r is None,
        },
{
    let blocks = ray & occ;
    if blocks == 0 {
        proof { lemma_ray_first_none(square as int, dir, ray, occ); }
        return None;
    }
    proof {
        lemma_lowest_bit(blocks);
        lemma_highest_bit(blocks);
    }
    let fb = if dir.is_positive() { blocks.trailing_zeros() as u8 } else { 63 - blocks.leading_zeros() as u8 };
    proof {
        let kf = lemma_first_block(square as int, dir, ray, occ, fb as int);
        assert(first_on_ray(square as int, dir, occ, fb as int));
        lemma_ray_first_is(square as int, dir, occ, fb as int);
    }
    Some(fb)
}


/// The first occupied square of the ray is one of `attackers`.
pub open spec fn ray_first_hits(from: int, d: SlideDirection, occ: u64, attackers: u64) -> bool {
    match ray_first(from, d, occ) {
        Some(x) => bit(attackers, x),
        None => false,
    }
}

/// Along one of the directions `dirs`, the first occupied square is one of `attackers`.
pub open spec fn slider_attacks(from: int, dirs: Seq<SlideDirection>, occ: u64, attackers: u64) -> bool {
    exists|i: int| 0 <= i < dirs.len() && #[trigger] ray_first_hits(from, dirs[i], occ, attackers)
}

/// Whether, along one of the directions `dirs`, the first occupied square is one of `attackers`.
pub(crate) fn slider_hits(square: u8, dirs: &[SlideDirection], occ: u64, attackers: u64) -> (b: bool)
    requires
        square < 64,
    ensures
        b == slider_attacks(square as int, dirs@, occ, attackers),
{
    let mut i: usize = 0;
    while i < dirs.len()
        invariant
            square < 64,
            i <= dirs@.len(),
            forall|j: int| 0 <= j < i ==> !#[trigger] ray_first_hits(square as int, dirs@[j], occ, attackers),
        decreases dirs@.len() - i,
    {
        let dir = dirs[i];
        let ray = get_ray_bitboard(square, dir);
        match first_blocker(square, dir, ray, occ) {
            None => {},
            Some(potential_attacker) => {
                let pa_bit = get_bit_for_square(potential_attacker);
                proof {
                    lemma_zero_iff_empty(pa_bit & attackers);
                    assert(bit(pa_bit & attackers, potential_attacker as int) == bit(attackers, potential_attacker as int));
                }
                if pa_bit & attackers != 0 {
                    assert(ray_first_hits(square as int, dirs@[i as int], occ, attackers));
                    return true;
                }
            },
        }
        i += 1;
    }
    false
}

/// No direction leads to an attacker when no attacker stands on any of the rays.
pub proof fn lemma_no_attacker_on_rays(from: int, dirs: Seq<SlideDirection>, occ: u64, attackers: u64, board: u64)
    requires
        forall|t: int| #[trigger] bit(board, t) == exists|i: int| 0 <= i < dirs.len() && #[trigger] on_ray(from, dirs[i], t),
        attackers & board == 0,
    ensures
        !slider_attacks(from, dirs, occ, attackers),
{
    lemma_zero_iff_empty(attackers & board);
    if slider_attacks(from, dirs, occ, attackers) {
        let i = choose|i: int| 0 <= i < dirs.len() && #[trigger] ray_first_hits(from, dirs[i], occ, attackers);
        let x = ray_first(from, dirs[i], occ)->0;
        assert(first_on_ray(from, dirs[i], occ, x));
        assert(on_ray(from, dirs[i], x));
        assert(bit(attackers & board, x));
    }
}


/// The bitboard whose squares are those strictly before `x` on the ray, leaving `skip` out.
pub open spec fn path_board(from: int, d: SlideDirection, x: int, skip: int) -> u64 {
    choose|b: u64| #[trigger] is_path_board(b, from, d, x, skip)
}

/// `b` holds exactly the squares strictly before `x` on the ray, leaving `skip` out.
pub open spec fn is_path_board(b: u64, from: int, d: SlideDirection, x: int, skip: int) -> bool {
    forall|t: int| #[trigger] bit(b, t) == (ray_before(from, d, x, t) && t != skip)
}

/// A bitboard with the squares of a path is the path's bitboard.
pub proof fn lemma_path_board_is(from: int, d: SlideDirection, x: int, skip: int, b: u64)
    requires
        forall|t: int| #[trigger] bit(b, t) == (ray_before(from, d, x, t) && t != skip),
    ensures
        path_board(from, d, x, skip) == b,
{
    assert(is_path_board(b, from, d, x, skip));
    let c = path_board(from, d, x, skip);
    assert(is_path_board(c, from, d, x, skip));
    assert forall|t: int| 0 <= t < 64 implies #[trigger] bit(c, t) == bit(b, t) by {}
    lemma_bits_ext(c, b);
}

/// The squares of a ray before `x` are those of the ray that are neither `x` nor beyond it.
pub proof fn lemma_ray_split(from: int, d: SlideDirection, kx: int, x: int)
    requires
        1 <= kx,
        ray_square(from, d, kx) == Some(x),
    ensures
        forall|t: int| #![trigger on_ray(from, d, t)] #![trigger ray_before(from, d, x, t)]
            (on_ray(from, d, t) && t != x && !on_ray(x, d, t)) == ray_before(from, d, x, t),
{
    assert forall|t: int| #![trigger on_ray(from, d, t)] #![trigger ray_before(from, d, x, t)]
        (on_ray(from, d, t) && t != x && !on_ray(x, d, t)) == ray_before(from, d, x, t) by {
        if on_ray(from, d, t) {
            let k = choose|k: int| 1 <= k && #[trigger] ray_square(from, d, k) == Some(t);
            if on_ray(x, d, t) {
                let j = choose|j: int| 1 <= j && #[trigger] ray_square(x, d, j) == Some(t);
                lemma_ray_square_compose(from, d, kx, j);
                lemma_ray_square_unique(from, d, k, kx + j);
            }
            if k < kx {
                assert(ray_before(from, d, x, t));
                if t == x {
                    lemma_ray_square_unique(from, d, kx, k);
                }
            } else if k > kx {
                lemma_ray_square_compose(from, d, kx, k - kx);
                assert(on_ray(x, d, t));
            }
        }
        if ray_before(from, d, x, t) {
            let (k, kx2) = choose|k: int, kx2: int| 1 <= k < kx2 && #[trigger] ray_square(from, d, k) == Some(t) && #[trigger] ray_square(from, d, kx2) == Some(x);
            lemma_ray_square_unique(from, d, kx, kx2);
            assert(on_ray(from, d, t));
            if t == x {
                lemma_ray_square_unique(from, d, kx, k);
            }
            if on_ray(x, d, t) {
                let j = choose|j: int| 1 <= j && #[trigger] ray_square(x, d, j) == Some(t);
                lemma_ray_square_compose(from, d, kx, j);
                lemma_ray_square_unique(from, d, k, kx + j);
            }
        }
    }
}


/// `b` sets exactly the squares of the board that satisfy `f`.
pub open spec fn holds_exactly(b: u64, f: spec_fn(int) -> bool) -> bool {
    forall|t: int| #[trigger] bit(b, t) == (0 <= t < 64 && f(t))
}

/// The bitboard of the squares of the board that satisfy `f`.
pub open spec fn board_where(f: spec_fn(int) -> bool) -> u64 {
    choose|b: u64| #[trigger] holds_exactly(b, f)
}

/// A bitboard that sets exactly the squares satisfying `f` is `board_where(f)`.
pub proof fn lemma_board_where_is(f: spec_fn(int) -> bool, b: u64)
    requires
        holds_exactly(b, f),
    ensures
        board_where(f) == b,
{
    let c = board_where(f);
    assert(holds_exactly(c, f));
    assert forall|t: int| 0 <= t < 64 implies #[trigger] bit(c, t) == bit(b, t) by {}
    lemma_bits_ext(c, b);
}

} // verus!
