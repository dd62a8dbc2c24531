use vstd::prelude::*;

use crate::rules::Color;

verus! {

/// The score that stands for the best a color can hope for: the highest for white, the lowest
/// for black.
pub open spec fn best_score_of(color: Color) -> i16 {
    match color {
        Color::White => i16::MAX,
        Color::Black => i16::MIN,
    }
}

/// Whether `new` is better than `old` for `color`: higher for white, lower for black.
pub open spec fn better(new: int, old: int, color: Color) -> bool {
    match color {
        Color::White => new > old,
        Color::Black => new < old,
    }
}

pub fn best_score(color: Color) -> (s: i16)
    ensures
        s == best_score_of(color),
{
    match color {
        Color::White => i16::MAX,
        Color::Black => i16::MIN,
    }
}

pub fn is_better(new: i16, old: i16, color: Color) -> (b: bool)
    ensures
        b == better(new as int, old as int, color),
{
    match color {
        Color::White => new > old,
        Color::Black => new < old,
    }
}

/// Being better is a strict order for each color: no score is better than itself, and it
/// carries over; for each two different scores one of them is better; and nothing is better
/// for a color than its best score.
pub proof fn lemma_better_is_strict_order(a: i16, b: i16, c: i16, color: Color)
    ensures
        !better(a as int, a as int, color),
        better(a as int, b as int, color) && better(b as int, c as int, color) ==> better(a as int, c as int, color),
        a != b ==> (better(a as int, b as int, color) || better(b as int, a as int, color)),
        !better(a as int, best_score_of(color) as int, color),
{
}

} // verus!
