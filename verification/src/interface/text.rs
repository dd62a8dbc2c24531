use vstd::prelude::*;

use crate::game::Game;
use crate::interface::arguments::{ArgumentParser, ArgumentParserBuilder, built_from, entry_map, lemma_entry_map, same_argument};
use crate::rules::Color;
use crate::rules::board::Board;
use crate::rules::board::squares::{BoardSquare, square_notation};
use crate::rules::pieces::{Piece, PieceType, piece_type_value};
use crate::rules::pieces::movement::{CastleType, Move};
use crate::util::fen::{u8_text, u8_to_text};

verus! {

// ---------------------------------------------------------------------------
// Describing moves in words
// ---------------------------------------------------------------------------

/// The word for a color.
pub open spec fn color_text(c: Color) -> Seq<char> {
    match c {
        Color::White => "white"@,
        Color::Black => "black"@,
    }
}

/// How a piece type is written in a description: its value, in decimal.
pub open spec fn type_text(t: PieceType) -> Seq<char> {
    u8_text(piece_type_value(t) as u8)
}

/// The word for a side to castle to.
pub open spec fn side_text(c: CastleType) -> Seq<char> {
    match c {
        CastleType::Kingside => "kingside"@,
        CastleType::Queenside => "queenside"@,
    }
}

/// A sentence of the form "`color` `piece` on `start` `movement` `end``additional`".
pub open spec fn elements_text(color: Seq<char>, piece: Seq<char>, start: Seq<char>, movement: Seq<char>, end: Seq<char>,
    additional: Seq<char>) -> Seq<char> {
    color + " "@ + piece + " on "@ + start + " "@ + movement + " "@ + end + additional
}

/// The words for what a move does to the square it ends on.
pub open spec fn movement_text(end_piece: Option<Piece>) -> Seq<char> {
    match end_piece {
        Some(p) => "captures "@ + color_text(p.color) + " "@ + type_text(p.piece_type) + " on"@,
        None => "moves to"@,
    }
}

/// The squares a move's description reads are on the board, and the pieces it names are there.
pub open spec fn describable(b: Board, m: Move) -> bool {
    match m {
        Move::BasicMove(bm) => bm.start < 64 && bm.end < 64 && b.position.occupant(bm.start as int) is Some,
        Move::EnPassant(e) => e.basic_move.start < 64 && e.basic_move.end < 64 && e.capture_square < 64
            && b.position.occupant(e.basic_move.start as int) is Some && b.position.occupant(e.capture_square as int) is Some,
        Move::Promotion(p) => p.basic_move.start < 64 && p.basic_move.end < 64
            && b.position.occupant(p.basic_move.start as int) is Some,
        Move::TwoSquarePawnMove(t) => t.basic_move.start < 64 && t.basic_move.end < 64
            && b.position.occupant(t.basic_move.start as int) is Some,
        Move::Castle(_) => true,
        Move::NewGame(_) => true,
    }
}

/// The description of a move on a board.
pub open spec fn move_text(b: Board, m: Move) -> Seq<char> {
    match m {
        Move::BasicMove(bm) => {
            let p = b.position.occupant(bm.start as int).unwrap();
            elements_text(color_text(p.color), type_text(p.piece_type), square_notation(bm.start as int),
                movement_text(b.position.occupant(bm.end as int)), square_notation(bm.end as int), ""@)
        },
        Move::EnPassant(e) => {
            let p = b.position.occupant(e.basic_move.start as int).unwrap();
            let c = b.position.occupant(e.capture_square as int).unwrap();
            elements_text(color_text(p.color), type_text(p.piece_type), square_notation(e.basic_move.start as int),
                "captures "@ + color_text(c.color) + " "@ + type_text(c.piece_type) + " on "@
                    + square_notation(e.capture_square as int) + " en passant, moving to"@,
                square_notation(e.basic_move.end as int), ""@)
        },
        Move::Promotion(pr) => {
            let p = b.position.occupant(pr.basic_move.start as int).unwrap();
            elements_text(color_text(p.color), type_text(p.piece_type), square_notation(pr.basic_move.start as int),
                movement_text(b.position.occupant(pr.basic_move.end as int)), square_notation(pr.basic_move.end as int),
                " and promotes to a "@ + type_text(pr.promote_to))
        },
        Move::TwoSquarePawnMove(t) => {
            let p = b.position.occupant(t.basic_move.start as int).unwrap();
            elements_text(color_text(p.color), type_text(p.piece_type), square_notation(t.basic_move.start as int),
                "moves to"@, square_notation(t.basic_move.end as int), ""@)
        },
        Move::Castle(c) => color_text(b.state.to_move) + " castles "@ + side_text(c.side),
        Move::NewGame(_) => "new game"@,
    }
}

pub fn format_move_elements(color: &str, piece: &str, start: &str, movement: &str, end: &str, additional: &str) -> (s: String)
    ensures
        s@ == elements_text(color@, piece@, start@, movement@, end@, additional@),
{
    let mut s = String::from_str(color);
    s.append(" ");
    s.append(piece);
    s.append(" on ");
    s.append(start);
    s.append(" ");
    s.append(movement);
    s.append(" ");
    s.append(end);
    s.append(additional);
    proof {
        reveal_strlit(" ");
        reveal_strlit(" on ");
    }
    s
}

fn type_string(t: PieceType) -> (s: String)
    ensures
        s@ == type_text(t),
{
    u8_to_text(t.value())
}

fn square_string(square: u8) -> (s: String)
    requires
        square < 64,
    ensures
        s@ == square_notation(square as int),
{
    BoardSquare::from_value(square).get_notation_string()
}

fn movement_string(end_piece: Option<Piece>) -> (s: String)
    ensures
        s@ == movement_text(end_piece),
{
    match end_piece {
        Some(p) => {
            let mut s = String::from_str("captures ");
            s.append(p.color.value());
            s.append(" ");
            s.append(type_string(p.piece_type).as_str());
            s.append(" on");
            s
        },
        None => String::from_str("moves to"),
    }
}

/// Describes a move of the game in words.
pub fn get_text_for_move(game: &Game, m: &Move) -> (s: String)
    requires
        describable(game.current(), *m),
    ensures
        s@ == move_text(game.current(), *m),
{
    match m {
        Move::BasicMove(b) => {
            let start_piece = game.get_piece_at(b.start).unwrap();
            let movement = movement_string(game.get_piece_at(b.end));
            format_move_elements(
                start_piece.color.value(),
                type_string(start_piece.piece_type).as_str(),
                square_string(b.start).as_str(),
                movement.as_str(),
                square_string(b.end).as_str(),
                "",
            )
        },
        Move::EnPassant(e) => {
            let start_piece = game.get_piece_at(e.basic_move.start).unwrap();
            let end_piece = game.get_piece_at(e.capture_square).unwrap();
            let mut movement = String::from_str("captures ");
            movement.append(end_piece.color.value());
            movement.append(" ");
            movement.append(type_string(end_piece.piece_type).as_str());
            movement.append(" on ");
            movement.append(square_string(e.capture_square).as_str());
            movement.append(" en passant, moving to");
            format_move_elements(
                start_piece.color.value(),
                type_string(start_piece.piece_type).as_str(),
                square_string(e.basic_move.start).as_str(),
                movement.as_str(),
                square_string(e.basic_move.end).as_str(),
                "",
            )
        },
        Move::Promotion(p) => {
            let start_piece = game.get_piece_at(p.basic_move.start).unwrap();
            let movement = movement_string(game.get_piece_at(p.basic_move.end));
            let mut additional = String::from_str(" and promotes to a ");
            additional.append(type_string(p.promote_to).as_str());
            format_move_elements(
                start_piece.color.value(),
                type_string(start_piece.piece_type).as_str(),
                square_string(p.basic_move.start).as_str(),
                movement.as_str(),
                square_string(p.basic_move.end).as_str(),
                additional.as_str(),
            )
        },
        Move::TwoSquarePawnMove(t) => {
            let start_piece = game.get_piece_at(t.basic_move.start).unwrap();
            format_move_elements(
                start_piece.color.value(),
                type_string(start_piece.piece_type).as_str(),
                square_string(t.basic_move.start).as_str(),
                "moves to",
                square_string(t.basic_move.end).as_str(),
                "",
            )
        },
        Move::Castle(c) => {
            let mut s = String::from_str(game.get_current_turn().value());
            s.append(" castles ");
            s.append(c.side.value());
            s
        },
        Move::NewGame(_) => String::from_str("new game"),
    }
}

// ---------------------------------------------------------------------------
// Choosing a move by its squares
// ---------------------------------------------------------------------------

/// The answer to a search for the legal move between two squares.
pub enum MoveChoice {
    /// The move found.
    Found(Move),
    /// No move matches.
    NotFound,
    /// A promotion matches, and the piece to promote to must be chosen first.
    NeedsPromotionChoice,
}

/// Whether a move other than a promotion goes from `start` to `end`.
pub open spec fn plain_match(m: Move, start: u8, end: u8) -> bool {
    match m {
        Move::BasicMove(b) => b.start == start && b.end == end,
        Move::EnPassant(e) => e.basic_move.start == start && e.basic_move.end == end,
        Move::TwoSquarePawnMove(t) => t.basic_move.start == start && t.basic_move.end == end,
        Move::Castle(c) => c.king_start == start && c.king_end == end,
        _ => false,
    }
}

/// The search through the moves from the `i`-th on, the piece to promote to fixed once a
/// promotion from `start` to `end` has been met (`promotion`), and `choice` the answer to give
/// when it is asked for.
pub open spec fn find_from(ms: Seq<Move>, i: int, start: u8, end: u8, promotion: Option<PieceType>,
    choice: Option<PieceType>) -> MoveChoice
    decreases ms.len() - i,
{
    if i < 0 || i >= ms.len() {
        MoveChoice::NotFound
    } else {
        let m = ms[i];
        if plain_match(m, start, end) {
            MoveChoice::Found(m)
        } else {
            match m {
                Move::Promotion(p) => match promotion {
                    None => if p.basic_move.start == start && p.basic_move.end == end {
                        match choice {
                            None => MoveChoice::NeedsPromotionChoice,
                            Some(t) => if t == p.promote_to {
                                MoveChoice::Found(m)
                            } else {
                                find_from(ms, i + 1, start, end, Some(t), choice)
                            },
                        }
                    } else {
                        find_from(ms, i + 1, start, end, None, choice)
                    },
                    Some(t) => if t == p.promote_to {
                        MoveChoice::Found(m)
                    } else {
                        find_from(ms, i + 1, start, end, promotion, choice)
                    },
                },
                _ => find_from(ms, i + 1, start, end, promotion, choice),
            }
        }
    }
}

/// Finds the move from `start` to `end` among `moves`; for a promotion, the piece to promote
/// to is `choice`, and without one the search asks for it.
pub fn find_move(moves: &Vec<Move>, start: u8, end: u8, choice: Option<PieceType>) -> (r: MoveChoice)
    ensures
        r == find_from(moves@, 0, start, end, None, choice),
{
    let mut promotion: Option<PieceType> = None;
    let mut i: usize = 0;
    while i < moves.len()
        invariant
            i <= moves@.len(),
            find_from(moves@, i as int, start, end, promotion, choice) == find_from(moves@, 0, start, end, None, choice),
        decreases moves@.len() - i,
    {
        let m = moves[i];
        match m {
            Move::BasicMove(b) => if b.start == start && b.end == end {
                return MoveChoice::Found(m);
            },
            Move::EnPassant(e) => if e.basic_move.start == start && e.basic_move.end == end {
                return MoveChoice::Found(m);
            },
            Move::TwoSquarePawnMove(t) => if t.basic_move.start == start && t.basic_move.end == end {
                return MoveChoice::Found(m);
            },
            Move::Castle(c) => if c.king_start == start && c.king_end == end {
                return MoveChoice::Found(m);
            },
            Move::Promotion(p) => {
                match promotion {
                    None => {
                        if p.basic_move.start == start && p.basic_move.end == end {
                            match choice {
                                None => {
                                    return MoveChoice::NeedsPromotionChoice;
                                },
                                Some(t) => {
                                    promotion = Some(t);
                                },
                            }
                        }
                        if promotion == Some(p.promote_to) {
                            return MoveChoice::Found(m);
                        }
                    },
                    Some(t) => {
                        if t == p.promote_to {
                            return MoveChoice::Found(m);
                        }
                    },
                }
            },
            Move::NewGame(_) => {},
        }
        i += 1;
    }
    MoveChoice::NotFound
}

// ---------------------------------------------------------------------------
// The commands of the interactive interface
// ---------------------------------------------------------------------------

/// When the entries are named by the first `n` names, in order, of a list of distinct names,
/// the next name is not among them.
proof fn lemma_names_absent(e: Seq<(String, ArgumentParserBuilder)>, names: Seq<Seq<char>>, n: int)
    requires
        0 <= n < names.len(),
        e.len() == n,
        forall|i: int| 0 <= i < n ==> (#[trigger] e[i]).0@ == names[i],
        forall|i: int, j: int| 0 <= i < j < names.len() ==> names[i] != names[j],
    ensures
        !entry_map(e).contains_key(names[n]),
{
    lemma_entry_map(e);
    if entry_map(e).contains_key(names[n]) {
        let i = choose|i: int| 0 <= i < e.len() && (#[trigger] e[i]).0@ == names[n];
        assert(names[i] != names[n]);
    }
}

/// The parser of the interface's commands: `new` with a required `depth`, `list` with a
/// required `type`, `suggest` with an optional `count`, and `move` and `size` with nothing.
pub fn build_argument_parser() -> (p: ArgumentParser)
    ensures
        p.wf(),
        p.sub_commands@.len() == 5,
        p.sub_commands@[0].0@ == "new"@,
        p.sub_commands@[1].0@ == "list"@,
        p.sub_commands@[2].0@ == "suggest"@,
        p.sub_commands@[3].0@ == "move"@,
        p.sub_commands@[4].0@ == "size"@,
        p.sub_commands@[0].1.positional@.len() == 1,
        p.sub_commands@[0].1.positional@[0].name@ == "depth"@,
        p.sub_commands@[0].1.positional@[0].is_required,
        p.sub_commands@[1].1.positional@.len() == 1,
        p.sub_commands@[1].1.positional@[0].name@ == "type"@,
        p.sub_commands@[1].1.positional@[0].is_required,
        p.sub_commands@[2].1.positional@.len() == 1,
        p.sub_commands@[2].1.positional@[0].name@ == "count"@,
        !p.sub_commands@[2].1.positional@[0].is_required,
        p.sub_commands@[3].1.positional@.len() == 0,
        p.sub_commands@[4].1.positional@.len() == 0,
        p.positional@.len() == 0,
        p.named@.len() == 0,
{
    let mut builder = ArgumentParser::builder();
    let mut new_command = ArgumentParser::builder();
    let _ = new_command.add_positional_arg("depth", true, false);
    let mut list_command = ArgumentParser::builder();
    let _ = list_command.add_positional_arg("type", true, false);
    let mut suggest_command = ArgumentParser::builder();
    let _ = suggest_command.add_positional_arg("count", false, false);
    let move_command = ArgumentParser::builder();
    let size_command = ArgumentParser::builder();
    proof {
        reveal_strlit("new");
        reveal_strlit("list");
        reveal_strlit("suggest");
        reveal_strlit("move");
        reveal_strlit("size");
    }
    let ghost names: Seq<Seq<char>> = seq!["new"@, "list"@, "suggest"@, "move"@, "size"@];
    assert forall|i: int, j: int| 0 <= i < j < names.len() implies names[i] != names[j] by {
        assert(names[i].len() != names[j].len() || names[i][0] != names[j][0]);
    }
    let _ = builder.add_subcommand("new", new_command);
    proof { lemma_names_absent(builder.sub_commands@, names, 1); }
    let _ = builder.add_subcommand("list", list_command);
    proof { lemma_names_absent(builder.sub_commands@, names, 2); }
    let _ = builder.add_subcommand("suggest", suggest_command);
    proof { lemma_names_absent(builder.sub_commands@, names, 3); }
    let _ = builder.add_subcommand("move", move_command);
    proof { lemma_names_absent(builder.sub_commands@, names, 4); }
    let _ = builder.add_subcommand("size", size_command);
    let p = builder.build();
    proof {
        assert(builder.sub_commands@[0].1.positional@.len() == 1);
        assert(builder.sub_commands@[1].1.positional@.len() == 1);
        assert(builder.sub_commands@[2].1.positional@.len() == 1);
        assert(builder.sub_commands@[3].1.positional@.len() == 0);
        assert(builder.sub_commands@[4].1.positional@.len() == 0);
        assert(built_from(p.sub_commands@[0].1, builder.sub_commands@[0].1));
        assert(built_from(p.sub_commands@[1].1, builder.sub_commands@[1].1));
        assert(built_from(p.sub_commands@[2].1, builder.sub_commands@[2].1));
        assert(built_from(p.sub_commands@[3].1, builder.sub_commands@[3].1));
        assert(built_from(p.sub_commands@[4].1, builder.sub_commands@[4].1));
        assert(same_argument(p.sub_commands@[0].1.positional@[0], builder.sub_commands@[0].1.positional@[0]));
        assert(same_argument(p.sub_commands@[1].1.positional@[0], builder.sub_commands@[1].1.positional@[0]));
        assert(same_argument(p.sub_commands@[2].1.positional@[0], builder.sub_commands@[2].1.positional@[0]));
    }
    p
}

} // verus!
