use vstd::prelude::*;
use std::collections::HashMap;

use crate::engine::{Engine, SearchResult, search_ok, search_order, root_search};
use crate::rules::Color;
use crate::rules::board::{Board, board_of_fen_state, move_fits_state};
use crate::rules::board::positions::BoardPosition;
use crate::rules::pieces::Piece;
use crate::rules::pieces::movement::Move;
use crate::util::fen::{FenBoardState, STARTING_POSITION, is_fen, lemma_starting_position_is_fen};

verus! {

broadcast use vstd::std_specs::hash::group_hash_axioms;

/// A move played, with the board it was played on.
#[derive(Copy, Clone)]
pub struct Turn {
    pub board: Board,
    pub move_played: Move,
}

impl Board {
    /// Whether two boards are the same position for the rules of repetition: the same pieces on
    /// the same squares, the same side to move, the same castling rights and en passant target.
    pub open spec fn same_position(self, other: Board) -> bool {
        &&& self.position == other.position
        &&& self.state.to_move == other.state.to_move
        &&& self.state.castle_rights == other.state.castle_rights
        &&& self.state.en_passant_target == other.state.en_passant_target
    }

    pub fn repeats(&self, other: &Board) -> (b: bool)
        ensures
            b == self.same_position(*other),
    {
        self.position == other.position && self.state.to_move == other.state.to_move
            && self.state.castle_rights == other.state.castle_rights
            && self.state.en_passant_target == other.state.en_passant_target
    }
}

/// How many of the boards from the `i`-th on are the same position as the `i`-th.
pub open spec fn repeats_from(boards: Seq<Board>, i: int, j: int) -> nat
    decreases boards.len() - j,
{
    if j < i || j >= boards.len() || i < 0 {
        0
    } else {
        (if boards[j].same_position(boards[i]) { 1nat } else { 0nat }) + repeats_from(boards, i, j + 1)
    }
}

/// The largest count, each taken as a byte, of the boards from some board on that are the same
/// position as it, over the boards before the `n`-th.
pub open spec fn most_repeats(boards: Seq<Board>, n: int) -> u8
    decreases n,
{
    if n <= 0 || n > boards.len() {
        0
    } else {
        let c = repeats_from(boards, n - 1, n - 1) as u8;
        let m = most_repeats(boards, n - 1);
        if c > m { c } else { m }
    }
}

/// A history as plain values: the current board, the turns taken, and the boards recorded
/// under each hash.
pub struct HistoryView {
    pub current: Board,
    pub turns: Seq<Turn>,
    pub recorded: Map<u64, Seq<Board>>,
}

/// The boards recorded under a hash, none when it is not recorded.
pub open spec fn boards_for(v: HistoryView, hash: u64) -> Seq<Board> {
    if v.recorded.contains_key(hash) { v.recorded[hash] } else { seq![] }
}

/// A history after a turn with the move `m`: the move is made, the turn is kept, and the board
/// it was played on is recorded under its hash.
pub open spec fn take_view(v: HistoryView, m: Move) -> HistoryView {
    HistoryView {
        current: v.current.after_move(m),
        turns: v.turns.push(Turn { board: v.current, move_played: m }),
        recorded: v.recorded.insert(v.current.zobrist@, boards_for(v, v.current.zobrist@).push(v.current)),
    }
}

/// A history after its last turn is untaken: the turn is dropped and the last board recorded
/// under its board's hash is forgotten; the current board stays.
pub open spec fn untake_view(v: HistoryView) -> HistoryView {
    let h = v.turns.last().board.zobrist@;
    let b = v.recorded[h];
    HistoryView {
        current: v.current,
        turns: v.turns.drop_last(),
        recorded: v.recorded.insert(h, if b.len() > 0 { b.drop_last() } else { b }),
    }
}

/// Untaking a turn just taken gives back the turns taken and the boards recorded under every
/// hash; the current board stays the one the turn led to.
pub proof fn lemma_untake_undoes_take(v: HistoryView, m: Move)
    ensures
        untake_view(take_view(v, m)).turns == v.turns,
        forall|h: u64| #[trigger] boards_for(untake_view(take_view(v, m)), h) == boards_for(v, h),
        untake_view(take_view(v, m)).current == v.current.after_move(m),
{
    let t = take_view(v, m);
    assert(t.turns.last() == Turn { board: v.current, move_played: m });
    assert(t.turns.drop_last() =~= v.turns);
    let h0 = v.current.zobrist@;
    assert(t.recorded[h0].drop_last() =~= boards_for(v, h0));
}

/// The boards played on, and the boards recorded by their hash.
pub struct GameHistory {
    current_board: Board,
    turn_history: Vec<Turn>,
    repetitions: HashMap<u64, Vec<Board>>,
}

impl GameHistory {
    /// The board after the last turn taken.
    pub closed spec fn current(self) -> Board {
        self.current_board
    }

    /// The turns taken.
    pub closed spec fn turns(self) -> Seq<Turn> {
        self.turn_history@
    }

    /// The boards recorded for each hash, in the order they were recorded.
    pub closed spec fn recorded(self) -> Map<u64, Seq<Board>> {
        self.repetitions@.map_values(|v: Vec<Board>| v@)
    }

    /// The history as plain values.
    pub closed spec fn history(self) -> HistoryView {
        HistoryView { current: self.current_board, turns: self.turn_history@, recorded: self.recorded() }
    }

    /// The hash of the board of every turn is recorded.
    pub closed spec fn wf(self) -> bool {
        forall|i: int| 0 <= i < self.turn_history@.len() ==> self.repetitions@.contains_key(#[trigger] self.turn_history@[i].board.zobrist@)
    }

    /// The boards recorded for a hash, none when it is not recorded.
    pub open spec fn recorded_for(self, hash: u64) -> Seq<Board> {
        if self.recorded().contains_key(hash) { self.recorded()[hash] } else { seq![] }
    }

    pub fn new(board: Board) -> (h: Self)
        ensures
            h.wf(),
            h.current() == board,
            h.turns() == Seq::<Turn>::empty(),
            h.recorded() == Map::<u64, Seq<Board>>::empty(),
    {
        let h = GameHistory { current_board: board, turn_history: Vec::new(), repetitions: HashMap::new() };
        assert(h.recorded() =~= Map::<u64, Seq<Board>>::empty());
        h
    }

    pub fn take_turn(&mut self, mov: &Move)
        requires
            old(self).wf(),
            move_fits_state(old(self).current().state, *mov),
        ensures
            final(self).wf(),
            final(self).current() == old(self).current().after_move(*mov),
            final(self).turns() == old(self).turns().push(Turn { board: old(self).current(), move_played: *mov }),
            final(self).recorded() == old(self).recorded().insert(old(self).current().zobrist@,
                old(self).recorded_for(old(self).current().zobrist@).push(old(self).current())),
            final(self).history() == take_view(old(self).history(), *mov),
    {
        let turn = Turn { board: self.current_board, move_played: *mov };
        self.add_repetition(turn.board.zobrist.get_id(), turn.board);
        self.turn_history.push(turn);
        self.current_board.make_move(mov);
    }

    pub fn untake_turn(&mut self)
        requires
            old(self).wf(),
            old(self).turns().len() > 0,
        ensures
            final(self).wf(),
            final(self).current() == old(self).current(),
            final(self).turns() == old(self).turns().drop_last(),
            ({
                let h = old(self).turns().last().board.zobrist@;
                let v = old(self).recorded()[h];
                final(self).recorded() == old(self).recorded().insert(h, if v.len() > 0 { v.drop_last() } else { v })
            }),
            final(self).history() == untake_view(old(self).history()),
    {
        let last_turn = self.turn_history.pop().unwrap();
        let hash = last_turn.board.zobrist.get_id();
        assert(old(self).repetitions@.contains_key(old(self).turn_history@[old(self).turn_history@.len() - 1].board.zobrist@));
        let mut boards = self.repetitions.remove(&hash).unwrap();
        boards.pop();
        self.repetitions.insert(hash, boards);
        proof {
            assert(self.recorded() =~= old(self).recorded().insert(hash, if old(self).recorded()[hash].len() > 0 { old(self).recorded()[hash].drop_last() } else { old(self).recorded()[hash] }));
            assert forall|i: int| 0 <= i < self.turn_history@.len() implies self.repetitions@.contains_key(#[trigger] self.turn_history@[i].board.zobrist@) by {
                assert(self.turn_history@[i] == old(self).turn_history@[i]);
            }
        }
    }

    fn add_repetition(&mut self, hash: u64, board: Board)
        requires
            old(self).wf(),
        ensures
            final(self).wf(),
            final(self).repetitions@.contains_key(hash),
            final(self).current_board == old(self).current_board,
            final(self).turn_history == old(self).turn_history,
            final(self).recorded() == old(self).recorded().insert(hash, old(self).recorded_for(hash).push(board)),
    {
        match self.repetitions.remove(&hash) {
            Some(mut boards) => {
                assert(old(self).recorded()[hash] == boards@);
                boards.push(board);
                self.repetitions.insert(hash, boards);
                assert(self.recorded() =~= old(self).recorded().insert(hash, old(self).recorded_for(hash).push(board)));
            },
            None => {
                let v = vec![board];
                assert(v@ =~= Seq::<Board>::empty().push(board));
                self.repetitions.insert(hash, v);
                assert(self.recorded() =~= old(self).recorded().insert(hash, old(self).recorded_for(hash).push(board)));
            },
        }
        proof {
            assert forall|i: int| 0 <= i < self.turn_history@.len() implies self.repetitions@.contains_key(#[trigger] self.turn_history@[i].board.zobrist@) by {
                assert(old(self).repetitions@.contains_key(old(self).turn_history@[i].board.zobrist@));
            }
        }
    }

    fn count_fuzzy_repetitions(&self, hash: u64) -> (n: u8)
        ensures
            n == self.recorded_for(hash).len() as u8,
    {
        match self.repetitions.get(&hash) {
            Some(boards) => boards.len() as u8,
            None => 0,
        }
    }

    fn count_exact_repetitions(&self, hash: u64) -> (n: u8)
        ensures
            n == most_repeats(self.recorded_for(hash), self.recorded_for(hash).len() as int),
    {
        let boards = match self.repetitions.get(&hash) {
            Some(b) => b,
            None => return 0u8,
        };
        let ghost bs = boards@;
        let mut max: u8 = 0;
        let mut i: usize = 0;
        while i < boards.len()
            invariant
                bs == boards@,
                i <= bs.len(),
                max == most_repeats(bs, i as int),
            decreases bs.len() - i,
        {
            let mut count: usize = 0;
            let mut j: usize = boards.len();
            while j > i
                invariant
                    bs == boards@,
                    i < bs.len(),
                    i <= j <= bs.len(),
                    count == repeats_from(bs, i as int, j as int),
                    count <= bs.len() - j,
                    bs.len() == boards.len(),
                decreases j,
            {
                j -= 1;
                if boards[j].repeats(&boards[i]) {
                    count += 1;
                }
            }
            let c = count as u8;
            if c > max {
                max = c;
            }
            i += 1;
        }
        max
    }

    fn repeats_x_or_more(&self, hash: u64, x: u8) -> (b: bool)
        ensures
            b == (self.recorded_for(hash).len() as u8 >= x
                && most_repeats(self.recorded_for(hash), self.recorded_for(hash).len() as int) >= x),
    {
        if self.count_fuzzy_repetitions(hash) >= x {
            self.count_exact_repetitions(hash) >= x
        } else {
            false
        }
    }

    pub fn has_threefold_repetition(&self, hash: u64) -> (b: bool)
        ensures
            b == (self.recorded_for(hash).len() as u8 >= 3
                && most_repeats(self.recorded_for(hash), self.recorded_for(hash).len() as int) >= 3),
    {
        self.repeats_x_or_more(hash, 3)
    }

    pub fn has_fivefold_repetition(&self, hash: u64) -> (b: bool)
        ensures
            b == (self.recorded_for(hash).len() as u8 >= 5
                && most_repeats(self.recorded_for(hash), self.recorded_for(hash).len() as int) >= 5),
    {
        self.repeats_x_or_more(hash, 5)
    }
}

/// A game: the board, and the history of the turns taken.
pub struct Game {
    board: Board,
    history: GameHistory,
}

impl Game {
    /// The board of the game.
    pub closed spec fn current(self) -> Board {
        self.board
    }

    /// The history of the game.
    pub closed spec fn past(self) -> GameHistory {
        self.history
    }

    /// The history is well formed.
    pub closed spec fn wf(self) -> bool {
        self.history.wf()
    }

    pub fn new() -> (g: Self)
        ensures
            g.wf(),
            exists|st: FenBoardState| st.read_from(STARTING_POSITION@) && g.current() == board_of_fen_state(st),
            g.past().current() == g.current(),
            g.past().turns() == Seq::<Turn>::empty(),
    {
        Self::from_board(Board::from_starting_position())
    }

    pub fn from_fen(fen: &str) -> (g: Self)
        requires
            is_fen(fen@),
        ensures
            g.wf(),
            exists|st: FenBoardState| st.read_from(fen@) && g.current() == board_of_fen_state(st),
            g.past().current() == g.current(),
            g.past().turns() == Seq::<Turn>::empty(),
    {
        Self::from_board(Board::from_fen(fen))
    }

    fn from_board(board: Board) -> (g: Self)
        ensures
            g.wf(),
            g.current() == board,
            g.past().current() == board,
            g.past().turns() == Seq::<Turn>::empty(),
    {
        Game { board: board, history: GameHistory::new(board) }
    }

    pub fn search(&mut self, depth: u8) -> (r: SearchResult)
        requires
            old(self).current().can_generate_moves(),
            depth >= 1 || old(self).current().legal_moves().len() == 0,
            search_ok(old(self).current(), depth as nat),
        ensures
            *final(self) == *old(self),
            r.color == old(self).current().state.to_move,
            (r.best_move_score, r.best_move, r.calculated_nodes, r.cache_hits) == root_search(old(self).current(),
                search_order(old(self).current().legal_moves()), depth as nat, search_order(old(self).current().legal_moves()).len() as int),
    {
        Engine::do_search(self.board, depth)
    }

    pub fn threaded_search(&mut self, depth: u8, _threads: u8) -> (r: SearchResult)
        requires
            old(self).current().can_generate_moves(),
            depth >= 1 || old(self).current().legal_moves().len() == 0,
            search_ok(old(self).current(), depth as nat),
        ensures
            *final(self) == *old(self),
            r.color == old(self).current().state.to_move,
            (r.best_move_score, r.best_move, r.calculated_nodes, r.cache_hits) == root_search(old(self).current(),
                search_order(old(self).current().legal_moves()), depth as nat, search_order(old(self).current().legal_moves()).len() as int),
    {
        Engine::do_search(self.board, depth)
    }

    pub fn make_move(&mut self, new_move: &Move)
        requires
            old(self).wf(),
            move_fits_state(old(self).current().state, *new_move),
            move_fits_state(old(self).past().current().state, *new_move),
        ensures
            final(self).wf(),
            final(self).current() == old(self).current().after_move(*new_move),
            final(self).current().state.to_move == old(self).current().state.to_move.opponent(),
            crate::rules::board::fen_of(final(self).current()) == crate::rules::board::fen_of(old(self).current().after_move(*new_move)),
            final(self).current().legal_moves() == old(self).current().after_move(*new_move).legal_moves(),
            final(self).past().current() == old(self).past().current().after_move(*new_move),
            final(self).past().turns() == old(self).past().turns().push(Turn { board: old(self).past().current(), move_played: *new_move }),
    {
        self.board.make_move(new_move);
        self.history.take_turn(new_move);
    }

    pub fn get_legal_moves(&self) -> (moves: Vec<Move>)
        requires
            self.current().can_generate_moves(),
        ensures
            moves@ == self.current().legal_moves(),
    {
        self.board.get_legal_moves()
    }

    pub fn get_piece_at(&self, square: u8) -> (p: Option<Piece>)
        requires
            square < 64,
        ensures
            p == self.current().position.occupant(square as int),
    {
        self.board.position.piece_at(&square)
    }

    pub fn get_current_turn(&self) -> (c: Color)
        ensures
            c == self.current().state.to_move,
    {
        self.board.state.get_move_color()
    }

    pub fn get_board(&self) -> (b: &Board)
        ensures
            *b == self.current(),
    {
        &self.board
    }

    pub fn serialize_board(&self) -> (s: String)
        ensures
            exists|st: FenBoardState| crate::rules::board::fen_state_of_board(st, self.current()) && s@ == st.text(),
            s@ == crate::rules::board::fen_of(self.current()),
    {
        self.board.to_fen()
    }
}

} // verus!
