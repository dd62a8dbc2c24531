pub mod evaluation;
pub mod scores;
pub mod search;

use vstd::prelude::*;
use std::collections::HashMap;
use std::time::{Duration, Instant};

use crate::rules::Color;
use crate::rules::board::Board;
use crate::rules::pieces::movement::{Move, NewGame, move_relative_capture_value, move_movements};
use crate::rules::board::move_fits_state;
use self::scores::{best_score, is_better, best_score_of, better};
use self::evaluation::{evaluate_board, evaluation, evaluation_ok};
use self::search::alpha_beta::{bounded, cap, clean_tree, kids_hashes, lemma_from_grows, lemma_from_start, lemma_kid_facts,
    lemma_kids_grow, lemma_tried_in_search_order, minimax, minimax_from, pick, tree_hashes, tried_moves};

verus! {

broadcast use vstd::std_specs::hash::group_hash_axioms;

// ---------------------------------------------------------------------------
// Time
// ---------------------------------------------------------------------------

/// `std::time::Instant`, a point in time; opaque here.
#[verifier::external_type_specification]
#[verifier::external_body]
pub struct ExInstant(Instant);

/// The current time (`Instant::now`); nothing is claimed of it.
#[verifier::external_body]
pub(crate) fn now() -> Instant {
    Instant::now()
}

/// The time passed since `start` (`Instant::elapsed`); nothing is claimed of it.
#[verifier::external_body]
pub(crate) fn elapsed_since(start: &Instant) -> Duration {
    start.elapsed()
}

/// A duration of zero (`Duration::default`); nothing is claimed of the opaque value.
#[verifier::external_body]
fn zero_duration() -> Duration {
    Duration::default()
}

// ---------------------------------------------------------------------------
// Ordering moves
// ---------------------------------------------------------------------------

/// The key by which moves are ordered: a capture by the value of the capturing piece less that
/// of the taken one, every capture above every move that takes nothing.
pub open spec fn capture_key(m: Move) -> int {
    match move_relative_capture_value(m) {
        Some(v) => v,
        None => -1000,
    }
}

/// A sorted list with `m` put after the last entry whose key is not above its own.
pub open spec fn insert_by_key(sorted: Seq<Move>, m: Move) -> Seq<Move>
    decreases sorted.len(),
{
    if sorted.len() == 0 {
        seq![m]
    } else if capture_key(sorted.last()) <= capture_key(m) {
        sorted.push(m)
    } else {
        insert_by_key(sorted.drop_last(), m).push(sorted.last())
    }
}

/// The moves sorted by key, moves with equal keys in the order given (a stable sort).
pub open spec fn sorted_by_key(ms: Seq<Move>) -> Seq<Move>
    decreases ms.len(),
{
    if ms.len() == 0 {
        seq![]
    } else {
        insert_by_key(sorted_by_key(ms.drop_last()), ms.last())
    }
}

/// The order in which moves are searched: sorted by key, then taken from the highest key down.
pub open spec fn search_order(ms: Seq<Move>) -> Seq<Move> {
    sorted_by_key(ms).reverse()
}

fn move_key(m: &Move) -> (k: i32)
    ensures
        k == capture_key(*m),
{
    match m.relative_capture_value() {
        Some(v) => v as i32,
        None => -1000,
    }
}

proof fn lemma_insert_at(s: Seq<Move>, m: Move, j: int)
    requires
        0 <= j <= s.len(),
        forall|k: int| j <= k < s.len() ==> capture_key(#[trigger] s[k]) > capture_key(m),
        j > 0 ==> capture_key(s[j - 1]) <= capture_key(m),
    ensures
        insert_by_key(s, m) == s.insert(j, m),
    decreases s.len(),
{
    if s.len() == 0 {
        assert(s.insert(j, m) =~= seq![m]);
    } else if j == s.len() {
        assert(s.insert(j, m) =~= s.push(m));
    } else {
        lemma_insert_at(s.drop_last(), m, j);
        assert(s.drop_last().insert(j, m).push(s.last()) =~= s.insert(j, m));
    }
}

/// Puts a move into a list sorted by key, after the moves whose key is not above its own.
fn insert_move(sorted: &mut Vec<Move>, m: Move)
    ensures
        final(sorted)@ == insert_by_key(old(sorted)@, m),
{
    let key = move_key(&m);
    let mut j = sorted.len();
    while j > 0 && move_key(&sorted[j - 1]) > key
        invariant
            j <= sorted@.len(),
            key == capture_key(m),
            forall|k: int| j <= k < sorted@.len() ==> capture_key(#[trigger] sorted@[k]) > capture_key(m),
        decreases j,
    {
        j -= 1;
    }
    proof { lemma_insert_at(sorted@, m, j as int); }
    sorted.insert(j, m);
}

/// The moves in the order in which they are searched.
pub fn order_moves(moves: Vec<Move>) -> (ordered: Vec<Move>)
    ensures
        ordered@ == search_order(moves@),
{
    let mut sorted: Vec<Move> = Vec::new();
    let mut i: usize = 0;
    while i < moves.len()
        invariant
            i <= moves@.len(),
            sorted@ == sorted_by_key(moves@.take(i as int)),
        decreases moves@.len() - i,
    {
        assert(moves@.take(i + 1).drop_last() =~= moves@.take(i as int));
        assert(moves@.take(i + 1).last() == moves@[i as int]);
        insert_move(&mut sorted, moves[i]);
        i += 1;
    }
    assert(moves@.take(moves@.len() as int) =~= moves@);
    let mut ordered: Vec<Move> = Vec::new();
    let mut k: usize = sorted.len();
    while k > 0
        invariant
            k <= sorted@.len(),
            ordered@.len() == sorted@.len() - k,
            forall|x: int| 0 <= x < ordered@.len() ==> #[trigger] ordered@[x] == sorted@[sorted@.len() - 1 - x],
        decreases k,
    {
        k -= 1;
        ordered.push(sorted[k]);
    }
    assert(ordered@ =~= sorted@.reverse());
    ordered
}

// ---------------------------------------------------------------------------
// Results
// ---------------------------------------------------------------------------

/// The best move found by a search for one color, with its score and what the search cost.
pub struct SearchResult {
    pub color: Color,
    pub best_move: Move,
    pub best_move_score: i16,
    pub calculated_nodes: u32,
    pub cache_hits: u32,
    pub start_time: Option<Instant>,
    pub search_time: Duration,
}

impl SearchResult {
    pub fn from_color(color: Color) -> (r: Self)
        ensures
            r.color == color,
            r.best_move == Move::NewGame(NewGame {}),
            r.best_move_score == best_score_of(color.opponent()),
            r.calculated_nodes == 0,
            r.cache_hits == 0,
            r.start_time is None,
    {
        SearchResult {
            color: color,
            best_move: Move::NewGame(NewGame {}),
            best_move_score: best_score(color.swap()),
            calculated_nodes: 0,
            cache_hits: 0,
            start_time: None,
            search_time: zero_duration(),
        }
    }

    pub fn start(&mut self)
        ensures
            final(self).color == old(self).color,
            final(self).best_move == old(self).best_move,
            final(self).best_move_score == old(self).best_move_score,
            final(self).calculated_nodes == old(self).calculated_nodes,
            final(self).cache_hits == old(self).cache_hits,
            final(self).start_time is Some,
    {
        self.start_time = Some(now());
    }

    pub fn complete(&mut self)
        ensures
            final(self).color == old(self).color,
            final(self).best_move == old(self).best_move,
            final(self).best_move_score == old(self).best_move_score,
            final(self).calculated_nodes == old(self).calculated_nodes,
            final(self).cache_hits == old(self).cache_hits,
            final(self).start_time == old(self).start_time,
            old(self).start_time is None ==> final(self).search_time == old(self).search_time,
    {
        if let Some(start) = &self.start_time {
            self.search_time = elapsed_since(start);
        }
    }

    pub fn process_move(&mut self, new_move: Move, score: i16)
        ensures
            final(self).color == old(self).color,
            final(self).calculated_nodes == old(self).calculated_nodes,
            final(self).cache_hits == old(self).cache_hits,
            final(self).start_time == old(self).start_time,
            better(score as int, old(self).best_move_score as int, old(self).color) ==> final(self).best_move_score == score
                && final(self).best_move == new_move,
            !better(score as int, old(self).best_move_score as int, old(self).color) ==> final(self).best_move_score
                == old(self).best_move_score && final(self).best_move == old(self).best_move,
    {
        if is_better(score, self.best_move_score, self.color) {
            self.best_move_score = score;
            self.best_move = new_move;
        }
    }

    pub fn get_score(&self) -> (s: i16)
        ensures
            s == self.best_move_score,
    {
        self.best_move_score
    }

    pub fn get_move(&self) -> (m: &Move)
        ensures
            *m == self.best_move,
    {
        &self.best_move
    }
}

// ---------------------------------------------------------------------------
// Searching
// ---------------------------------------------------------------------------

/// The board searched, with what the search has cost so far.
pub struct SearchContext {
    pub board: Board,
    pub calculated_nodes: u32,
    pub cache_hits: u32,
}

/// The better of two scores for `color`, the old one when neither is better.
pub open spec fn best_of(new: i16, old: i16, color: Color) -> i16 {
    if better(new as int, old as int, color) { new } else { old }
}

impl SearchContext {
    pub fn get_best(&self, new: i16, old: i16) -> (b: i16)
        ensures
            b == best_of(new, old, self.board.state.to_move),
    {
        match self.board.state.get_move_color() {
            Color::White => if new > old { new } else { old },
            Color::Black => if new < old { new } else { old },
        }
    }

    pub fn is_better(&self, new: i16, old: i16) -> (b: bool)
        ensures
            b == better(new as int, old as int, self.board.state.to_move),
    {
        match self.board.state.get_move_color() {
            Color::White => new > old,
            Color::Black => new < old,
        }
    }
}

/// What the search of a board gives, with the table of known scores and the counts of
/// evaluated boards and of scores found in the table threaded through: the evaluation at
/// depth zero, otherwise the search of its moves in search order.
pub open spec fn search_node(b: Board, best: i16, opp: i16, depth: nat, table: Map<u64, i16>, nodes: u32, hits: u32)
    -> (i16, Map<u64, i16>, u32, u32)
    decreases depth, 1int, 0int,
{
    if depth == 0 {
        (evaluation(b) as i16, table, nodes.wrapping_add(1), hits)
    } else {
        search_moves(b, search_order(b.legal_moves()), 0, best, opp, depth, table, nodes, hits)
    }
}

/// The search of the moves from the `i`-th on: each move's score is the one in the table for
/// the board it leads to, or else that board's search with the two bounds swapped, which is
/// then recorded; a score better than the opponent's bound ends the search with that bound,
/// otherwise the best score so far is kept.
pub open spec fn search_moves(b: Board, ms: Seq<Move>, i: int, best: i16, opp: i16, depth: nat, table: Map<u64, i16>,
    nodes: u32, hits: u32) -> (i16, Map<u64, i16>, u32, u32)
    decreases depth, 0int, ms.len() - i,
{
    if i < 0 || i >= ms.len() || depth == 0 {
        (best, table, nodes, hits)
    } else {
        let child = b.after_move(ms[i]);
        let id = child.zobrist@;
        let step = if table.contains_key(id) {
            (table[id], table, nodes, hits.wrapping_add(1))
        } else {
            let r = search_node(child, opp, best, (depth - 1) as nat, table, nodes, hits);
            (r.0, r.1.insert(id, r.0), r.2, r.3)
        };
        if better(step.0 as int, opp as int, b.state.to_move) {
            (opp, step.1, step.2, step.3)
        } else {
            search_moves(b, ms, i + 1, best_of(step.0, best, b.state.to_move), opp, depth, step.1, step.2, step.3)
        }
    }
}

/// The boards on which a search to `depth` runs to its end: at depth zero the board can be
/// evaluated; otherwise its moves can be generated and made, and each board they lead to can
/// be searched one level less deep.
pub open spec fn search_ok(b: Board, depth: nat) -> bool
    decreases depth,
{
    if depth == 0 {
        evaluation_ok(b)
    } else {
        &&& b.can_generate_moves()
        &&& forall|i: int| 0 <= i < b.legal_moves().len() ==> move_fits_state(b.state, #[trigger] b.legal_moves()[i])
        &&& forall|i: int| 0 <= i < b.legal_moves().len() ==> search_ok(b.after_move(#[trigger] b.legal_moves()[i]), (depth - 1) as nat)
    }
}

pub proof fn lemma_search_order_members(ms: Seq<Move>)
    ensures
        search_order(ms).len() == ms.len(),
        forall|i: int| 0 <= i < search_order(ms).len() ==> ms.contains(#[trigger] search_order(ms)[i]),
{
    lemma_sorted_members(ms);
}

proof fn lemma_insert_members(s: Seq<Move>, m: Move)
    ensures
        insert_by_key(s, m).len() == s.len() + 1,
        forall|x: Move| #[trigger] insert_by_key(s, m).contains(x) ==> s.contains(x) || x == m,
    decreases s.len(),
{
    if s.len() > 0 && capture_key(s.last()) > capture_key(m) {
        lemma_insert_members(s.drop_last(), m);
        let r = insert_by_key(s.drop_last(), m);
        assert forall|x: Move| #[trigger] insert_by_key(s, m).contains(x) implies s.contains(x) || x == m by {
            let k = choose|k: int| 0 <= k < insert_by_key(s, m).len() && insert_by_key(s, m)[k] == x;
            if k < r.len() {
                assert(r[k] == x);
                assert(r.contains(x));
                if s.drop_last().contains(x) {
                    let k2 = choose|k2: int| 0 <= k2 < s.drop_last().len() && s.drop_last()[k2] == x;
                    assert(s[k2] == x);
                }
            } else {
                assert(x == s.last());
                assert(s[s.len() - 1] == x);
            }
        }
    } else if s.len() > 0 {
        assert forall|x: Move| #[trigger] insert_by_key(s, m).contains(x) implies s.contains(x) || x == m by {
            let k = choose|k: int| 0 <= k < insert_by_key(s, m).len() && insert_by_key(s, m)[k] == x;
            if k < s.len() {
                assert(s[k] == x);
            }
        }
    } else {
        assert forall|x: Move| #[trigger] insert_by_key(s, m).contains(x) implies s.contains(x) || x == m by {
            let k = choose|k: int| 0 <= k < insert_by_key(s, m).len() && insert_by_key(s, m)[k] == x;
        }
    }
}

proof fn lemma_sorted_members(ms: Seq<Move>)
    ensures
        sorted_by_key(ms).len() == ms.len(),
        forall|x: Move| #[trigger] sorted_by_key(ms).contains(x) ==> ms.contains(x),
        search_order(ms).len() == ms.len(),
        forall|i: int| 0 <= i < search_order(ms).len() ==> ms.contains(#[trigger] search_order(ms)[i]),
    decreases ms.len(),
{
    if ms.len() > 0 {
        lemma_sorted_members(ms.drop_last());
        lemma_insert_members(sorted_by_key(ms.drop_last()), ms.last());
        assert forall|x: Move| #[trigger] sorted_by_key(ms).contains(x) implies ms.contains(x) by {
            if sorted_by_key(ms.drop_last()).contains(x) {
                assert(ms.drop_last().contains(x));
                let k = choose|k: int| 0 <= k < ms.drop_last().len() && ms.drop_last()[k] == x;
                assert(ms[k] == x);
            } else {
                assert(ms[ms.len() - 1] == x);
            }
        }
    }
    let s = sorted_by_key(ms);
    assert forall|i: int| 0 <= i < search_order(ms).len() implies ms.contains(#[trigger] search_order(ms)[i]) by {
        assert(search_order(ms)[i] == s[s.len() - 1 - i]);
        assert(s.contains(s[s.len() - 1 - i]));
    }
}

proof fn lemma_engine_node(b: Board, lo: i16, hi: i16, d: nat, table: Map<u64, i16>, nodes: u32, hits: u32)
    requires
        clean_tree(b, d),
        table.dom().disjoint(tree_hashes(b, d)),
        !better(lo as int, hi as int, b.state.to_move),
    ensures
        bounded(search_node(b, lo, hi, d, table, nodes, hits).0, minimax(b, d), lo, hi, b.state.to_move),
        search_node(b, lo, hi, d, table, nodes, hits).1.dom().subset_of(table.dom().union(tree_hashes(b, d))),
    decreases d, 1int, 0int,
{
    if d > 0 {
        lemma_tried_in_search_order(b);
        let ms = tried_moves(b);
        let n = ms.len() as int;
        assert(kids_hashes(b, ms, 0, d) == Set::<u64>::empty());
        assert(table.dom().intersect(kids_hashes(b, ms, n, d)).subset_of(kids_hashes(b, ms, 0, d)));
        lemma_engine_moves(b, ms, 0, lo, hi, d, table, nodes, hits, lo);
        lemma_from_start(b, ms, n, d, lo);
    }
}

#[verifier::rlimit(50)]
proof fn lemma_engine_moves(b: Board, ms: Seq<Move>, i: int, cur: i16, hi: i16, d: nat, table: Map<u64, i16>,
    nodes: u32, hits: u32, lo: i16)
    requires
        d > 0,
        clean_tree(b, d),
        ms == tried_moves(b),
        0 <= i <= ms.len(),
        !better(lo as int, hi as int, b.state.to_move),
        cur == cap(minimax_from(b, ms, i, d, lo), hi, b.state.to_move),
        table.dom().intersect(kids_hashes(b, ms, ms.len() as int, d)).subset_of(kids_hashes(b, ms, i, d)),
    ensures
        search_moves(b, ms, i, cur, hi, d, table, nodes, hits).0 == cap(minimax_from(b, ms, ms.len() as int, d, lo), hi, b.state.to_move),
        search_moves(b, ms, i, cur, hi, d, table, nodes, hits).1.dom().subset_of(table.dom().union(kids_hashes(b, ms, ms.len() as int, d))),
    decreases d, 0int, ms.len() - i,
{
    let c = b.state.to_move;
    let n = ms.len() as int;
    if i < n {
        let m = ms[i];
        let child = b.after_move(m);
        let id = child.zobrist@;
        lemma_kid_facts(b, ms, i, n, d);
        lemma_kids_grow(b, ms, i, n, d);
        assert(tree_hashes(child, (d - 1) as nat).contains(id));
        assert(table.dom().disjoint(tree_hashes(child, (d - 1) as nat)));
        assert(!table.contains_key(id));
        lemma_engine_node(child, hi, cur, (d - 1) as nat, table, nodes, hits);
        let r = search_node(child, hi, cur, (d - 1) as nat, table, nodes, hits);
        let s = r.0;
        let t2 = r.1.insert(id, s);
        assert(search_moves(b, ms, i, cur, hi, d, table, nodes, hits) == if better(s as int, hi as int, c) {
            (hi, t2, r.2, r.3)
        } else {
            search_moves(b, ms, i + 1, best_of(s, cur, c), hi, d, t2, r.2, r.3)
        });
        let mi = minimax(child, (d - 1) as nat);
        let f = minimax_from(b, ms, i, d, lo);
        assert(minimax_from(b, ms, i + 1, d, lo) == pick(f, mi, c));
        lemma_from_grows(b, ms, i + 1, n, d, lo);
        if !better(s as int, hi as int, c) {
            let next = best_of(s, cur, c);
            assert(next == cap(minimax_from(b, ms, i + 1, d, lo), hi, c));
            lemma_kids_grow(b, ms, i + 1, n, d);
            assert(t2.dom().intersect(kids_hashes(b, ms, n, d)).subset_of(kids_hashes(b, ms, i + 1, d)));
            lemma_engine_moves(b, ms, i + 1, next, hi, d, t2, r.2, r.3, lo);
        } else {
            assert(cap(minimax_from(b, ms, n, d, lo), hi, c) == hi);
        }
    }
}

proof fn lemma_engine_root(board: Board, d: nat, i: int)
    requires
        d >= 1,
        clean_tree(board, d),
        0 <= i <= search_order(board.legal_moves()).len(),
    ensures
        root_search_full(board, search_order(board.legal_moves()), d, i).0
            == minimax_from(board, search_order(board.legal_moves()), i, d, best_score_of(board.state.to_move.opponent())),
        root_search_full(board, search_order(board.legal_moves()), d, i).4.dom().subset_of(
            kids_hashes(board, search_order(board.legal_moves()), i, d)),
        better(root_search_full(board, search_order(board.legal_moves()), d, i).0 as int,
            best_score_of(board.state.to_move.opponent()) as int, board.state.to_move)
            ==> exists|k: int| 0 <= k < i && root_search_full(board, search_order(board.legal_moves()), d, i).1
                == search_order(board.legal_moves())[k]
                && #[trigger] minimax(board.after_move(search_order(board.legal_moves())[k]), (d - 1) as nat)
                    == root_search_full(board, search_order(board.legal_moves()), d, i).0,
    decreases i,
{
    let c = board.state.to_move;
    let ms = search_order(board.legal_moves());
    let n = ms.len() as int;
    lemma_tried_in_search_order(board);
    if i > 0 {
        lemma_engine_root(board, d, i - 1);
        let prev = root_search_full(board, ms, d, i - 1);
        let child = board.after_move(ms[i - 1]);
        lemma_kid_facts(board, ms, i - 1, n, d);
        assert(prev.4.dom().disjoint(tree_hashes(child, (d - 1) as nat)));
        lemma_engine_node(child, best_score_of(c), prev.0, (d - 1) as nat, prev.4, 0, 0);
        let r = search_node(child, best_score_of(c), prev.0, (d - 1) as nat, prev.4, 0, 0);
        let mi = minimax(child, (d - 1) as nat);
        assert(minimax_from(board, ms, i, d, best_score_of(c.opponent())) == pick(prev.0, mi, c));
        if better(r.0 as int, prev.0 as int, c) {
            assert(r.0 == mi);
        }
        assert(kids_hashes(board, ms, i, d) == kids_hashes(board, ms, i - 1, d).union(tree_hashes(child, (d - 1) as nat)));
    }
}

/// The search of `Engine::do_search` scores a board with its minimax value: the best, for the
/// side to move, of what its moves lead to, down to the evaluation at the last level (white
/// takes the highest value, black the lowest). Its best move, when its score beats the worst
/// score, leads to a board of that value. This holds when every board the search reaches with
/// moves left can make its moves and has some, and no two boards of the tree share a hash
/// (the table of known scores is keyed by the hash alone, whatever bounds a score was found
/// with).
pub proof fn lemma_engine_search_is_minimax(board: Board, d: nat)
    requires
        d >= 1,
        clean_tree(board, d),
    ensures
        root_search(board, search_order(board.legal_moves()), d, search_order(board.legal_moves()).len() as int).0
            == minimax(board, d),
        better(root_search(board, search_order(board.legal_moves()), d, search_order(board.legal_moves()).len() as int).0 as int,
            best_score_of(board.state.to_move.opponent()) as int, board.state.to_move)
            ==> exists|k: int| 0 <= k < search_order(board.legal_moves()).len()
                && root_search(board, search_order(board.legal_moves()), d, search_order(board.legal_moves()).len() as int).1
                    == search_order(board.legal_moves())[k]
                && #[trigger] minimax(board.after_move(search_order(board.legal_moves())[k]), (d - 1) as nat)
                    == root_search(board, search_order(board.legal_moves()), d, search_order(board.legal_moves()).len() as int).0,
{
    lemma_tried_in_search_order(board);
    lemma_engine_root(board, d, search_order(board.legal_moves()).len() as int);
}

pub struct Engine;

impl Engine {
    #[verifier::rlimit(60)]
    pub fn do_search(board: Board, depth: u8) -> (result: SearchResult)
        requires
            board.can_generate_moves(),
            depth >= 1 || board.legal_moves().len() == 0,
            search_ok(board, depth as nat),
        ensures
            result.color == board.state.to_move,
            (result.best_move_score, result.best_move, result.calculated_nodes, result.cache_hits)
                == root_search(board, search_order(board.legal_moves()), depth as nat, search_order(board.legal_moves()).len() as int),
    {
        let mut transposition_table: HashMap<u64, i16> = HashMap::new();
        let mut result = SearchResult::from_color(board.state.get_move_color());
        result.start();
        let ghost color = board.state.to_move;
        let moves = order_moves(board.get_legal_moves());
        let ghost ms = moves@;
        proof { lemma_search_order_members(board.legal_moves()); }
        let mut i: usize = 0;
        while i < moves.len()
            invariant
                i <= ms.len(),
                ms == moves@,
                ms == search_order(board.legal_moves()),
                ms.len() == board.legal_moves().len(),
                forall|k: int| 0 <= k < ms.len() ==> board.legal_moves().contains(#[trigger] ms[k]),
                depth >= 1 || ms.len() == 0,
                search_ok(board, depth as nat),
                result.color == color,
                color == board.state.to_move,
                (result.best_move_score, result.best_move, result.calculated_nodes, result.cache_hits, transposition_table@)
                    == root_search_full(board, ms, depth as nat, i as int),
            decreases ms.len() - i,
        {
            let m = moves[i];
            proof {
                assert(board.legal_moves().contains(ms[i as int]));
                let k = choose|k: int| 0 <= k < board.legal_moves().len() && board.legal_moves()[k] == ms[i as int];
                assert(move_fits_state(board.state, board.legal_moves()[k]));
                assert(search_ok(board.after_move(board.legal_moves()[k]), (depth - 1) as nat));
            }
            let mut updated_board = board;
            updated_board.make_move(&m);
            let mut ctx = SearchContext { board: updated_board, cache_hits: 0, calculated_nodes: 0 };
            let score = Self::search(best_score(board.state.get_move_color()), result.get_score(), depth - 1, &mut transposition_table, &mut ctx);
            result.process_move(m, score);
            result.calculated_nodes = result.calculated_nodes.wrapping_add(ctx.calculated_nodes);
            result.cache_hits = result.cache_hits.wrapping_add(ctx.cache_hits);
            i += 1;
        }
        result.complete();
        result
    }

    fn search(best_forcible: i16, opponent_best_forcible: i16, depth: u8, transpositions: &mut HashMap<u64, i16>,
        ctx: &mut SearchContext) -> (score: i16)
        requires
            search_ok(old(ctx).board, depth as nat),
        ensures
            final(ctx).board == old(ctx).board,
            (score, final(transpositions)@, final(ctx).calculated_nodes, final(ctx).cache_hits)
                == search_node(old(ctx).board, best_forcible, opponent_best_forcible, depth as nat, old(transpositions)@,
                    old(ctx).calculated_nodes, old(ctx).cache_hits),
        decreases depth, 1int,
    {
        if depth == 0 {
            ctx.calculated_nodes = ctx.calculated_nodes.wrapping_add(1);
            return evaluate_board(&ctx.board);
        }
        let ghost b = ctx.board;
        let ghost color = b.state.to_move;
        let moves = order_moves(ctx.board.get_legal_moves());
        let ghost ms = moves@;
        proof { lemma_search_order_members(b.legal_moves()); }
        let mut best = best_forcible;
        let mut i: usize = 0;
        while i < moves.len()
            invariant
                i <= ms.len(),
                ms == moves@,
                ms == search_order(b.legal_moves()),
                ms.len() == b.legal_moves().len(),
                forall|k: int| 0 <= k < ms.len() ==> b.legal_moves().contains(#[trigger] ms[k]),
                depth >= 1,
                search_ok(b, depth as nat),
                ctx.board == b,
                color == b.state.to_move,
                search_node(b, best_forcible, opponent_best_forcible, depth as nat, old(transpositions)@,
                    old(ctx).calculated_nodes, old(ctx).cache_hits)
                    == search_moves(b, ms, i as int, best, opponent_best_forcible, depth as nat, transpositions@,
                        ctx.calculated_nodes, ctx.cache_hits),
                b == old(ctx).board,
            decreases ms.len() - i,
        {
            let m = moves[i];
            proof {
                assert(b.legal_moves().contains(ms[i as int]));
                let k = choose|k: int| 0 <= k < b.legal_moves().len() && b.legal_moves()[k] == ms[i as int];
                assert(move_fits_state(b.state, b.legal_moves()[k]));
                assert(search_ok(b.after_move(b.legal_moves()[k]), (depth - 1) as nat));
            }
            let change = ctx.board.make_move(&m);
            let id = ctx.board.zobrist.get_id();
            let cache_hit: Option<i16> = match transpositions.get(&id) {
                Some(s) => Some(*s),
                None => None,
            };
            let score = match cache_hit {
                Some(cached_score) => {
                    ctx.cache_hits = ctx.cache_hits.wrapping_add(1);
                    cached_score
                },
                None => {
                    let calculated_score = Self::search(opponent_best_forcible, best, depth - 1, transpositions, ctx);
                    transpositions.insert(id, calculated_score);
                    calculated_score
                },
            };
            ctx.board.unmake_move(change);
            proof { crate::rules::board::lemma_unmake_restores(b, m); }
            if ctx.is_better(score, opponent_best_forcible) {
                return opponent_best_forcible;
            }
            best = ctx.get_best(score, best);
            i += 1;
        }
        best
    }
}

/// What the search at the root has found after the first `i` moves: the best move and score
/// for the side to move, the counts, and the table of known scores.
pub open spec fn root_search_full(board: Board, ms: Seq<Move>, depth: nat, i: int)
    -> (i16, Move, u32, u32, Map<u64, i16>)
    decreases i,
{
    if i <= 0 || i > ms.len() {
        (best_score_of(board.state.to_move.opponent()), Move::NewGame(NewGame {}), 0, 0, Map::empty())
    } else {
        let prev = root_search_full(board, ms, depth, i - 1);
        let r = search_node(board.after_move(ms[i - 1]), best_score_of(board.state.to_move), prev.0, (depth - 1) as nat,
            prev.4, 0, 0);
        let (score, mv) = if better(r.0 as int, prev.0 as int, board.state.to_move) { (r.0, ms[i - 1]) } else { (prev.0, prev.1) };
        (score, mv, prev.2.wrapping_add(r.2), prev.3.wrapping_add(r.3), r.1)
    }
}

/// The best score, best move and counts that the search at the root gives after `i` moves.
pub open spec fn root_search(board: Board, ms: Seq<Move>, depth: nat, i: int) -> (i16, Move, u32, u32) {
    let r = root_search_full(board, ms, depth, i);
    (r.0, r.1, r.2, r.3)
}

} // verus!
