use vstd::prelude::*;
use std::collections::HashMap;

use crate::rules::Color;
use crate::rules::board::{Board, move_fits_state};
use crate::rules::pieces::movement::{Move, NewGame};
use crate::engine::{order_moves, search_order, lemma_search_order_members};
use crate::engine::scores::{best_score, is_better, best_score_of, better};
use crate::engine::evaluation::{evaluate_board, evaluation, evaluation_ok};

verus! {

broadcast use vstd::std_specs::hash::group_hash_axioms;

// ---------------------------------------------------------------------------
// Ordering moves with a move from the table first
// ---------------------------------------------------------------------------

/// The moves other than `hash`, in order.
pub open spec fn without_move(ms: Seq<Move>, hash: Option<Move>) -> Seq<Move>
    decreases ms.len(),
{
    if ms.len() == 0 {
        seq![]
    } else {
        (if hash == Some(ms[0]) { seq![] } else { seq![ms[0]] }) + without_move(ms.subrange(1, ms.len() as int), hash)
    }
}

/// The order in which the moves are tried: the move from the table first, then the others
/// in search order.
pub open spec fn move_order(ms: Seq<Move>, hash: Option<Move>) -> Seq<Move> {
    (match hash {
        Some(h) => seq![h],
        None => seq![],
    }) + without_move(search_order(ms), hash)
}

/// Hands out the move from the table, then the other moves in search order.
pub struct MoveOrderIterator {
    pub base: Vec<Move>,
    pub index: usize,
    pub hash_move: Option<Move>,
    pub initialized: bool,
}

impl MoveOrderIterator {
    /// The moves still to come.
    pub open spec fn remaining(self) -> Seq<Move> {
        let rest = without_move(self.base@.subrange(self.index as int, self.base@.len() as int), self.hash_move);
        if self.initialized {
            rest
        } else {
            (match self.hash_move {
                Some(h) => seq![h],
                None => seq![],
            }) + rest
        }
    }

    pub open spec fn wf(self) -> bool {
        self.index <= self.base@.len()
    }

    pub fn from_moves(moves: Vec<Move>, hash_move: Option<Move>) -> (it: Self)
        ensures
            it.wf(),
            it.remaining() == move_order(moves@, hash_move),
    {
        let base = order_moves(moves);
        let it = MoveOrderIterator { base: base, index: 0, hash_move: hash_move, initialized: false };
        assert(it.base@.subrange(0, it.base@.len() as int) =~= it.base@);
        it
    }

    pub fn next(&mut self) -> (r: Option<Move>)
        requires
            old(self).wf(),
        ensures
            final(self).wf(),
            old(self).remaining().len() == 0 ==> r is None && final(self).remaining().len() == 0,
            old(self).remaining().len() > 0 ==> r == Some(old(self).remaining()[0])
                && final(self).remaining() == old(self).remaining().subrange(1, old(self).remaining().len() as int),
    {
        if !self.initialized {
            self.initialized = true;
            if let Some(mov) = self.hash_move {
                let ghost rest = self.remaining();
                assert(old(self).remaining() =~= seq![mov] + rest);
                assert(old(self).remaining().subrange(1, old(self).remaining().len() as int) =~= rest);
                return Some(mov);
            }
            assert(old(self).remaining() =~= self.remaining());
        }
        let ghost start = self.remaining();
        assert(old(self).remaining() == start);
        loop
            invariant
                self.wf(),
                self.initialized,
                self.remaining() == start,
                old(self).remaining() == start,
            decreases self.base@.len() - self.index,
        {
            if self.index >= self.base.len() {
                assert(self.base@.subrange(self.index as int, self.base@.len() as int) =~= Seq::<Move>::empty());
                return None;
            }
            let mov = self.base[self.index];
            let ghost s = self.base@.subrange(self.index as int, self.base@.len() as int);
            assert(s[0] == mov);
            assert(s.subrange(1, s.len() as int) =~= self.base@.subrange(self.index + 1, self.base@.len() as int));
            self.index += 1;
            if let Some(hash_move) = self.hash_move {
                if hash_move == mov {
                    assert(self.remaining() =~= start);
                    continue;
                }
            }
            assert(start =~= seq![mov] + self.remaining());
            assert(start.subrange(1, start.len() as int) =~= self.remaining());
            return Some(mov);
        }
    }
}

// ---------------------------------------------------------------------------
// Results
// ---------------------------------------------------------------------------

/// The order in which searches are run.
#[derive(Copy, Clone, PartialEq, Eq, Structural)]
pub enum AlphaBetaSearchPriority {
    FirstMove,
    Remainder,
}

impl AlphaBetaSearchPriority {
    pub fn from_index(index: usize) -> (p: Self)
        ensures
            index == 0 ==> p == AlphaBetaSearchPriority::FirstMove,
            index != 0 ==> p == AlphaBetaSearchPriority::Remainder,
    {
        match index {
            0 => AlphaBetaSearchPriority::FirstMove,
            _ => AlphaBetaSearchPriority::Remainder,
        }
    }
}

/// How a search result came about.
#[derive(Copy, Clone, PartialEq, Eq, Structural)]
pub enum AlphaBetaResultType {
    Empty,
    Evaluated,
    Calculated,
    BetaCutoff,
    AlphaFallback,
}

/// A search result: its kind, score and best move, with what it cost.
#[derive(Copy, Clone, PartialEq, Eq, Structural)]
pub struct AlphaBetaResult {
    pub result_type: AlphaBetaResultType,
    pub score: i16,
    pub mov: Option<Move>,
    pub evaluated_nodes: u32,
    pub cache_hits: u32,
    pub beta_cutoffs: u32,
}

/// A result of the given kind, score and move that cost one look into the table.
pub open spec fn table_result(t: AlphaBetaResultType, score: i16, mov: Option<Move>) -> AlphaBetaResult {
    AlphaBetaResult { result_type: t, score: score, mov: mov, evaluated_nodes: 0, cache_hits: 1, beta_cutoffs: 0 }
}

impl AlphaBetaResult {
    pub fn new(score: i16) -> (r: Self)
        ensures
            r == (AlphaBetaResult { result_type: AlphaBetaResultType::Empty, score: score, mov: None, evaluated_nodes: 0, cache_hits: 0, beta_cutoffs: 0 }),
    {
        AlphaBetaResult { result_type: AlphaBetaResultType::Empty, score: score, mov: None, evaluated_nodes: 0, cache_hits: 0, beta_cutoffs: 0 }
    }

    pub fn evaluated(score: i16) -> (r: Self)
        ensures
            r == (AlphaBetaResult { result_type: AlphaBetaResultType::Evaluated, score: score, mov: None, evaluated_nodes: 1, cache_hits: 0, beta_cutoffs: 0 }),
    {
        AlphaBetaResult { result_type: AlphaBetaResultType::Evaluated, score: score, mov: None, evaluated_nodes: 1, cache_hits: 0, beta_cutoffs: 0 }
    }

    pub fn transposed(result: &Self) -> (r: Self)
        ensures
            r == table_result(result.result_type, result.score, result.mov),
    {
        AlphaBetaResult { result_type: result.result_type, score: result.score, mov: result.mov, evaluated_nodes: 0, cache_hits: 1, beta_cutoffs: 0 }
    }
}

/// A result recorded for a position, with the depth it was searched to.
#[derive(Copy, Clone, PartialEq, Eq, Structural)]
pub struct Transposition {
    pub result_type: AlphaBetaResultType,
    pub score: i16,
    pub mov: Option<Move>,
    pub depth: u8,
}

/// What a recorded result gives a new search.
#[derive(Copy, Clone, PartialEq, Eq, Structural)]
pub enum TranspositionMatch {
    FullMatch(AlphaBetaResult),
    BestMove(Move),
    NoMatch,
}

/// What a recorded result gives a search of the same position with bounds `alpha` and `beta`
/// to `depth`: when it was searched at least as deep, a cutoff at `beta` if it beats `beta`,
/// a fallback to `alpha` if `alpha` beats it, or the result itself if it is exact; otherwise
/// its best move, if any, to try first.
pub open spec fn transposition_match(alpha: i16, beta: i16, depth: u8, color: Color, t: Transposition) -> TranspositionMatch {
    let not_cutoff = t.result_type != AlphaBetaResultType::BetaCutoff;
    if depth >= t.depth && ((!not_cutoff && better(beta as int, t.score as int, color)) || (not_cutoff && better(t.score as int, beta as int, color))) {
        TranspositionMatch::FullMatch(AlphaBetaResult {
            result_type: AlphaBetaResultType::BetaCutoff, score: beta, mov: t.mov, evaluated_nodes: 0, cache_hits: 1, beta_cutoffs: 1,
        })
    } else if depth >= t.depth && not_cutoff && better(alpha as int, t.score as int, color) {
        TranspositionMatch::FullMatch(table_result(AlphaBetaResultType::AlphaFallback, alpha, t.mov))
    } else if depth >= t.depth && (t.result_type == AlphaBetaResultType::Calculated || t.result_type == AlphaBetaResultType::Evaluated) {
        TranspositionMatch::FullMatch(table_result(t.result_type, t.score, t.mov))
    } else {
        match t.mov {
            Some(m) => TranspositionMatch::BestMove(m),
            None => TranspositionMatch::NoMatch,
        }
    }
}

pub fn process_transposition(alpha: i16, beta: i16, depth: u8, move_color: Color, t: &Transposition) -> (r: TranspositionMatch)
    ensures
        r == transposition_match(alpha, beta, depth, move_color, *t),
{
    if depth >= t.depth {
        if (t.result_type == AlphaBetaResultType::BetaCutoff && is_better(beta, t.score, move_color))
            || (t.result_type != AlphaBetaResultType::BetaCutoff && is_better(t.score, beta, move_color)) {
            return TranspositionMatch::FullMatch(AlphaBetaResult {
                result_type: AlphaBetaResultType::BetaCutoff,
                score: beta,
                mov: t.mov,
                evaluated_nodes: 0,
                cache_hits: 1,
                beta_cutoffs: 1,
            });
        }
        if t.result_type != AlphaBetaResultType::BetaCutoff && is_better(alpha, t.score, move_color) {
            return TranspositionMatch::FullMatch(AlphaBetaResult {
                result_type: AlphaBetaResultType::AlphaFallback,
                score: alpha,
                mov: t.mov,
                evaluated_nodes: 0,
                cache_hits: 1,
                beta_cutoffs: 0,
            });
        }
        if t.result_type == AlphaBetaResultType::Calculated || t.result_type == AlphaBetaResultType::Evaluated {
            return TranspositionMatch::FullMatch(AlphaBetaResult {
                result_type: t.result_type,
                score: t.score,
                mov: t.mov,
                evaluated_nodes: 0,
                cache_hits: 1,
                beta_cutoffs: 0,
            });
        }
    }
    if let Some(m) = t.mov {
        return TranspositionMatch::BestMove(m);
    }
    TranspositionMatch::NoMatch
}

// ---------------------------------------------------------------------------
// The search
// ---------------------------------------------------------------------------

/// What a result found in the table for the position decides at once: a cutoff at `beta`
/// when it beats `beta`, a fallback to `alpha` when `alpha` beats it, or itself when exact.
pub open spec fn table_exit(t: AlphaBetaResult, alpha: i16, beta: i16, color: Color) -> Option<AlphaBetaResult> {
    let not_cutoff = t.result_type != AlphaBetaResultType::BetaCutoff;
    if (!not_cutoff && better(beta as int, t.score as int, color)) || (not_cutoff && better(t.score as int, beta as int, color)) {
        Some(table_result(AlphaBetaResultType::BetaCutoff, beta, t.mov))
    } else if not_cutoff && better(alpha as int, t.score as int, color) {
        Some(table_result(AlphaBetaResultType::AlphaFallback, alpha, t.mov))
    } else if t.result_type == AlphaBetaResultType::Calculated || t.result_type == AlphaBetaResultType::Evaluated {
        Some(table_result(t.result_type, t.score, t.mov))
    } else {
        None
    }
}

/// The kind a finished search gives its result: calculated when no cutoff happened and the
/// score beats `alpha`, a fallback to `alpha` otherwise.
pub open spec fn finished(r: AlphaBetaResult, alpha: i16, color: Color) -> AlphaBetaResult {
    if r.result_type == AlphaBetaResultType::Empty && better(r.score as int, alpha as int, color) {
        AlphaBetaResult { result_type: AlphaBetaResultType::Calculated, ..r }
    } else {
        AlphaBetaResult { result_type: AlphaBetaResultType::AlphaFallback, ..r }
    }
}

/// The alpha-beta search of a board with the table of results threaded through, and whether
/// the search runs to its end: a result in the table may decide at once; at depth zero the
/// board is evaluated; otherwise its moves are searched, the move from the table first, and
/// the result is recorded.
pub open spec fn ab_node(b: Board, alpha: i16, beta: i16, depth: nat, table: Map<u64, AlphaBetaResult>)
    -> (AlphaBetaResult, Map<u64, AlphaBetaResult>, bool)
    decreases depth, 1int, 0int,
{
    let color = b.state.to_move;
    let id = b.zobrist@;
    let found = table.contains_key(id);
    let start = AlphaBetaResult {
        result_type: AlphaBetaResultType::Empty, score: alpha, mov: None, evaluated_nodes: 0,
        cache_hits: if found { 1 } else { 0 }, beta_cutoffs: 0,
    };
    if found && table_exit(table[id], alpha, beta, color) is Some {
        (table_exit(table[id], alpha, beta, color)->0, table, true)
    } else if depth == 0 {
        let ev = AlphaBetaResult {
            result_type: AlphaBetaResultType::Evaluated, score: evaluation(b) as i16, mov: None, evaluated_nodes: 1,
            cache_hits: 0, beta_cutoffs: 0,
        };
        (ev, table.insert(id, ev), evaluation_ok(b))
    } else if !b.can_generate_moves() {
        (start, table, false)
    } else {
        let hash = if found { table[id].mov } else { None };
        let r = ab_moves(b, move_order(b.legal_moves(), hash), 0, alpha, beta, depth, table, start);
        let done = finished(r.0, alpha, color);
        (done, r.1.insert(id, done), r.2)
    }
}

/// The search of the moves from the `i`-th on, each child searched with the bounds `beta` and
/// the best score so far: a child that beats `beta` ends the search with a cutoff.
pub open spec fn ab_moves(b: Board, ms: Seq<Move>, i: int, alpha: i16, beta: i16, depth: nat,
    table: Map<u64, AlphaBetaResult>, r: AlphaBetaResult) -> (AlphaBetaResult, Map<u64, AlphaBetaResult>, bool)
    decreases depth, 0int, ms.len() - i,
{
    if i < 0 || i >= ms.len() || depth == 0 {
        (r, table, true)
    } else if !move_fits_state(b.state, ms[i]) {
        (r, table, false)
    } else {
        let m = ms[i];
        let c = ab_node(b.after_move(m), beta, r.score, (depth - 1) as nat, table);
        let r2 = AlphaBetaResult {
            evaluated_nodes: r.evaluated_nodes.wrapping_add(c.0.evaluated_nodes),
            cache_hits: r.cache_hits.wrapping_add(c.0.cache_hits),
            beta_cutoffs: r.beta_cutoffs.wrapping_add(c.0.beta_cutoffs),
            ..r
        };
        if better(c.0.score as int, beta as int, b.state.to_move) {
            (AlphaBetaResult { result_type: AlphaBetaResultType::BetaCutoff, score: beta, mov: Some(m),
                beta_cutoffs: r2.beta_cutoffs.wrapping_add(1), ..r2 }, c.1, c.2)
        } else {
            let r3 = if better(c.0.score as int, r2.score as int, b.state.to_move) {
                AlphaBetaResult { score: c.0.score, mov: Some(m), ..r2 }
            } else {
                r2
            };
            let rest = ab_moves(b, ms, i + 1, alpha, beta, depth, c.1, r3);
            (rest.0, rest.1, c.2 && rest.2)
        }
    }
}

/// The best of the evaluations of the boards that the first `n` moves lead to, for the side
/// to move, from its worst score on: the minimax value of a search one move deep.
pub open spec fn best_child_eval(b: Board, ms: Seq<Move>, n: int) -> i16
    decreases n,
{
    if n <= 0 {
        best_score_of(b.state.to_move.opponent())
    } else {
        let prev = best_child_eval(b, ms, n - 1);
        let e = evaluation(b.after_move(ms[n - 1])) as i16;
        if better(e as int, prev as int, b.state.to_move) { e } else { prev }
    }
}

proof fn lemma_one_move_children(b: Board, ms: Seq<Move>, i: int, alpha: i16, table: Map<u64, AlphaBetaResult>, r: AlphaBetaResult)
    requires
        0 <= i <= ms.len(),
        r.score == best_child_eval(b, ms, i),
        forall|k: int| i <= k < ms.len() ==> move_fits_state(b.state, #[trigger] ms[k]),
        forall|k: int| i <= k < ms.len() ==> !table.contains_key(#[trigger] b.after_move(ms[k]).zobrist@),
        forall|k: int, j: int| i <= k < j < ms.len() ==> (#[trigger] b.after_move(ms[k])).zobrist@ != (#[trigger] b.after_move(ms[j])).zobrist@,
    ensures
        ab_moves(b, ms, i, alpha, best_score_of(b.state.to_move), 1, table, r).0.score == best_child_eval(b, ms, ms.len() as int),
    decreases ms.len() - i,
{
    let beta = best_score_of(b.state.to_move);
    if i < ms.len() {
        let m = ms[i];
        let child = b.after_move(m);
        assert(move_fits_state(b.state, ms[i]));
        assert(!table.contains_key(child.zobrist@));
        let c = ab_node(child, beta, r.score, 0, table);
        let ev = evaluation(child) as i16;
        assert(c.0.score == ev);
        assert(!better(ev as int, beta as int, b.state.to_move));
        let t2 = table.insert(child.zobrist@, c.0);
        assert(c.1 == t2);
        assert forall|k: int| i + 1 <= k < ms.len() implies !t2.contains_key(#[trigger] b.after_move(ms[k]).zobrist@) by {
            assert(b.after_move(ms[i]).zobrist@ != b.after_move(ms[k]).zobrist@);
        }
        let r2 = AlphaBetaResult {
            evaluated_nodes: r.evaluated_nodes.wrapping_add(c.0.evaluated_nodes),
            cache_hits: r.cache_hits.wrapping_add(c.0.cache_hits),
            beta_cutoffs: r.beta_cutoffs.wrapping_add(c.0.beta_cutoffs),
            ..r
        };
        let r3 = if better(c.0.score as int, r2.score as int, b.state.to_move) {
            AlphaBetaResult { score: c.0.score, mov: Some(m), ..r2 }
        } else {
            r2
        };
        assert(r3.score == best_child_eval(b, ms, i + 1));
        lemma_one_move_children(b, ms, i + 1, alpha, t2, r3);
    }
}

/// A search one move deep, with an empty table, scores the board with the minimax value: the
/// best evaluation, for the side to move, of the boards its moves lead to. This holds when the
/// boards the moves lead to have distinct hashes (the table is keyed by the hash alone).
pub proof fn lemma_one_move_search_is_minimax(b: Board)
    requires
        b.can_generate_moves(),
        forall|k: int| 0 <= k < move_order(b.legal_moves(), None).len()
            ==> move_fits_state(b.state, #[trigger] move_order(b.legal_moves(), None)[k]),
        forall|k: int, j: int| 0 <= k < j < move_order(b.legal_moves(), None).len()
            ==> (#[trigger] b.after_move(move_order(b.legal_moves(), None)[k])).zobrist@
                != (#[trigger] b.after_move(move_order(b.legal_moves(), None)[j])).zobrist@,
    ensures
        ab_node(b, best_score_of(b.state.to_move.opponent()), best_score_of(b.state.to_move), 1, Map::empty()).0.score
            == best_child_eval(b, move_order(b.legal_moves(), None), move_order(b.legal_moves(), None).len() as int),
{
    let ms = move_order(b.legal_moves(), None);
    let alpha = best_score_of(b.state.to_move.opponent());
    let table = Map::<u64, AlphaBetaResult>::empty();
    let start = AlphaBetaResult {
        result_type: AlphaBetaResultType::Empty, score: alpha, mov: None, evaluated_nodes: 0,
        cache_hits: 0, beta_cutoffs: 0,
    };
    assert(start.score == best_child_eval(b, ms, 0));
    lemma_one_move_children(b, ms, 0, alpha, table, start);
}

/// The better of two scores for a color: `e` when it is better than `a`, `a` otherwise.
pub open spec fn pick(a: i16, e: i16, c: Color) -> i16 {
    if better(e as int, a as int, c) { e } else { a }
}

/// A score held to a bound: the bound when the score is better than it, for the color.
pub open spec fn cap(x: i16, bound: i16, c: Color) -> i16 {
    if better(x as int, bound as int, c) { bound } else { x }
}

/// The moves that a search tries on a board that has no result in the table.
pub open spec fn tried_moves(b: Board) -> Seq<Move> {
    move_order(b.legal_moves(), None)
}

/// With no move from the table, the moves are tried in search order.
pub proof fn lemma_tried_in_search_order(b: Board)
    ensures
        tried_moves(b) == search_order(b.legal_moves()),
{
    lemma_without_none(search_order(b.legal_moves()));
    assert(Seq::<Move>::empty() + search_order(b.legal_moves()) =~= search_order(b.legal_moves()));
}

proof fn lemma_without_none(ms: Seq<Move>)
    ensures
        without_move(ms, None) == ms,
    decreases ms.len(),
{
    if ms.len() > 0 {
        lemma_without_none(ms.subrange(1, ms.len() as int));
        assert(seq![ms[0]] + ms.subrange(1, ms.len() as int) =~= ms);
    } else {
        assert(ms =~= Seq::<Move>::empty());
    }
}

/// The minimax value of a board searched `d` moves deep: its evaluation at the last level,
/// otherwise the best, for the side to move, of the values of the boards its moves lead to.
pub open spec fn minimax(b: Board, d: nat) -> i16
    decreases d, 1int, 0int,
{
    if d == 0 {
        evaluation(b) as i16
    } else {
        minimax_from(b, tried_moves(b), tried_moves(b).len() as int, d, best_score_of(b.state.to_move.opponent()))
    }
}

/// The best, for the side to move, of `start` and the values of the boards that the first
/// `n` moves lead to, searched a move less deep.
pub open spec fn minimax_from(b: Board, ms: Seq<Move>, n: int, d: nat, start: i16) -> i16
    decreases d, 0int, n,
{
    if n <= 0 || d == 0 {
        start
    } else {
        pick(minimax_from(b, ms, n - 1, d, start), minimax(b.after_move(ms[n - 1]), (d - 1) as nat), b.state.to_move)
    }
}

/// The hashes of the boards a search `d` moves deep reaches.
pub open spec fn tree_hashes(b: Board, d: nat) -> Set<u64>
    decreases d, 1int, 0int,
{
    if d == 0 {
        set![b.zobrist@]
    } else {
        set![b.zobrist@].union(kids_hashes(b, tried_moves(b), tried_moves(b).len() as int, d))
    }
}

/// The hashes of the boards reached below the first `n` moves.
pub open spec fn kids_hashes(b: Board, ms: Seq<Move>, n: int, d: nat) -> Set<u64>
    decreases d, 0int, n,
{
    if n <= 0 || d == 0 {
        Set::empty()
    } else {
        kids_hashes(b, ms, n - 1, d).union(tree_hashes(b.after_move(ms[n - 1]), (d - 1) as nat))
    }
}

/// The trees that a search reaches without meeting a result already in its table: each
/// board with moves left can generate its moves, has some and can make each, and no two
/// boards of the tree share a hash.
pub open spec fn clean_tree(b: Board, d: nat) -> bool
    decreases d, 1int, 0int,
{
    if d == 0 {
        true
    } else {
        &&& b.can_generate_moves()
        &&& tried_moves(b).len() > 0
        &&& !kids_hashes(b, tried_moves(b), tried_moves(b).len() as int, d).contains(b.zobrist@)
        &&& clean_kids(b, tried_moves(b), tried_moves(b).len() as int, d)
    }
}

/// The subtrees below the first `n` moves are clean and share no hash.
pub open spec fn clean_kids(b: Board, ms: Seq<Move>, n: int, d: nat) -> bool
    decreases d, 0int, n,
{
    if n <= 0 || d == 0 {
        true
    } else {
        &&& clean_kids(b, ms, n - 1, d)
        &&& move_fits_state(b.state, ms[n - 1])
        &&& clean_tree(b.after_move(ms[n - 1]), (d - 1) as nat)
        &&& kids_hashes(b, ms, n - 1, d).disjoint(tree_hashes(b.after_move(ms[n - 1]), (d - 1) as nat))
    }
}

/// What a search with bounds `lo` and `hi` gives of a value `mm`: at most `lo` when `mm` is at
/// most `lo`, at least `hi` when `mm` passes `hi`, and `mm` itself in between.
pub open spec fn bounded(s: i16, mm: i16, lo: i16, hi: i16, c: Color) -> bool {
    &&& !better(mm as int, lo as int, c) ==> !better(s as int, lo as int, c)
    &&& better(mm as int, hi as int, c) ==> !better(hi as int, s as int, c)
    &&& better(mm as int, lo as int, c) && !better(mm as int, hi as int, c) ==> s == mm
}

pub(crate) proof fn lemma_kids_grow(b: Board, ms: Seq<Move>, i: int, n: int, d: nat)
    requires
        0 <= i <= n,
    ensures
        kids_hashes(b, ms, i, d).subset_of(kids_hashes(b, ms, n, d)),
    decreases n,
{
    if i < n {
        lemma_kids_grow(b, ms, i, n - 1, d);
    }
}

pub(crate) proof fn lemma_kid_facts(b: Board, ms: Seq<Move>, j: int, n: int, d: nat)
    requires
        0 <= j < n,
        d > 0,
        clean_kids(b, ms, n, d),
    ensures
        move_fits_state(b.state, ms[j]),
        clean_tree(b.after_move(ms[j]), (d - 1) as nat),
        kids_hashes(b, ms, j, d).disjoint(tree_hashes(b.after_move(ms[j]), (d - 1) as nat)),
        tree_hashes(b.after_move(ms[j]), (d - 1) as nat).subset_of(kids_hashes(b, ms, n, d)),
    decreases n,
{
    if j < n - 1 {
        lemma_kid_facts(b, ms, j, n - 1, d);
    } else {
        lemma_kids_grow(b, ms, n, n, d);
    }
}

pub(crate) proof fn lemma_from_grows(b: Board, ms: Seq<Move>, k: int, n: int, d: nat, start: i16)
    requires
        0 <= k <= n,
    ensures
        !better(minimax_from(b, ms, k, d, start) as int, minimax_from(b, ms, n, d, start) as int, b.state.to_move),
    decreases n,
{
    if k < n {
        lemma_from_grows(b, ms, k, n - 1, d, start);
    }
}

pub(crate) proof fn lemma_from_start(b: Board, ms: Seq<Move>, n: int, d: nat, alpha: i16)
    requires
        !better(best_score_of(b.state.to_move.opponent()) as int, alpha as int, b.state.to_move),
    ensures
        minimax_from(b, ms, n, d, alpha)
            == pick(minimax_from(b, ms, n, d, best_score_of(b.state.to_move.opponent())), alpha, b.state.to_move),
    decreases n,
{
    if n > 0 && d > 0 {
        lemma_from_start(b, ms, n - 1, d, alpha);
    }
}

proof fn lemma_search_node(b: Board, alpha: i16, beta: i16, d: nat, table: Map<u64, AlphaBetaResult>)
    requires
        clean_tree(b, d),
        table.dom().disjoint(tree_hashes(b, d)),
        !better(alpha as int, beta as int, b.state.to_move),
    ensures
        bounded(ab_node(b, alpha, beta, d, table).0.score, minimax(b, d), alpha, beta, b.state.to_move),
        ab_node(b, alpha, beta, d, table).1.dom().subset_of(table.dom().union(tree_hashes(b, d))),
    decreases d, 1int, 0int,
{
    let c = b.state.to_move;
    assert(tree_hashes(b, d).contains(b.zobrist@));
    assert(!table.contains_key(b.zobrist@));
    if d > 0 {
        let ms = tried_moves(b);
        let n = ms.len() as int;
        let start = AlphaBetaResult {
            result_type: AlphaBetaResultType::Empty, score: alpha, mov: None, evaluated_nodes: 0,
            cache_hits: 0, beta_cutoffs: 0,
        };
        assert(kids_hashes(b, ms, 0, d) == Set::<u64>::empty());
        assert(table.dom().intersect(kids_hashes(b, ms, n, d)).subset_of(kids_hashes(b, ms, 0, d)));
        lemma_search_moves(b, ms, 0, alpha, beta, d, table, start);
        lemma_from_start(b, ms, n, d, alpha);
    }
}

/// The best move a search has found among the first `i` moves: a move whose board has the
/// value found, or none while the value found is still `alpha`.
pub open spec fn best_move_found(b: Board, ms: Seq<Move>, i: int, d: nat, alpha: i16, r: AlphaBetaResult) -> bool {
    &&& r.mov is Some ==> exists|k: int| 0 <= k < i && r.mov == Some(ms[k])
        && #[trigger] minimax(b.after_move(ms[k]), (d - 1) as nat) == r.score
    &&& r.mov is None ==> r.score == alpha
}

proof fn lemma_search_moves(b: Board, ms: Seq<Move>, i: int, alpha: i16, beta: i16, d: nat,
    table: Map<u64, AlphaBetaResult>, r: AlphaBetaResult)
    requires
        d > 0,
        clean_tree(b, d),
        ms == tried_moves(b),
        0 <= i <= ms.len(),
        !better(alpha as int, beta as int, b.state.to_move),
        r.score == cap(minimax_from(b, ms, i, d, alpha), beta, b.state.to_move),
        r.result_type == AlphaBetaResultType::Empty,
        table.dom().intersect(kids_hashes(b, ms, ms.len() as int, d)).subset_of(kids_hashes(b, ms, i, d)),
        beta == best_score_of(b.state.to_move) ==> best_move_found(b, ms, i, d, alpha, r),
    ensures
        ab_moves(b, ms, i, alpha, beta, d, table, r).0.score == cap(minimax_from(b, ms, ms.len() as int, d, alpha), beta, b.state.to_move),
        ab_moves(b, ms, i, alpha, beta, d, table, r).1.dom().subset_of(table.dom().union(kids_hashes(b, ms, ms.len() as int, d))),
        beta == best_score_of(b.state.to_move) ==> best_move_found(b, ms, ms.len() as int, d, alpha, ab_moves(b, ms, i, alpha, beta, d, table, r).0),
    decreases d, 0int, ms.len() - i,
{
    let c = b.state.to_move;
    let n = ms.len() as int;
    if i < n {
        let m = ms[i];
        let child = b.after_move(m);
        lemma_kid_facts(b, ms, i, n, d);
        lemma_kids_grow(b, ms, i, n, d);
        let cur = r.score;
        assert(table.dom().disjoint(tree_hashes(child, (d - 1) as nat)));
        lemma_search_node(child, beta, cur, (d - 1) as nat, table);
        let ch = ab_node(child, beta, cur, (d - 1) as nat, table);
        let s = ch.0.score;
        let mi = minimax(child, (d - 1) as nat);
        let f = minimax_from(b, ms, i, d, alpha);
        assert(minimax_from(b, ms, i + 1, d, alpha) == pick(f, mi, c));
        lemma_from_grows(b, ms, i + 1, n, d, alpha);
        let r2 = AlphaBetaResult {
            evaluated_nodes: r.evaluated_nodes.wrapping_add(ch.0.evaluated_nodes),
            cache_hits: r.cache_hits.wrapping_add(ch.0.cache_hits),
            beta_cutoffs: r.beta_cutoffs.wrapping_add(ch.0.beta_cutoffs),
            ..r
        };
        if !better(s as int, beta as int, c) {
            let r3 = if better(s as int, cur as int, c) {
                AlphaBetaResult { score: s, mov: Some(m), ..r2 }
            } else {
                r2
            };
            assert(r3.score == cap(minimax_from(b, ms, i + 1, d, alpha), beta, c));
            if beta == best_score_of(c) {
                if better(s as int, cur as int, c) {
                    assert(s == mi);
                    assert(r3.mov == Some(ms[i]) && minimax(b.after_move(ms[i]), (d - 1) as nat) == r3.score);
                }
                assert(best_move_found(b, ms, i + 1, d, alpha, r3));
            }
            lemma_kids_grow(b, ms, i + 1, n, d);
            assert(ch.1.dom().intersect(kids_hashes(b, ms, n, d)).subset_of(kids_hashes(b, ms, i + 1, d)));
            lemma_search_moves(b, ms, i + 1, alpha, beta, d, ch.1, r3);
        } else {
            assert(cap(minimax_from(b, ms, n, d, alpha), beta, c) == beta);
        }
    }
}

/// An alpha-beta search from the widest bounds, with an empty table, scores a board with its
/// minimax value: the best, for the side to move, of what its moves lead to, down to the
/// evaluation at the last level; its move, when it gives one, leads to a board of that value,
/// and it gives none only when that value is the worst score. This holds when every board the search reaches with moves
/// left can make its moves and has some, and no two boards of the tree share a hash (the
/// table is keyed by the hash alone, and its results are taken whatever depth they were
/// searched to).
pub proof fn lemma_search_is_minimax(b: Board, d: nat)
    requires
        clean_tree(b, d),
    ensures
        ab_node(b, best_score_of(b.state.to_move.opponent()), best_score_of(b.state.to_move), d, Map::empty()).0.score
            == minimax(b, d),
        d > 0 ==> best_move_found(b, tried_moves(b), tried_moves(b).len() as int, d, best_score_of(b.state.to_move.opponent()),
            ab_node(b, best_score_of(b.state.to_move.opponent()), best_score_of(b.state.to_move), d, Map::empty()).0),
{
    let table = Map::<u64, AlphaBetaResult>::empty();
    let alpha = best_score_of(b.state.to_move.opponent());
    let beta = best_score_of(b.state.to_move);
    assert(table.dom().disjoint(tree_hashes(b, d)));
    lemma_search_node(b, alpha, beta, d, table);
    if d > 0 {
        let ms = tried_moves(b);
        let start = AlphaBetaResult {
            result_type: AlphaBetaResultType::Empty, score: alpha, mov: None, evaluated_nodes: 0,
            cache_hits: 0, beta_cutoffs: 0,
        };
        assert(tree_hashes(b, d).contains(b.zobrist@));
        assert(kids_hashes(b, ms, 0, d) == Set::<u64>::empty());
        assert(table.dom().intersect(kids_hashes(b, ms, ms.len() as int, d)).subset_of(kids_hashes(b, ms, 0, d)));
        lemma_search_moves(b, ms, 0, alpha, beta, d, table, start);
    }
}

/// The alpha-beta search.
pub struct AlphaBetaSearch;

impl AlphaBetaSearch {
    pub fn do_search(board: Board, depth: u8) -> (r: AlphaBetaResult)
        requires
            ab_node(board, best_score_of(board.state.to_move.opponent()), best_score_of(board.state.to_move), depth as nat,
                Map::empty()).2,
        ensures
            r == ab_node(board, best_score_of(board.state.to_move.opponent()), best_score_of(board.state.to_move), depth as nat,
                Map::empty()).0,
    {
        let mut board = board;
        let mut transpositions: HashMap<u64, AlphaBetaResult> = HashMap::new();
        let alpha = best_score(board.state.get_move_color().swap());
        let beta = best_score(board.state.get_move_color());
        Self::search(&mut board, alpha, beta, depth, &mut transpositions)
    }

    fn search(board: &mut Board, alpha: i16, beta: i16, depth: u8, transpositions: &mut HashMap<u64, AlphaBetaResult>)
        -> (r: AlphaBetaResult)
        requires
            ab_node(*old(board), alpha, beta, depth as nat, old(transpositions)@).2,
        ensures
            *final(board) == *old(board),
            (r, final(transpositions)@) == (ab_node(*old(board), alpha, beta, depth as nat, old(transpositions)@).0,
                ab_node(*old(board), alpha, beta, depth as nat, old(transpositions)@).1),
        decreases depth, 1int,
    {
        let ghost b = *board;
        let ghost t0 = transpositions@;
        let color = board.state.get_move_color();
        let id = board.zobrist.get_id();
        let mut result = AlphaBetaResult::new(alpha);
        let mut hash_move: Option<Move> = None;
        if let Some(transposed_result) = transpositions.get(&id) {
            result.cache_hits = result.cache_hits + 1;
            if (transposed_result.result_type == AlphaBetaResultType::BetaCutoff && is_better(beta, transposed_result.score, color))
                || (transposed_result.result_type != AlphaBetaResultType::BetaCutoff && is_better(transposed_result.score, beta, color)) {
                result.result_type = AlphaBetaResultType::BetaCutoff;
                result.score = beta;
                result.mov = transposed_result.mov;
                return result;
            }
            if transposed_result.result_type != AlphaBetaResultType::BetaCutoff && is_better(alpha, transposed_result.score, color) {
                result.result_type = AlphaBetaResultType::AlphaFallback;
                result.score = alpha;
                result.mov = transposed_result.mov;
                return result;
            }
            if transposed_result.result_type == AlphaBetaResultType::Calculated || transposed_result.result_type == AlphaBetaResultType::Evaluated {
                return AlphaBetaResult::transposed(transposed_result);
            }
            hash_move = transposed_result.mov;
        }
        if depth == 0 {
            let evaluation = AlphaBetaResult::evaluated(evaluate_board(board));
            transpositions.insert(id, evaluation);
            return evaluation;
        }
        let ghost start = result;
        let mut moves = MoveOrderIterator::from_moves(board.get_legal_moves(), hash_move);
        let ghost ms = moves.remaining();
        let ghost mut i: int = 0;
        loop
            invariant_except_break
                moves.wf(),
                0 <= i <= ms.len(),
                moves.remaining() == ms.subrange(i, ms.len() as int),
                ab_moves(b, ms, 0, alpha, beta, depth as nat, t0, start)
                    == ab_moves(b, ms, i, alpha, beta, depth as nat, transpositions@, result),
                ab_moves(b, ms, i, alpha, beta, depth as nat, transpositions@, result).2,
                result.result_type == AlphaBetaResultType::Empty,
            invariant
                *board == b,
                color == b.state.to_move,
                depth >= 1,
            ensures
                *board == b,
                ab_moves(b, ms, 0, alpha, beta, depth as nat, t0, start) == (result, transpositions@, true),
            decreases ms.len() - i,
        {
            let next = moves.next();
            let m = match next {
                None => {
                    assert(i == ms.len());
                    break;
                },
                Some(m) => m,
            };
            assert(i < ms.len());
            assert(m == ms[i]);
            let change = board.make_move(&m);
            let child_result = Self::search(board, beta, result.score, depth - 1, transpositions);
            board.unmake_move(change);
            proof { crate::rules::board::lemma_unmake_restores(b, m); }
            result.evaluated_nodes = result.evaluated_nodes.wrapping_add(child_result.evaluated_nodes);
            result.cache_hits = result.cache_hits.wrapping_add(child_result.cache_hits);
            result.beta_cutoffs = result.beta_cutoffs.wrapping_add(child_result.beta_cutoffs);
            if is_better(child_result.score, beta, color) {
                result.result_type = AlphaBetaResultType::BetaCutoff;
                result.score = beta;
                result.mov = Some(m);
                result.beta_cutoffs = result.beta_cutoffs.wrapping_add(1);
                break;
            }
            if is_better(child_result.score, result.score, color) {
                result.score = child_result.score;
                result.mov = Some(m);
            }
            proof { i = i + 1; }
        }
        if result.result_type == AlphaBetaResultType::Empty && is_better(result.score, alpha, color) {
            result.result_type = AlphaBetaResultType::Calculated;
        } else {
            result.result_type = AlphaBetaResultType::AlphaFallback;
        }
        transpositions.insert(id, result);
        result
    }
}

// ---------------------------------------------------------------------------
// The search shared between threads
// ---------------------------------------------------------------------------

/// A node of the search that several threads share, as plain values: the board reached by
/// `mov`, the depth left, the bounds, the best move so far, what its finished children cost,
/// whether it is complete, and how many children it has and how many have finished.
#[derive(Copy, Clone)]
pub struct AlphaBetaThreadContext {
    pub board: Board,
    pub mov: Move,
    pub depth_remaining: u8,
    pub alpha: i16,
    pub beta: i16,
    pub best_move: Option<Move>,
    pub evaluated: u32,
    pub transposed: u32,
    pub beta_cutoff: u32,
    pub complete: bool,
    pub child_count: u8,
    pub children_complete: u8,
}

/// What a step of a node asks of the thread that runs it.
pub enum ThreadStep {
    /// Nothing: the node, or one above it, is complete.
    Stop,
    /// The node has finished with this result: record it under the board's hash and report it
    /// to the node above, or to the caller at the root.
    Finish(AlphaBetaResult, Transposition),
    /// Search these children, in this order.
    Expand(Vec<AlphaBetaThreadContext>),
    /// Wait for the other children.
    Wait,
}

/// The record of a node's result, with the depth it was searched to.
pub open spec fn record_of(ctx: AlphaBetaThreadContext, r: AlphaBetaResult) -> Transposition {
    Transposition { result_type: r.result_type, score: r.score, mov: r.mov, depth: ctx.depth_remaining }
}

/// The child a move leads to: one level less deep, with the bounds swapped.
pub open spec fn child_of(ctx: AlphaBetaThreadContext, m: Move) -> AlphaBetaThreadContext {
    AlphaBetaThreadContext {
        board: ctx.board.after_move(m),
        mov: m,
        depth_remaining: (ctx.depth_remaining - 1) as u8,
        alpha: ctx.beta,
        beta: ctx.alpha,
        best_move: None,
        evaluated: 0,
        transposed: 0,
        beta_cutoff: 0,
        complete: false,
        child_count: 0,
        children_complete: 0,
    }
}

/// What the recorded result for a node's position decides at once, if anything.
pub open spec fn table_decision(ctx: AlphaBetaThreadContext, t: Option<Transposition>) -> Option<AlphaBetaResult> {
    match t {
        Some(t) => match transposition_match(ctx.alpha, ctx.beta, ctx.depth_remaining, ctx.board.state.to_move, t) {
            TranspositionMatch::FullMatch(r) => Some(r),
            _ => None,
        },
        None => None,
    }
}

/// The move the recorded result for a node's position has the node try first, if any.
pub open spec fn hash_hint(ctx: AlphaBetaThreadContext, t: Option<Transposition>) -> Option<Move> {
    match t {
        Some(t) => match transposition_match(ctx.alpha, ctx.beta, ctx.depth_remaining, ctx.board.state.to_move, t) {
            TranspositionMatch::BestMove(m) => Some(m),
            _ => None,
        },
        None => None,
    }
}

/// The result of evaluating a node's board.
pub open spec fn evaluated_result(b: Board) -> AlphaBetaResult {
    AlphaBetaResult { result_type: AlphaBetaResultType::Evaluated, score: evaluation(b) as i16, mov: None,
        evaluated_nodes: 1, cache_hits: 0, beta_cutoffs: 0 }
}

/// The nodes whose step runs to its end: a board to evaluate can be evaluated, and the moves
/// of a board to expand can be generated and made, the recorded move first.
pub open spec fn advance_ok(ctx: AlphaBetaThreadContext, t: Option<Transposition>) -> bool {
    table_decision(ctx, t) is None ==> {
        &&& ctx.depth_remaining == 0 ==> evaluation_ok(ctx.board)
        &&& ctx.depth_remaining > 0 ==> {
            &&& ctx.board.can_generate_moves()
            &&& ctx.board.legal_moves().len() == 0 ==> evaluation_ok(ctx.board)
            &&& ctx.board.legal_moves().len() > 0 ==> forall|i: int| 0 <= i < move_order(ctx.board.legal_moves(), hash_hint(ctx, t)).len()
                ==> move_fits_state(ctx.board.state, #[trigger] move_order(ctx.board.legal_moves(), hash_hint(ctx, t))[i])
        }
    }
}

/// What a finished child does to its node: the child is counted; unless the node or one above
/// it is complete, the child's costs are added; a child that beats `beta` finishes the node
/// with a cutoff; a child that beats `alpha` becomes the best; the last child to finish
/// finishes the node with its best score. Gives the node after, and its result if finished.
pub open spec fn child_done(ctx: AlphaBetaThreadContext, r: AlphaBetaResult, m: Move, above_complete: bool)
    -> (AlphaBetaThreadContext, Option<AlphaBetaResult>)
{
    let c1 = AlphaBetaThreadContext { children_complete: ctx.children_complete.wrapping_add(1), ..ctx };
    if ctx.complete || above_complete {
        (c1, None)
    } else {
        let c2 = AlphaBetaThreadContext {
            evaluated: c1.evaluated.wrapping_add(r.evaluated_nodes),
            transposed: c1.transposed.wrapping_add(r.cache_hits),
            beta_cutoff: c1.beta_cutoff.wrapping_add(r.beta_cutoffs),
            ..c1
        };
        let color = ctx.board.state.to_move;
        if better(r.score as int, c2.beta as int, color) {
            (AlphaBetaThreadContext { complete: true, ..c2 }, Some(AlphaBetaResult {
                result_type: AlphaBetaResultType::BetaCutoff, score: c2.beta, mov: Some(m), evaluated_nodes: c2.evaluated,
                cache_hits: c2.transposed, beta_cutoffs: c2.beta_cutoff.wrapping_add(1),
            }))
        } else {
            let c3 = if better(r.score as int, c2.alpha as int, color) {
                AlphaBetaThreadContext { alpha: r.score, best_move: Some(m), ..c2 }
            } else {
                c2
            };
            if c3.children_complete >= c3.child_count {
                (AlphaBetaThreadContext { complete: true, best_move: None, ..c3 }, Some(AlphaBetaResult {
                    result_type: AlphaBetaResultType::Calculated, score: c3.alpha, mov: c3.best_move,
                    evaluated_nodes: c3.evaluated, cache_hits: c3.transposed, beta_cutoffs: c3.beta_cutoff,
                }))
            } else {
                (c3, None)
            }
        }
    }
}

impl AlphaBetaThreadContext {
    /// The root of a search of `board` to `depth`, with the widest bounds.
    pub fn initial(board: Board, depth: u8) -> (c: Self)
        ensures
            c == (AlphaBetaThreadContext {
                board: board, mov: Move::NewGame(NewGame {}), depth_remaining: depth,
                alpha: best_score_of(board.state.to_move.opponent()), beta: best_score_of(board.state.to_move),
                best_move: None, evaluated: 0, transposed: 0, beta_cutoff: 0, complete: false, child_count: 0,
                children_complete: 0,
            }),
    {
        AlphaBetaThreadContext {
            board: board,
            mov: Move::NewGame(NewGame {}),
            depth_remaining: depth,
            alpha: best_score(board.state.get_move_color().swap()),
            beta: best_score(board.state.get_move_color()),
            best_move: None,
            evaluated: 0,
            transposed: 0,
            beta_cutoff: 0,
            complete: false,
            child_count: 0,
            children_complete: 0,
        }
    }

    pub fn is_complete(&self) -> (b: bool)
        ensures
            b == self.complete,
    {
        self.complete
    }

    /// Marks the node complete, and gives the record of its result.
    pub fn finish(&mut self, result: AlphaBetaResult) -> (t: Transposition)
        ensures
            *final(self) == (AlphaBetaThreadContext { complete: true, ..*old(self) }),
            t == record_of(*old(self), result),
    {
        self.complete = true;
        Transposition { result_type: result.result_type, score: result.score, mov: result.mov, depth: self.depth_remaining }
    }

    /// Takes a step: stops when the node or one above it is complete; finishes at once when
    /// the recorded result `transposition` decides, or with the board's evaluation at the last
    /// level or when there is no legal move; otherwise gives the children to search, in the
    /// order the moves are tried.
    pub fn advance(&mut self, transposition: Option<Transposition>, above_complete: bool) -> (step: ThreadStep)
        requires
            !old(self).complete && !above_complete ==> advance_ok(*old(self), transposition),
        ensures
            old(self).complete || above_complete ==> step is Stop && *final(self) == *old(self),
            !old(self).complete && !above_complete ==> match table_decision(*old(self), transposition) {
                Some(r) => step == ThreadStep::Finish(r, record_of(*old(self), r))
                    && *final(self) == (AlphaBetaThreadContext { complete: true, ..*old(self) }),
                None => if old(self).depth_remaining == 0 || old(self).board.legal_moves().len() == 0 {
                    step == ThreadStep::Finish(evaluated_result(old(self).board), record_of(*old(self), evaluated_result(old(self).board)))
                        && *final(self) == (AlphaBetaThreadContext { complete: true, ..*old(self) })
                } else {
                    &&& step matches ThreadStep::Expand(children)
                    &&& children@ == move_order(old(self).board.legal_moves(), hash_hint(*old(self), transposition)).map_values(
                        |m: Move| child_of(*final(self), m))
                    &&& *final(self) == (AlphaBetaThreadContext { child_count: old(self).board.legal_moves().len() as u8, ..*old(self) })
                },
            },
    {
        if self.complete || above_complete {
            return ThreadStep::Stop;
        }
        let mut hash_move: Option<Move> = None;
        if let Some(t) = transposition {
            match process_transposition(self.alpha, self.beta, self.depth_remaining, self.board.state.get_move_color(), &t) {
                TranspositionMatch::FullMatch(r) => {
                    let record = self.finish(r);
                    return ThreadStep::Finish(r, record);
                },
                TranspositionMatch::BestMove(m) => {
                    hash_move = Some(m);
                },
                TranspositionMatch::NoMatch => {},
            }
        }
        if self.depth_remaining == 0 {
            let r = AlphaBetaResult::evaluated(evaluate_board(&self.board));
            let record = self.finish(r);
            return ThreadStep::Finish(r, record);
        }
        let moves = self.board.get_legal_moves();
        if moves.len() == 0 {
            let r = AlphaBetaResult::evaluated(evaluate_board(&self.board));
            let record = self.finish(r);
            return ThreadStep::Finish(r, record);
        }
        self.child_count = moves.len() as u8;
        let ghost node = *self;
        let mut order = MoveOrderIterator::from_moves(moves, hash_move);
        let ghost ms = order.remaining();
        let mut children: Vec<AlphaBetaThreadContext> = Vec::new();
        loop
            invariant_except_break
                order.wf(),
                children@.len() <= ms.len(),
                order.remaining() == ms.subrange(children@.len() as int, ms.len() as int),
            invariant
                *self == node,
                node.depth_remaining > 0,
                ms == move_order(node.board.legal_moves(), hash_hint(node, transposition)),
                forall|i: int| 0 <= i < ms.len() ==> move_fits_state(node.board.state, #[trigger] ms[i]),
                children@ == ms.take(children@.len() as int).map_values(|m: Move| child_of(node, m)),
            ensures
                children@.len() == ms.len(),
            decreases ms.len() - children@.len(),
        {
            let next = order.next();
            let m = match next {
                None => {
                    break;
                },
                Some(m) => m,
            };
            let ghost k = children@.len() as int;
            assert(m == ms[k]);
            let mut new_board = self.board;
            new_board.make_move(&m);
            let ghost before = children@;
            children.push(AlphaBetaThreadContext {
                board: new_board,
                mov: m,
                depth_remaining: self.depth_remaining - 1,
                alpha: self.beta,
                beta: self.alpha,
                best_move: None,
                evaluated: 0,
                transposed: 0,
                beta_cutoff: 0,
                complete: false,
                child_count: 0,
                children_complete: 0,
            });
            assert(ms.take(k + 1) =~= ms.take(k).push(m));
            assert(children@ =~= ms.take(k + 1).map_values(|m: Move| child_of(node, m)));
        }
        assert(ms.take(ms.len() as int) =~= ms);
        ThreadStep::Expand(children)
    }

    /// Takes in the result of the child reached by `child_move`.
    pub fn complete_child(&mut self, result: AlphaBetaResult, child_move: Move, above_complete: bool) -> (step: ThreadStep)
        ensures
            *final(self) == child_done(*old(self), result, child_move, above_complete).0,
            match child_done(*old(self), result, child_move, above_complete).1 {
                Some(r) => step == ThreadStep::Finish(r, record_of(*old(self), r)),
                None => if old(self).complete || above_complete { step is Stop } else { step is Wait },
            },
    {
        self.children_complete = self.children_complete.wrapping_add(1);
        if self.complete || above_complete {
            return ThreadStep::Stop;
        }
        self.evaluated = self.evaluated.wrapping_add(result.evaluated_nodes);
        self.transposed = self.transposed.wrapping_add(result.cache_hits);
        self.beta_cutoff = self.beta_cutoff.wrapping_add(result.beta_cutoffs);
        let color = self.board.state.get_move_color();
        if is_better(result.score, self.beta, color) {
            let r = AlphaBetaResult {
                result_type: AlphaBetaResultType::BetaCutoff,
                score: self.beta,
                mov: Some(child_move),
                evaluated_nodes: self.evaluated,
                cache_hits: self.transposed,
                beta_cutoffs: self.beta_cutoff.wrapping_add(1),
            };
            let record = self.finish(r);
            return ThreadStep::Finish(r, record);
        }
        if is_better(result.score, self.alpha, color) {
            self.alpha = result.score;
            self.best_move = Some(child_move);
        }
        if self.children_complete >= self.child_count {
            let best = self.best_move;
            self.best_move = None;
            let r = AlphaBetaResult {
                result_type: AlphaBetaResultType::Calculated,
                score: self.alpha,
                mov: best,
                evaluated_nodes: self.evaluated,
                cache_hits: self.transposed,
                beta_cutoffs: self.beta_cutoff,
            };
            let record = self.finish(r);
            return ThreadStep::Finish(r, record);
        }
        ThreadStep::Wait
    }
}

/// Hands out the children of a node for the threads: the last child first, ahead of the
/// others, then the others in order.
pub struct ThreadedMoveOrderIterator {
    pub base: Vec<AlphaBetaThreadContext>,
    pub index: usize,
    pub first_move: Option<AlphaBetaThreadContext>,
}

impl ThreadedMoveOrderIterator {
    /// The children still to come, each with the priority of its search.
    pub open spec fn remaining(self) -> Seq<(AlphaBetaSearchPriority, AlphaBetaThreadContext)> {
        (match self.first_move {
            Some(f) => seq![(AlphaBetaSearchPriority::FirstMove, f)],
            None => seq![],
        }) + self.base@.subrange(self.index as int, self.base@.len() as int).map_values(
            |c: AlphaBetaThreadContext| (AlphaBetaSearchPriority::Remainder, c))
    }

    pub open spec fn wf(self) -> bool {
        self.index <= self.base@.len()
    }

    pub fn from_contexts(sorted_contexts: Vec<AlphaBetaThreadContext>) -> (it: Self)
        ensures
            it.wf(),
            sorted_contexts@.len() == 0 ==> it.remaining() == Seq::<(AlphaBetaSearchPriority, AlphaBetaThreadContext)>::empty(),
            sorted_contexts@.len() > 0 ==> it.remaining() == seq![(AlphaBetaSearchPriority::FirstMove, sorted_contexts@.last())]
                + sorted_contexts@.drop_last().map_values(|c: AlphaBetaThreadContext| (AlphaBetaSearchPriority::Remainder, c)),
    {
        let mut base = sorted_contexts;
        let first = base.pop();
        let it = ThreadedMoveOrderIterator { base: base, index: 0, first_move: first };
        assert(it.base@.subrange(0, it.base@.len() as int) =~= it.base@);
        proof {
            if sorted_contexts@.len() == 0 {
                assert(it.remaining() =~= Seq::<(AlphaBetaSearchPriority, AlphaBetaThreadContext)>::empty());
            }
        }
        it
    }

    pub fn next(&mut self) -> (r: Option<(AlphaBetaSearchPriority, AlphaBetaThreadContext)>)
        requires
            old(self).wf(),
        ensures
            final(self).wf(),
            old(self).remaining().len() == 0 ==> r is None && final(self).remaining().len() == 0,
            old(self).remaining().len() > 0 ==> r == Some(old(self).remaining()[0])
                && final(self).remaining() == old(self).remaining().subrange(1, old(self).remaining().len() as int),
    {
        if let Some(first) = self.first_move {
            self.first_move = None;
            assert(self.remaining() =~= old(self).remaining().subrange(1, old(self).remaining().len() as int));
            return Some((AlphaBetaSearchPriority::FirstMove, first));
        }
        if self.index >= self.base.len() {
            assert(old(self).remaining() =~= Seq::<(AlphaBetaSearchPriority, AlphaBetaThreadContext)>::empty());
            return None;
        }
        let c = self.base[self.index];
        self.index += 1;
        assert(self.remaining() =~= old(self).remaining().subrange(1, old(self).remaining().len() as int));
        Some((AlphaBetaSearchPriority::Remainder, c))
    }
}

} // verus!
