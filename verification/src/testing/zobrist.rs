use vstd::prelude::*;
use std::collections::{HashMap, HashSet};
use std::time::{Duration, Instant};

use crate::engine::{elapsed_since, now};
use crate::interface::arguments::texts;
use crate::rules::board::{Board, fen_of, move_fits_state};
use crate::rules::pieces::movement::{Move, NewGame};
use crate::util::push_char;

verus! {

broadcast use vstd::std_specs::hash::group_hash_axioms;

/// Two positions written differently that have the same hash: the move that led to the second,
/// the two position texts, and the hash.
#[derive(Clone)]
pub struct Collision {
    pub cause: Move,
    pub fen_1: String,
    pub fen_2: String,
    pub hash: u64,
}

/// A collision as plain values.
pub open spec fn collision_view(c: Collision) -> (Move, Seq<char>, Seq<char>, u64) {
    (c.cause, c.fen_1@, c.fen_2@, c.hash)
}

/// The text that tells positions apart: the board's FEN text without its last four characters
/// (where the move counters stand).
pub open spec fn position_key(b: Board) -> Seq<char> {
    fen_of(b).subrange(0, fen_of(b).len() - 4)
}

/// What a collision test has recorded: the positions checked, the hashes met again, the
/// collisions, the memory counted, the hashes that collided, the texts seen under each hash
/// (in the order first seen), and the collisions found.
pub struct CollisionState {
    pub positions: u32,
    pub matches: u32,
    pub collisions: u32,
    pub memory: u64,
    pub hashes: Set<u64>,
    pub boards: Map<u64, Seq<Seq<char>>>,
    pub found: Seq<(Move, Seq<char>, Seq<char>, u64)>,
}

/// A test that has recorded nothing.
pub open spec fn empty_state() -> CollisionState {
    CollisionState {
        positions: 0,
        matches: 0,
        collisions: 0,
        memory: 0,
        hashes: Set::empty(),
        boards: Map::empty(),
        found: Seq::empty(),
    }
}

/// Records one position, reached by `mov`, with the text `key` and the hash `h`: a hash met
/// before is a match; it is a collision when the text is new under that hash, or when the
/// hash holds several texts already; a new text is kept, and the memory counts eight bytes
/// for each new hash and the length of each new text.
pub open spec fn process_spec(c: CollisionState, key: Seq<char>, h: u64, mov: Move) -> CollisionState {
    let positions = c.positions.wrapping_add(1);
    if c.boards.contains_key(h) {
        let fens = c.boards[h];
        let collides = !fens.contains(key) || fens.len() > 1;
        let collisions = if collides { c.collisions.wrapping_add(1) } else { c.collisions };
        let found = if collides { c.found.push((mov, key, fens[0], h)) } else { c.found };
        let new_hash = collides && !c.hashes.contains(h);
        let hashes = if collides { c.hashes.insert(h) } else { c.hashes };
        let memory1 = if new_hash { c.memory.wrapping_add(8) } else { c.memory };
        let memory = if !fens.contains(key) { memory1.wrapping_add(key.len() as u64) } else { memory1 };
        let boards = if !fens.contains(key) { c.boards.insert(h, fens.push(key)) } else { c.boards };
        CollisionState {
            positions: positions,
            matches: c.matches.wrapping_add(1),
            collisions: collisions,
            memory: memory,
            hashes: hashes,
            boards: boards,
            found: found,
        }
    } else {
        CollisionState {
            positions: positions,
            boards: c.boards.insert(h, seq![key]),
            memory: c.memory.wrapping_add(8).wrapping_add(key.len() as u64),
            ..c
        }
    }
}

/// The test from a board reached by `last`, `depth` levels deep: the board is recorded; then,
/// unless a collision has been found or no level is left, the boards its legal moves lead to
/// are tested in turn, one level less deep.
pub open spec fn walk(c: CollisionState, b: Board, last: Move, depth: nat) -> CollisionState
    decreases depth, 1int, 0int,
{
    let c1 = process_spec(c, position_key(b), b.zobrist@, last);
    if c1.collisions > 0 || depth == 0 {
        c1
    } else {
        walk_children(c1, b, b.legal_moves(), b.legal_moves().len() as int, depth)
    }
}

/// The test of the boards the first `n` moves lead to, in turn.
pub open spec fn walk_children(c: CollisionState, b: Board, ms: Seq<Move>, n: int, depth: nat) -> CollisionState
    decreases depth, 0int, n,
{
    if n <= 0 || n > ms.len() || depth == 0 {
        c
    } else {
        walk(walk_children(c, b, ms, n - 1, depth), b.after_move(ms[n - 1]), ms[n - 1], (depth - 1) as nat)
    }
}

/// Every position recorded counts one more position; a hash met for the first time is no
/// match and no collision, and keeps the position's text; a hash met again is a match.
pub proof fn lemma_process_counts(c: CollisionState, key: Seq<char>, h: u64, mov: Move)
    ensures
        process_spec(c, key, h, mov).positions == c.positions.wrapping_add(1),
        !c.boards.contains_key(h) ==> {
            &&& process_spec(c, key, h, mov).matches == c.matches
            &&& process_spec(c, key, h, mov).collisions == c.collisions
            &&& process_spec(c, key, h, mov).found == c.found
            &&& process_spec(c, key, h, mov).boards == c.boards.insert(h, seq![key])
        },
        c.boards.contains_key(h) ==> process_spec(c, key, h, mov).matches == c.matches.wrapping_add(1),
{
}

/// A position met again under its hash, when that hash holds its text and no other, is a
/// transposition: a match, and no collision is recorded. A new text under a hash already
/// recorded is a collision, recorded with the two different texts.
pub proof fn lemma_transposition_is_not_collision(c: CollisionState, key: Seq<char>, h: u64, mov: Move)
    requires
        c.boards.contains_key(h),
    ensures
        c.boards[h] == seq![key] ==> {
            &&& process_spec(c, key, h, mov).matches == c.matches.wrapping_add(1)
            &&& process_spec(c, key, h, mov).collisions == c.collisions
            &&& process_spec(c, key, h, mov).found == c.found
            &&& process_spec(c, key, h, mov).boards == c.boards
        },
        !c.boards[h].contains(key) ==> {
            &&& process_spec(c, key, h, mov).collisions == c.collisions.wrapping_add(1)
            &&& process_spec(c, key, h, mov).found.len() == c.found.len() + 1
            &&& process_spec(c, key, h, mov).found.last().1 == key
            &&& (c.boards[h].len() > 0 ==> process_spec(c, key, h, mov).found.last().2 != key)
        },
{
    let fens = c.boards[h];
    if fens == seq![key] {
        assert(fens.contains(key)) by { assert(fens[0] == key); }
    }
    if !fens.contains(key) && fens.len() > 0 {
        assert(fens[0] != key) by {
            if fens[0] == key { assert(fens.contains(key)); }
        }
    }
}

/// What a test keeps until its first collision: until one is found every hash holds a single
/// text, and the first collision found pairs two different texts.
spec fn walk_inv(c: CollisionState) -> bool {
    &&& c.found.len() == 0 ==> forall|h: u64| #[trigger] c.boards.contains_key(h) ==> c.boards[h].len() == 1
    &&& c.found.len() > 0 ==> c.found[0].1 != c.found[0].2
}

proof fn lemma_process_keeps(c: CollisionState, key: Seq<char>, h: u64, mov: Move)
    requires
        walk_inv(c),
    ensures
        walk_inv(process_spec(c, key, h, mov)),
{
    let r = process_spec(c, key, h, mov);
    if c.boards.contains_key(h) {
        let fens = c.boards[h];
        if c.found.len() == 0 {
            assert(fens.len() == 1);
            if fens.contains(key) {
                let j = choose|j: int| 0 <= j < fens.len() && fens[j] == key;
                assert(fens[0] == key);
                assert(r.found == c.found);
                assert(r.boards == c.boards);
            } else {
                assert(fens[0] != key) by {
                    if fens[0] == key { assert(fens.contains(key)); }
                }
                assert(r.found == c.found.push((mov, key, fens[0], h)));
                assert(r.found[0] == (mov, key, fens[0], h));
            }
        } else {
            if !fens.contains(key) || fens.len() > 1 {
                assert(r.found[0] == c.found[0]);
            }
        }
    } else {
        assert forall|g: u64| #[trigger] r.boards.contains_key(g) && r.found.len() == 0 implies r.boards[g].len() == 1 by {
            if g != h {
                assert(c.boards.contains_key(g));
            }
        }
    }
}

proof fn lemma_walk_keeps(c: CollisionState, b: Board, last: Move, depth: nat)
    requires
        walk_inv(c),
    ensures
        walk_inv(walk(c, b, last, depth)),
    decreases depth, 1int, 0int,
{
    lemma_process_keeps(c, position_key(b), b.zobrist@, last);
    let c1 = process_spec(c, position_key(b), b.zobrist@, last);
    if !(c1.collisions > 0 || depth == 0) {
        lemma_walk_children_keeps(c1, b, b.legal_moves(), b.legal_moves().len() as int, depth);
    }
}

proof fn lemma_walk_children_keeps(c: CollisionState, b: Board, ms: Seq<Move>, n: int, depth: nat)
    requires
        walk_inv(c),
    ensures
        walk_inv(walk_children(c, b, ms, n, depth)),
    decreases depth, 0int, n,
{
    if !(n <= 0 || n > ms.len() || depth == 0) {
        lemma_walk_children_keeps(c, b, ms, n - 1, depth);
        lemma_walk_keeps(walk_children(c, b, ms, n - 1, depth), b.after_move(ms[n - 1]), ms[n - 1], (depth - 1) as nat);
    }
}

/// The first collision a test from scratch reports pairs two different position texts: a
/// position met again with the same text is never the first collision.
pub proof fn lemma_first_collision_differs(b: Board, last: Move, depth: nat)
    ensures
        walk(empty_state(), b, last, depth).found.len() > 0
            ==> walk(empty_state(), b, last, depth).found[0].1 != walk(empty_state(), b, last, depth).found[0].2,
{
    lemma_walk_keeps(empty_state(), b, last, depth);
}

/// The boards on which a test to `depth` can run: above the last level the moves can be
/// generated and made, and each board they lead to can be tested one level less deep.
pub open spec fn walk_ok(b: Board, depth: nat) -> bool
    decreases depth,
{
    depth > 0 ==> {
        &&& b.can_generate_moves()
        &&& forall|i: int| 0 <= i < b.legal_moves().len() ==> move_fits_state(b.state, #[trigger] b.legal_moves()[i])
        &&& forall|i: int| 0 <= i < b.legal_moves().len() ==> walk_ok(b.after_move(#[trigger] b.legal_moves()[i]), (depth - 1) as nat)
    }
}

/// The running record of a collision test.
pub struct ZobristCollisionTestContext {
    positions_checked: u32,
    hash_matches_detected: u32,
    collisions_detected: u32,
    start: Option<Instant>,
    memory_used: u64,
    collision_hashes: HashSet<u64>,
    all_boards: HashMap<u64, Vec<String>>,
    collisions: Vec<Collision>,
}

impl ZobristCollisionTestContext {
    /// What the test has recorded.
    pub closed spec fn state(self) -> CollisionState {
        CollisionState {
            positions: self.positions_checked,
            matches: self.hash_matches_detected,
            collisions: self.collisions_detected,
            memory: self.memory_used,
            hashes: self.collision_hashes@,
            boards: self.all_boards@.map_values(|v: Vec<String>| texts(v@)),
            found: self.collisions@.map_values(|c: Collision| collision_view(c)),
        }
    }

    /// Whether the test has been started.
    pub closed spec fn started(self) -> bool {
        self.start is Some
    }

    /// Every hash recorded holds a text.
    pub closed spec fn wf(self) -> bool {
        forall|h: u64| #[trigger] self.all_boards@.contains_key(h) ==> self.all_boards@[h]@.len() > 0
    }

    /// Starts the clock.
    pub fn init(&mut self)
        ensures
            final(self).started(),
            final(self).state() == old(self).state(),
            final(self).wf() == old(self).wf(),
    {
        self.start = Some(now());
    }

    pub fn has_collision(&self) -> (b: bool)
        ensures
            b == (self.state().collisions > 0),
    {
        self.collisions_detected > 0
    }

    /// Records a board reached by `mov`.
    pub fn process(&mut self, board: Board, mov: Move)
        requires
            old(self).wf(),
        ensures
            final(self).wf(),
            final(self).started() == old(self).started(),
            final(self).state() == process_spec(old(self).state(), position_key(board), board.zobrist@, mov),
    {
        let ghost c = self.state();
        self.positions_checked = self.positions_checked.wrapping_add(1);
        let full = board.to_fen();
        let (fen, mem_size) = without_counters(&full);
        let hash = board.zobrist.get_id();
        match self.all_boards.remove(&hash) {
            Some(mut fens) => {
                self.hash_matches_detected = self.hash_matches_detected.wrapping_add(1);
                let present = contains_text(&fens, &fen);
                if !present || fens.len() > 1 {
                    let ghost before = self.collisions@;
                    self.collisions.push(Collision { cause: mov, fen_1: fen.clone(), fen_2: fens[0].clone(), hash: hash });
                    assert(self.collisions@.map_values(|c: Collision| collision_view(c))
                        =~= before.map_values(|c: Collision| collision_view(c)).push((mov, fen@, texts(fens@)[0], hash)));
                    self.collisions_detected = self.collisions_detected.wrapping_add(1);
                    if self.collision_hashes.insert(hash) {
                        self.memory_used = self.memory_used.wrapping_add(8);
                    }
                }
                if !present {
                    let ghost prior = fens@;
                    fens.push(fen);
                    assert(texts(fens@) =~= texts(prior).push(full@.subrange(0, full@.len() - 4)));
                    self.memory_used = self.memory_used.wrapping_add(mem_size);
                }
                self.all_boards.insert(hash, fens);
            },
            None => {
                let v = vec![fen];
                assert(texts(v@) =~= seq![full@.subrange(0, full@.len() - 4)]);
                self.all_boards.insert(hash, v);
                self.memory_used = self.memory_used.wrapping_add(8);
                self.memory_used = self.memory_used.wrapping_add(mem_size);
            },
        }
        proof {
            assert(self.state().boards =~= process_spec(c, position_key(board), board.zobrist@, mov).boards);
        }
    }

    /// The result of the test.
    pub fn complete(&self) -> (r: ZobristCollisionTestResult)
        requires
            self.started(),
        ensures
            result_of(r, self.state()),
    {
        let mut pairs: Vec<Collision> = Vec::new();
        let mut i: usize = 0;
        while i < self.collisions.len()
            invariant
                i <= self.collisions@.len(),
                pairs@.map_values(|c: Collision| collision_view(c)) == self.collisions@.map_values(|c: Collision| collision_view(c)).take(i as int),
            decreases self.collisions@.len() - i,
        {
            let c = &self.collisions[i];
            let ghost before = pairs@;
            pairs.push(Collision { cause: c.cause, fen_1: c.fen_1.clone(), fen_2: c.fen_2.clone(), hash: c.hash });
            assert(pairs@.map_values(|c: Collision| collision_view(c)) =~= before.map_values(|c: Collision| collision_view(c)).push(
                collision_view(self.collisions@[i as int])));
            assert(self.collisions@.map_values(|c: Collision| collision_view(c)).take(i + 1) =~= self.collisions@.map_values(
                |c: Collision| collision_view(c)).take(i as int).push(collision_view(self.collisions@[i as int])));
            i += 1;
        }
        assert(self.collisions@.map_values(|c: Collision| collision_view(c)).take(self.collisions@.len() as int)
            =~= self.collisions@.map_values(|c: Collision| collision_view(c)));
        let duration = match &self.start {
            Some(s) => elapsed_since(s),
            None => elapsed_since(&now()),
        };
        ZobristCollisionTestResult {
            positions_checked: self.positions_checked,
            hash_matches: self.hash_matches_detected,
            transpositions: self.hash_matches_detected.wrapping_sub(self.collisions_detected),
            collisions: self.collisions_detected,
            collided_hash_count: self.collision_hashes.len() as u32,
            duration: duration,
            memory_size: self.memory_used,
            collision_pairs: pairs,
        }
    }
}

impl Default for ZobristCollisionTestContext {
    fn default() -> (c: Self)
        ensures
            c.state() == empty_state(),
            c.wf(),
            !c.started(),
    {
        let c = ZobristCollisionTestContext {
            positions_checked: 0,
            hash_matches_detected: 0,
            collisions_detected: 0,
            start: None,
            memory_used: 0,
            collision_hashes: HashSet::new(),
            all_boards: HashMap::new(),
            collisions: Vec::new(),
        };
        assert(c.state().boards =~= Map::<u64, Seq<Seq<char>>>::empty());
        assert(c.state().found =~= Seq::<(Move, Seq<char>, Seq<char>, u64)>::empty());
        c
    }
}

/// A text without its last four characters, and the length of what is left.
fn without_counters(full: &String) -> (r: (String, u64))
    requires
        full@.len() >= 4,
    ensures
        r.0@ == full@.subrange(0, full@.len() - 4),
        r.1 == full@.len() - 4,
{
    let s = full.as_str();
    let n = s.unicode_len() - 4;
    let mut out = String::new();
    let mut i: usize = 0;
    while i < n
        invariant
            n == full@.len() - 4,
            i <= n,
            out@ == full@.subrange(0, i as int),
            s@ == full@,
        decreases n - i,
    {
        push_char(&mut out, s.get_char(i));
        assert(full@.subrange(0, i + 1) =~= full@.subrange(0, i as int).push(full@[i as int]));
        i += 1;
    }
    (out, n as u64)
}

/// Whether a list of texts holds a text.
fn contains_text(v: &Vec<String>, t: &String) -> (b: bool)
    ensures
        b == texts(v@).contains(t@),
{
    let mut i: usize = 0;
    while i < v.len()
        invariant
            i <= v@.len(),
            forall|j: int| 0 <= j < i ==> (#[trigger] v@[j])@ != t@,
        decreases v@.len() - i,
    {
        if v[i] == *t {
            assert(texts(v@)[i as int] == t@);
            return true;
        }
        i += 1;
    }
    assert forall|j: int| 0 <= j < texts(v@).len() implies texts(v@)[j] != t@ by {
        assert(texts(v@)[j] == v@[j]@);
    }
    false
}

/// The result of a collision test.
pub struct ZobristCollisionTestResult {
    pub positions_checked: u32,
    pub hash_matches: u32,
    pub transpositions: u32,
    pub collisions: u32,
    pub collided_hash_count: u32,
    pub duration: Duration,
    pub memory_size: u64,
    pub collision_pairs: Vec<Collision>,
}

/// Whether a result reports what a test recorded: the hash matches that are not collisions are
/// transpositions, and the duration is not told.
pub open spec fn result_of(r: ZobristCollisionTestResult, s: CollisionState) -> bool {
    &&& r.positions_checked == s.positions
    &&& r.hash_matches == s.matches
    &&& r.transpositions == s.matches.wrapping_sub(s.collisions)
    &&& r.collisions == s.collisions
    &&& r.collided_hash_count == s.hashes.len() as u32
    &&& r.memory_size == s.memory
    &&& r.collision_pairs@.map_values(|c: Collision| collision_view(c)) == s.found
}

/// Searches the positions reachable from a board for two that share a hash.
pub struct ZobristCollisionTester {}

impl ZobristCollisionTester {
    /// Tests the positions up to `depth` moves from `board`.
    pub fn do_test(board: Board, depth: u8) -> (r: ZobristCollisionTestResult)
        requires
            walk_ok(board, depth as nat),
        ensures
            result_of(r, walk(empty_state(), board, Move::NewGame(NewGame {}), depth as nat)),
    {
        let mut ctx: ZobristCollisionTestContext = ZobristCollisionTestContext::default();
        ctx.init();
        Self::collision_test(board, Move::NewGame(NewGame {}), depth, &mut ctx);
        ctx.complete()
    }

    /// Tests a board reached by `last_move`, and the boards below it.
    pub fn collision_test(board: Board, last_move: Move, depth: u8, ctx: &mut ZobristCollisionTestContext)
        requires
            old(ctx).wf(),
            walk_ok(board, depth as nat),
        ensures
            final(ctx).wf(),
            final(ctx).started() == old(ctx).started(),
            final(ctx).state() == walk(old(ctx).state(), board, last_move, depth as nat),
        decreases depth,
    {
        ctx.process(board, last_move);
        if ctx.has_collision() {
            return;
        }
        if depth == 0 {
            return;
        }
        let moves = board.get_legal_moves();
        let ghost c1 = ctx.state();
        let ghost ms = moves@;
        let mut i: usize = 0;
        while i < moves.len()
            invariant
                i <= ms.len(),
                ms == moves@,
                ms == board.legal_moves(),
                depth >= 1,
                walk_ok(board, depth as nat),
                ctx.wf(),
                ctx.started() == old(ctx).started(),
                ctx.state() == walk_children(c1, board, ms, i as int, depth as nat),
            decreases ms.len() - i,
        {
            let mov = moves[i];
            assert(move_fits_state(board.state, ms[i as int]));
            assert(walk_ok(board.after_move(ms[i as int]), (depth - 1) as nat));
            let mut new_board = board;
            new_board.make_move(&mov);
            Self::collision_test(new_board, mov, depth - 1, ctx);
            i += 1;
        }
    }
}

} // verus!
