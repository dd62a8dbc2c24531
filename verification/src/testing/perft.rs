use vstd::prelude::*;
use num_format::{Locale, ToFormattedString};

use crate::rules::board::{Board, move_fits_state};
use crate::rules::pieces::PieceType;
use crate::rules::pieces::movement::{Move, NewGame, move_capture};
use crate::util::fen::digit_char;

verus! {

// ---------------------------------------------------------------------------
// Counts
// ---------------------------------------------------------------------------

/// The counts of one level of a perft: boards reached, and of those the ones reached by a
/// capture, an en passant capture, a castling or a promotion, and the ones in check.
#[derive(Copy, Clone, PartialEq, Eq, Structural)]
pub struct LevelPerft {
    pub size: u32,
    pub captures: u32,
    pub en_passants: u32,
    pub castles: u32,
    pub promotions: u32,
    pub checks: u32,
}

/// A level with every count zero.
pub open spec fn zero_level() -> LevelPerft {
    LevelPerft { size: 0, captures: 0, en_passants: 0, castles: 0, promotions: 0, checks: 0 }
}

impl Default for LevelPerft {
    fn default() -> (l: Self)
        ensures
            l == zero_level(),
    {
        LevelPerft { size: 0, captures: 0, en_passants: 0, castles: 0, promotions: 0, checks: 0 }
    }
}

/// The counts of two levels added, each wrapping around.
pub open spec fn added(a: LevelPerft, b: LevelPerft) -> LevelPerft {
    LevelPerft {
        size: a.size.wrapping_add(b.size),
        captures: a.captures.wrapping_add(b.captures),
        en_passants: a.en_passants.wrapping_add(b.en_passants),
        castles: a.castles.wrapping_add(b.castles),
        promotions: a.promotions.wrapping_add(b.promotions),
        checks: a.checks.wrapping_add(b.checks),
    }
}

impl LevelPerft {
    pub fn merge(&mut self, other: &Self)
        ensures
            *final(self) == added(*old(self), *other),
    {
        self.size = self.size.wrapping_add(other.size);
        self.captures = self.captures.wrapping_add(other.captures);
        self.en_passants = self.en_passants.wrapping_add(other.en_passants);
        self.castles = self.castles.wrapping_add(other.castles);
        self.promotions = self.promotions.wrapping_add(other.promotions);
        self.checks = self.checks.wrapping_add(other.checks);
    }
}

/// The count that an increment adds to.
#[derive(Copy, Clone, PartialEq, Eq, Structural)]
enum PerftType {
    Size,
    Captures,
    EnPassants,
    Castles,
    Promotions,
    Checks,
}

/// A level with one count one more.
spec fn bumped(l: LevelPerft, t: PerftType) -> LevelPerft {
    match t {
        PerftType::Size => LevelPerft { size: l.size.wrapping_add(1), ..l },
        PerftType::Captures => LevelPerft { captures: l.captures.wrapping_add(1), ..l },
        PerftType::EnPassants => LevelPerft { en_passants: l.en_passants.wrapping_add(1), ..l },
        PerftType::Castles => LevelPerft { castles: l.castles.wrapping_add(1), ..l },
        PerftType::Promotions => LevelPerft { promotions: l.promotions.wrapping_add(1), ..l },
        PerftType::Checks => LevelPerft { checks: l.checks.wrapping_add(1), ..l },
    }
}

/// The levels made at least `n` long with zero levels.
pub open spec fn padded(ls: Seq<LevelPerft>, n: int) -> Seq<LevelPerft> {
    if ls.len() >= n {
        ls
    } else {
        ls + Seq::new((n - ls.len()) as nat, |i: int| zero_level())
    }
}

/// The level at `i`, a zero level past the end.
pub open spec fn level_or_zero(ls: Seq<LevelPerft>, i: int) -> LevelPerft {
    if 0 <= i < ls.len() { ls[i] } else { zero_level() }
}

/// Two lists of levels added level by level.
pub open spec fn merged(a: Seq<LevelPerft>, b: Seq<LevelPerft>) -> Seq<LevelPerft> {
    Seq::new(if a.len() >= b.len() { a.len() } else { b.len() }, |i: int| added(level_or_zero(a, i), level_or_zero(b, i)))
}

/// The analysis of a perft, one level for each depth left.
pub struct Perft {
    levels: Vec<LevelPerft>,
}

impl View for Perft {
    type V = Seq<LevelPerft>;

    closed spec fn view(&self) -> Seq<LevelPerft> {
        self.levels@
    }
}

/// The levels with the counts of level `level` that `s`, `c`, `e`, `k`, `p`, `x` say to
/// increase (size, captures, en passant captures, castlings, promotions, checks) one more.
pub open spec fn counted(ls: Seq<LevelPerft>, level: int, s: bool, c: bool, e: bool, k: bool, p: bool, x: bool) -> Seq<LevelPerft> {
    let q = padded(ls, level + 1);
    let l = q[level];
    q.update(level, LevelPerft {
        size: if s { l.size.wrapping_add(1) } else { l.size },
        captures: if c { l.captures.wrapping_add(1) } else { l.captures },
        en_passants: if e { l.en_passants.wrapping_add(1) } else { l.en_passants },
        castles: if k { l.castles.wrapping_add(1) } else { l.castles },
        promotions: if p { l.promotions.wrapping_add(1) } else { l.promotions },
        checks: if x { l.checks.wrapping_add(1) } else { l.checks },
    })
}

impl Default for Perft {
    fn default() -> (p: Self)
        ensures
            p@ == Seq::<LevelPerft>::empty(),
    {
        Perft { levels: Vec::new() }
    }
}

impl Perft {
    fn create_and_increment(&mut self, level: u8, analysis_type: PerftType)
        ensures
            final(self)@ == padded(old(self)@, level + 1).update(level as int, bumped(padded(old(self)@, level + 1)[level as int], analysis_type)),
    {
        while self.levels.len() <= level as usize
            invariant
                self.levels@.len() <= level + 1 ==> self.levels@ == padded(old(self)@, self.levels@.len() as int),
                self.levels@.len() > level + 1 ==> self.levels@ == old(self)@,
                old(self)@.len() >= level + 1 ==> self.levels@ == old(self)@,
                old(self)@.len() < level + 1 ==> self.levels@.len() <= level + 1,
            decreases level + 1 - self.levels@.len(),
        {
            let ghost before = self.levels@;
            self.levels.push(LevelPerft::default());
            assert(padded(old(self)@, self.levels@.len() as int) =~= before.push(zero_level()));
        }
        assert(self.levels@ =~= padded(old(self)@, level + 1));
        let l = level as usize;
        let mut lp = self.levels[l];
        match analysis_type {
            PerftType::Size => lp.size = lp.size.wrapping_add(1),
            PerftType::Captures => lp.captures = lp.captures.wrapping_add(1),
            PerftType::EnPassants => lp.en_passants = lp.en_passants.wrapping_add(1),
            PerftType::Castles => lp.castles = lp.castles.wrapping_add(1),
            PerftType::Promotions => lp.promotions = lp.promotions.wrapping_add(1),
            PerftType::Checks => lp.checks = lp.checks.wrapping_add(1),
        };
        self.levels.set(l, lp);
    }

    pub fn increment_size(&mut self, level: u8)
        ensures
            final(self)@ == counted(old(self)@, level as int, true, false, false, false, false, false),
    {
        self.create_and_increment(level, PerftType::Size);
        assert(self@ =~= counted(old(self)@, level as int, true, false, false, false, false, false));
    }

    pub fn increment_captures(&mut self, level: u8)
        ensures
            final(self)@ == counted(old(self)@, level as int, false, true, false, false, false, false),
    {
        self.create_and_increment(level, PerftType::Captures);
        assert(self@ =~= counted(old(self)@, level as int, false, true, false, false, false, false));
    }

    pub fn increment_checks(&mut self, level: u8)
        ensures
            final(self)@ == counted(old(self)@, level as int, false, false, false, false, false, true),
    {
        self.create_and_increment(level, PerftType::Checks);
        assert(self@ =~= counted(old(self)@, level as int, false, false, false, false, false, true));
    }

    pub fn increment_en_passants(&mut self, level: u8)
        ensures
            final(self)@ == counted(old(self)@, level as int, false, false, true, false, false, false),
    {
        self.create_and_increment(level, PerftType::EnPassants);
        assert(self@ =~= counted(old(self)@, level as int, false, false, true, false, false, false));
    }

    pub fn increment_promotions(&mut self, level: u8)
        ensures
            final(self)@ == counted(old(self)@, level as int, false, false, false, false, true, false),
    {
        self.create_and_increment(level, PerftType::Promotions);
        assert(self@ =~= counted(old(self)@, level as int, false, false, false, false, true, false));
    }

    pub fn increment_castles(&mut self, level: u8)
        ensures
            final(self)@ == counted(old(self)@, level as int, false, false, false, true, false, false),
    {
        self.create_and_increment(level, PerftType::Castles);
        assert(self@ =~= counted(old(self)@, level as int, false, false, false, true, false, false));
    }

    /// The levels, from the deepest level left down to the last.
    pub fn levels(&self) -> (ls: Vec<LevelPerft>)
        ensures
            ls@ == self@,
    {
        self.levels.clone()
    }

    pub fn get_analysis(&self) -> (a: Vec<PrintablePerft>)
        ensures
            a@.len() == self@.len(),
            forall|i: int| 0 <= i < a@.len() ==> #[trigger] a@[i].shows(self@[self@.len() - 1 - i]),
    {
        let mut analysis: Vec<PrintablePerft> = Vec::new();
        let mut k: usize = self.levels.len();
        while k > 0
            invariant
                k <= self@.len(),
                analysis@.len() == self@.len() - k,
                forall|i: int| 0 <= i < analysis@.len() ==> #[trigger] analysis@[i].shows(self@[self@.len() - 1 - i]),
            decreases k,
        {
            k -= 1;
            analysis.push(PrintablePerft::from_level(&self.levels[k]));
        }
        analysis
    }

    pub fn merge(&mut self, other: &Self)
        ensures
            final(self)@ == merged(old(self)@, other@),
    {
        while self.levels.len() < other.levels.len()
            invariant
                self.levels@ == padded(old(self)@, self.levels@.len() as int),
                old(self)@.len() <= self.levels@.len(),
                self.levels@.len() <= other.levels@.len() || self.levels@ == old(self)@,
            decreases other.levels@.len() - self.levels@.len(),
        {
            let ghost before = self.levels@;
            self.levels.push(LevelPerft::default());
            assert(padded(old(self)@, self.levels@.len() as int) =~= before.push(zero_level()));
        }
        let ghost base = self.levels@;
        let mut i: usize = 0;
        while i < self.levels.len()
            invariant
                base == padded(old(self)@, base.len() as int),
                base.len() >= old(self)@.len(),
                base.len() >= other.levels@.len(),
                base.len() == if old(self)@.len() >= other@.len() { old(self)@.len() } else { other@.len() },
                self.levels@.len() == base.len(),
                i <= base.len(),
                forall|j: int| 0 <= j < i ==> #[trigger] self.levels@[j] == added(level_or_zero(old(self)@, j), level_or_zero(other@, j)),
                forall|j: int| i <= j < base.len() ==> #[trigger] self.levels@[j] == base[j],
            decreases base.len() - i,
        {
            let mut lp = self.levels[i];
            let o = if i < other.levels.len() { other.levels[i] } else { LevelPerft::default() };
            assert(lp == level_or_zero(old(self)@, i as int));
            lp.merge(&o);
            self.levels.set(i, lp);
            i += 1;
        }
        assert(self@ =~= merged(old(self)@, other@));
    }
}

// ---------------------------------------------------------------------------
// Printing
// ---------------------------------------------------------------------------

/// The decimal digits of a number, without leading zeros.
pub open spec fn decimal_text(n: nat) -> Seq<char>
    decreases n,
{
    if n < 10 {
        seq![digit_char(n as int)]
    } else {
        decimal_text(n / 10).push(digit_char((n % 10) as int))
    }
}

/// Three decimal digits of a number below a thousand, with leading zeros.
pub open spec fn three_digits(n: nat) -> Seq<char> {
    seq![digit_char((n / 100) as int), digit_char(((n / 10) % 10) as int), digit_char((n % 10) as int)]
}

/// The decimal digits of a number in groups of three, separated by commas.
pub open spec fn grouped_decimal(n: nat) -> Seq<char>
    decreases n,
{
    if n < 1000 {
        decimal_text(n)
    } else {
        grouped_decimal(n / 1000) + seq![','] + three_digits(n % 1000)
    }
}

/// A count written as `num_format`'s `to_formatted_string` writes a `u32` with the English
/// locale: its decimal digits in groups of three, separated by commas.
#[verifier::external_body]
fn formatted_count(n: u32) -> (s: String)
    ensures
        s@ == grouped_decimal(n as nat),
{
    n.to_formatted_string(&Locale::en)
}

/// The counts of a level, written for a table.
pub struct PrintablePerft {
    pub size: String,
    pub captures: String,
    pub en_passants: String,
    pub castles: String,
    pub promotions: String,
    pub checks: String,
}

impl PrintablePerft {
    /// Whether this writes the counts of the level.
    pub open spec fn shows(self, level: LevelPerft) -> bool {
        &&& self.size@ == grouped_decimal(level.size as nat)
        &&& self.captures@ == grouped_decimal(level.captures as nat)
        &&& self.en_passants@ == grouped_decimal(level.en_passants as nat)
        &&& self.castles@ == grouped_decimal(level.castles as nat)
        &&& self.promotions@ == grouped_decimal(level.promotions as nat)
        &&& self.checks@ == grouped_decimal(level.checks as nat)
    }

    pub fn from_level(level: &LevelPerft) -> (p: Self)
        ensures
            p.shows(*level),
    {
        PrintablePerft {
            size: formatted_count(level.size),
            captures: formatted_count(level.captures),
            en_passants: formatted_count(level.en_passants),
            castles: formatted_count(level.castles),
            promotions: formatted_count(level.promotions),
            checks: formatted_count(level.checks),
        }
    }
}

// ---------------------------------------------------------------------------
// Running a perft
// ---------------------------------------------------------------------------

/// A board to count from, the move that led to it and the depth left.
#[derive(Copy, Clone)]
pub struct PerftContext {
    pub board: Board,
    pub last_move: Move,
    pub depth: u8,
}

impl PerftContext {
    pub fn clone_from_move(&self, mov: &Move) -> (c: Self)
        requires
            move_fits_state(self.board.state, *mov),
            self.depth >= 1,
        ensures
            c.board == self.board.after_move(*mov),
            c.last_move == *mov,
            c.depth == self.depth - 1,
    {
        let mut new_board = self.board;
        new_board.make_move(mov);
        PerftContext { board: new_board, last_move: *mov, depth: self.depth - 1 }
    }
}

/// What a board counts on its own level: itself, whether it is in check, and what the move
/// that led to it was.
pub open spec fn node_levels(b: Board, last: Move, depth: nat) -> Seq<LevelPerft> {
    counted(seq![], depth as int, true, move_capture(last) is Some, last is EnPassant, last is Castle, last is Promotion,
        b.position.attacked(b.position.king_square(b.state.to_move) as int, b.state.to_move))
}

/// The perft of a board reached by `last` with `depth` levels left: its own counts, merged,
/// above the last level, with the perft of each board its legal moves lead to, one level less
/// deep.
pub open spec fn perft_total(b: Board, last: Move, depth: nat) -> Seq<LevelPerft>
    decreases depth, 1int, 0int,
{
    if depth == 0 {
        node_levels(b, last, depth)
    } else {
        merged(node_levels(b, last, depth), perft_children(b, b.legal_moves(), b.legal_moves().len() as int, depth))
    }
}

/// The perfts of the boards that the first `n` moves lead to, merged.
pub open spec fn perft_children(b: Board, ms: Seq<Move>, n: int, depth: nat) -> Seq<LevelPerft>
    decreases depth, 0int, n,
{
    if n <= 0 || n > ms.len() || depth == 0 {
        seq![]
    } else {
        merged(perft_children(b, ms, n - 1, depth), perft_total(b.after_move(ms[n - 1]), ms[n - 1], (depth - 1) as nat))
    }
}

/// The boards on which a perft to `depth` runs to its end: the side to move has a king, and
/// above the last level the moves can be generated and made, and each board they lead to can
/// be counted one level less deep.
pub open spec fn perft_ok(b: Board, depth: nat) -> bool
    decreases depth,
{
    &&& b.position.locations(b.state.to_move, PieceType::King) != 0
    &&& depth > 0 ==> {
        &&& b.can_generate_moves()
        &&& forall|i: int| 0 <= i < b.legal_moves().len() ==> move_fits_state(b.state, #[trigger] b.legal_moves()[i])
        &&& forall|i: int| 0 <= i < b.legal_moves().len() ==> perft_ok(b.after_move(#[trigger] b.legal_moves()[i]), (depth - 1) as nat)
    }
}

/// Whether the king of the side to move is attacked.
pub open spec fn side_in_check(b: Board) -> bool {
    b.position.attacked(b.position.king_square(b.state.to_move) as int, b.state.to_move)
}

/// What a perft counts of a board reached by `last`: every board (kind 0), boards reached by a
/// capture (1), by an en passant capture (2), by a castling (3), by a promotion (4), and
/// boards whose side to move is in check (5).
pub open spec fn counts_as(b: Board, last: Move, kind: int) -> bool {
    if kind == 1 {
        move_capture(last) is Some
    } else if kind == 2 {
        last is EnPassant
    } else if kind == 3 {
        last is Castle
    } else if kind == 4 {
        last is Promotion
    } else if kind == 5 {
        side_in_check(b)
    } else {
        true
    }
}

/// The count of a level of the given kind.
pub open spec fn count_of(l: LevelPerft, kind: int) -> u32 {
    if kind == 1 {
        l.captures
    } else if kind == 2 {
        l.en_passants
    } else if kind == 3 {
        l.castles
    } else if kind == 4 {
        l.promotions
    } else if kind == 5 {
        l.checks
    } else {
        l.size
    }
}

/// The number of boards of the tree below `b` (reached by `last`), `depth` moves deep, that
/// stand `level` levels above the last (`b` itself stands at level `depth`) and count as
/// `kind`.
pub open spec fn boards_at(b: Board, last: Move, depth: nat, level: int, kind: int) -> nat
    decreases depth, 1int, 0int,
{
    (if level == depth && counts_as(b, last, kind) { 1nat } else { 0nat })
        + if depth > 0 { boards_below(b, b.legal_moves(), b.legal_moves().len() as int, depth, level, kind) } else { 0nat }
}

/// The boards counted by `boards_at` below the first `n` moves.
pub open spec fn boards_below(b: Board, ms: Seq<Move>, n: int, depth: nat, level: int, kind: int) -> nat
    decreases depth, 0int, n,
{
    if n <= 0 || n > ms.len() || depth == 0 {
        0
    } else {
        boards_below(b, ms, n - 1, depth, level, kind) + boards_at(b.after_move(ms[n - 1]), ms[n - 1], (depth - 1) as nat, level, kind)
    }
}

proof fn lemma_merged_level(x: Seq<LevelPerft>, y: Seq<LevelPerft>, l: int)
    requires
        0 <= l,
    ensures
        level_or_zero(merged(x, y), l) == added(level_or_zero(x, l), level_or_zero(y, l)),
{
    if l >= merged(x, y).len() {
        assert(level_or_zero(x, l) == zero_level());
        assert(level_or_zero(y, l) == zero_level());
    }
}

/// A perft counts, at each level, the boards of the tree at that level, and among them those
/// reached by a capture, an en passant capture, a castling or a promotion, and those whose
/// side to move is in check, as long as the count fits in a `u32`.
pub proof fn lemma_perft_counts_boards(b: Board, last: Move, depth: nat, level: int, kind: int)
    requires
        0 <= level,
        0 <= kind <= 5,
        boards_at(b, last, depth, level, kind) <= u32::MAX,
    ensures
        count_of(level_or_zero(perft_total(b, last, depth), level), kind) == boards_at(b, last, depth, level, kind),
    decreases depth, 1int, 0int,
{
    let own = node_levels(b, last, depth);
    assert(count_of(level_or_zero(own, level), kind) == if level == depth && counts_as(b, last, kind) { 1u32 } else { 0u32 });
    if depth > 0 {
        let ms = b.legal_moves();
        lemma_perft_children_counts(b, ms, ms.len() as int, depth, level, kind);
        lemma_merged_level(own, perft_children(b, ms, ms.len() as int, depth), level);
    }
}

proof fn lemma_perft_children_counts(b: Board, ms: Seq<Move>, n: int, depth: nat, level: int, kind: int)
    requires
        0 <= level,
        0 <= kind <= 5,
        boards_below(b, ms, n, depth, level, kind) <= u32::MAX,
    ensures
        count_of(level_or_zero(perft_children(b, ms, n, depth), level), kind) == boards_below(b, ms, n, depth, level, kind),
    decreases depth, 0int, n,
{
    if n <= 0 || n > ms.len() || depth == 0 {
        assert(level_or_zero(Seq::<LevelPerft>::empty(), level) == zero_level());
    } else {
        let child = b.after_move(ms[n - 1]);
        lemma_perft_children_counts(b, ms, n - 1, depth, level, kind);
        lemma_perft_counts_boards(child, ms[n - 1], (depth - 1) as nat, level, kind);
        lemma_merged_level(perft_children(b, ms, n - 1, depth), perft_total(child, ms[n - 1], (depth - 1) as nat), level);
    }
}

pub struct PerftRunner {}

impl PerftRunner {
    pub fn do_perft(board: Board, depth: u8) -> (p: Perft)
        requires
            perft_ok(board, depth as nat),
        ensures
            p@ == perft_total(board, Move::NewGame(NewGame {}), depth as nat),
    {
        Self::perft(PerftContext { board: board, last_move: Move::NewGame(NewGame {}), depth: depth })
    }

    pub fn perft(ctx: PerftContext) -> (p: Perft)
        requires
            perft_ok(ctx.board, ctx.depth as nat),
        ensures
            p@ == perft_total(ctx.board, ctx.last_move, ctx.depth as nat),
        decreases ctx.depth,
    {
        let mut result: Perft = Default::default();
        result.increment_size(ctx.depth);
        let ghost s0 = result@;
        let check = ctx.board.in_check();
        if check {
            result.increment_checks(ctx.depth);
        }
        let ghost s1 = result@;
        let capture = ctx.last_move.get_capture().is_some();
        if capture {
            result.increment_captures(ctx.depth);
        }
        let ghost s2 = result@;
        match ctx.last_move {
            Move::EnPassant(_) => result.increment_en_passants(ctx.depth),
            Move::Promotion(_) => result.increment_promotions(ctx.depth),
            Move::Castle(_) => result.increment_castles(ctx.depth),
            _ => {},
        }
        proof {
            assert(result@ =~= node_levels(ctx.board, ctx.last_move, ctx.depth as nat));
        }
        if ctx.depth == 0 {
            return result;
        }
        let ghost own = result@;
        proof { lemma_merged_empty(own); }
        let moves = ctx.board.get_legal_moves();
        let ghost b = ctx.board;
        let ghost ms = moves@;
        let mut i: usize = 0;
        while i < moves.len()
            invariant
                i <= ms.len(),
                ms == moves@,
                ms == b.legal_moves(),
                b == ctx.board,
                ctx.depth >= 1,
                perft_ok(b, ctx.depth as nat),
                result@ == merged(own, perft_children(b, ms, i as int, ctx.depth as nat)),
            decreases ms.len() - i,
        {
            let next_move = moves[i];
            assert(move_fits_state(b.state, ms[i as int]));
            assert(perft_ok(b.after_move(ms[i as int]), (ctx.depth - 1) as nat));
            let next_ctx = ctx.clone_from_move(&next_move);
            let sub = Self::perft(next_ctx);
            result.merge(&sub);
            proof { lemma_merged_assoc(own, perft_children(b, ms, i as int, ctx.depth as nat), sub@); }
            i += 1;
        }
        result
    }
}

/// Merging with nothing changes nothing.
pub proof fn lemma_merged_empty(a: Seq<LevelPerft>)
    ensures
        merged(a, Seq::<LevelPerft>::empty()) == a,
{
    assert forall|i: int| 0 <= i < a.len() implies #[trigger] merged(a, Seq::<LevelPerft>::empty())[i] == a[i] by {
        let l = a[i];
        assert(l.size.wrapping_add(0) == l.size);
        assert(l.captures.wrapping_add(0) == l.captures);
        assert(l.en_passants.wrapping_add(0) == l.en_passants);
        assert(l.castles.wrapping_add(0) == l.castles);
        assert(l.promotions.wrapping_add(0) == l.promotions);
        assert(l.checks.wrapping_add(0) == l.checks);
    }
    assert(merged(a, Seq::<LevelPerft>::empty()) =~= a);
}

/// Merging is associative: perfts merged in groups give the same counts however grouped.
pub proof fn lemma_merged_assoc(a: Seq<LevelPerft>, b: Seq<LevelPerft>, c: Seq<LevelPerft>)
    ensures
        merged(merged(a, b), c) == merged(a, merged(b, c)),
{
    let l = merged(merged(a, b), c);
    let r = merged(a, merged(b, c));
    assert forall|i: int| 0 <= i < l.len() implies #[trigger] l[i] == r[i] by {
        let x = level_or_zero(a, i);
        let y = level_or_zero(b, i);
        let z = level_or_zero(c, i);
        assert(level_or_zero(merged(a, b), i) == added(x, y));
        assert(level_or_zero(merged(b, c), i) == added(y, z));
        lemma_wrapping_assoc(x.size, y.size, z.size);
        lemma_wrapping_assoc(x.captures, y.captures, z.captures);
        lemma_wrapping_assoc(x.en_passants, y.en_passants, z.en_passants);
        lemma_wrapping_assoc(x.castles, y.castles, z.castles);
        lemma_wrapping_assoc(x.promotions, y.promotions, z.promotions);
        lemma_wrapping_assoc(x.checks, y.checks, z.checks);
    }
    assert(l =~= r);
}

/// Merging is commutative: perfts merged in either order give the same counts, so the order
/// in which the perfts of the first moves come back does not change their merge.
pub proof fn lemma_merged_commutes(a: Seq<LevelPerft>, b: Seq<LevelPerft>)
    ensures
        merged(a, b) == merged(b, a),
{
    let l = merged(a, b);
    let r = merged(b, a);
    assert forall|i: int| 0 <= i < l.len() implies #[trigger] l[i] == r[i] by {
        let x = level_or_zero(a, i);
        let y = level_or_zero(b, i);
        assert(x.size.wrapping_add(y.size) == y.size.wrapping_add(x.size));
        assert(x.captures.wrapping_add(y.captures) == y.captures.wrapping_add(x.captures));
        assert(x.en_passants.wrapping_add(y.en_passants) == y.en_passants.wrapping_add(x.en_passants));
        assert(x.castles.wrapping_add(y.castles) == y.castles.wrapping_add(x.castles));
        assert(x.promotions.wrapping_add(y.promotions) == y.promotions.wrapping_add(x.promotions));
        assert(x.checks.wrapping_add(y.checks) == y.checks.wrapping_add(x.checks));
    }
    assert(l =~= r);
}

proof fn lemma_wrapping_assoc(x: u32, y: u32, z: u32)
    ensures
        x.wrapping_add(y).wrapping_add(z) == x.wrapping_add(y.wrapping_add(z)),
{
}

} // verus!
