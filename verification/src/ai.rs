//! The computer player: a static evaluation, move generation for the
//! search, and an alpha-beta (negamax) search with a transposition table,
//! killer moves, null-move pruning and a quiescence search.
use vstd::prelude::*;
use std::collections::HashMap;
use crate::board::{enumerates, is_land, land_cell, ray_index, MyWorld};
use crate::moves::{on_walk, opp, reach, spoke_after, temp_agrees, undo_team, SpokeCell, SpokeTempInfo};
use crate::spoke_laws::{lemma_process_describes, lemma_undo_restores, same_spokes};
use crate::zobrist::{lemma_key_update_undo, Key, Zobrist};
use crate::unit::{end_point, first_piece, lemma_first_piece, seen_team, walk_len, StackHeight};
use crate::hex::Axial;
use crate::hex::{dir_of_index, HDir, PASS_MOVE_INDEX};
use crate::history::{seen_after, HistoryOneMove, LastSeenObjectsAll, MoveHistory};
use crate::hex::in_hexagon;
use crate::mesh::{SmallMesh, TABLE_SIZE};
use crate::move_build::{destroyed_of, move_allowed, placed_cell, restored_cell, GenericMove, NormalMove, NormalMoveEffect};
use crate::moves::{Coordinate, SpokeInfo, SPOKE_CELLS};
use crate::unit::{at_team, height_num, team_index, team_not, team_value, GameCell, GameState, Piece, Team};

verus! {

/// A score from white's point of view (positive is good for white).
pub type Eval = i64;

/// The search stops counting nodes at this many.
pub const MAX_NODE_VISIT: usize = 1_000_000;

/// The capacity of a principal variation.
pub const STACK_SIZE: usize = 15;

/// The least score the search uses.
pub const SMALL_VAL: i64 = -9223372036854775798;

/// The greatest score the search uses.
pub const BIG_VAL: i64 = 9223372036854775797;

/// A line of moves of fixed capacity, kept in a `tinyvec` array-vector.
#[verifier::external_body]
pub struct MoveLine {
    inner: tinyvec::ArrayVec<[NormalMove; 15]>,
}

/// The moves of a line, first pushed first.
pub uninterp spec fn line_moves(l: MoveLine) -> Seq<NormalMove>;

impl MoveLine {
    /// `ArrayVec::new`: an empty line.
    #[verifier::external_body]
    pub fn new() -> (l: MoveLine)
        ensures
            line_moves(l) == Seq::<NormalMove>::empty(),
    {
        MoveLine { inner: tinyvec::ArrayVec::new() }
    }

    /// `ArrayVec::len`.
    #[verifier::external_body]
    pub fn len(&self) -> (n: usize)
        ensures
            n == line_moves(*self).len(),
    {
        self.inner.len()
    }

    /// `ArrayVec::push`, which panics when the line is full.
    #[verifier::external_body]
    pub fn push(&mut self, m: NormalMove)
        requires
            line_moves(*old(self)).len() < STACK_SIZE,
        ensures
            line_moves(*final(self)) == line_moves(*old(self)).push(m),
    {
        self.inner.push(m)
    }

    /// The last move, through the slice that `ArrayVec` dereferences to.
    #[verifier::external_body]
    pub fn last(&self) -> (m: Option<NormalMove>)
        ensures
            line_moves(*self).len() == 0 ==> m.is_none(),
            line_moves(*self).len() > 0 ==> m == Some(line_moves(*self).last()),
    {
        self.inner.last().copied()
    }

    /// The moves as a vector, from the slice that `ArrayVec` dereferences to.
    #[verifier::external_body]
    pub fn to_vec(&self) -> (v: Vec<NormalMove>)
        ensures
            v@ == line_moves(*self),
    {
        self.inner.to_vec()
    }

    /// Reverses the line in place, through `<[T]>::reverse`.
    #[verifier::external_body]
    pub fn reverse(&mut self)
        ensures
            line_moves(*final(self)) == line_moves(*old(self)).reverse(),
    {
        self.inner.reverse()
    }
}

impl Clone for MoveLine {
    /// `ArrayVec::clone`.
    #[verifier::external_body]
    fn clone(&self) -> (l: MoveLine)
        ensures
            line_moves(l) == line_moves(*self),
    {
        MoveLine { inner: self.inner.clone() }
    }
}

/// Up to two remembered moves, kept in a `tinyvec` array-vector.
#[verifier::external_body]
pub struct KillerSlot {
    inner: tinyvec::ArrayVec<[NormalMove; 2]>,
}

/// The moves of a killer slot.
pub uninterp spec fn slot_moves(s: KillerSlot) -> Seq<NormalMove>;

impl KillerSlot {
    /// `ArrayVec::new`: no moves.
    #[verifier::external_body]
    pub fn new() -> (s: KillerSlot)
        ensures
            slot_moves(s) == Seq::<NormalMove>::empty(),
    {
        KillerSlot { inner: tinyvec::ArrayVec::new() }
    }

    /// `ArrayVec::len`.
    #[verifier::external_body]
    pub fn len(&self) -> (n: usize)
        ensures
            n == slot_moves(*self).len(),
    {
        self.inner.len()
    }

    /// The move at position `i`, through slice indexing.
    #[verifier::external_body]
    pub fn get(&self, i: usize) -> (m: NormalMove)
        requires
            i < slot_moves(*self).len(),
        ensures
            m == slot_moves(*self)[i as int],
    {
        self.inner[i]
    }

    /// `ArrayVec::push`, which panics when both places are taken.
    #[verifier::external_body]
    pub fn push(&mut self, m: NormalMove)
        requires
            slot_moves(*old(self)).len() < 2,
        ensures
            slot_moves(*final(self)) == slot_moves(*old(self)).push(m),
    {
        self.inner.push(m)
    }

    /// Writes position `i`, through slice indexing.
    #[verifier::external_body]
    pub fn set(&mut self, i: usize, m: NormalMove)
        requires
            i < slot_moves(*old(self)).len(),
        ensures
            slot_moves(*final(self)) == slot_moves(*old(self)).update(i as int, m),
    {
        self.inner[i] = m;
    }
}

/// The search window: scores at most `alpha` or at least `beta` are decided.
#[derive(Clone, Copy, Debug)]
pub struct ABAB {
    pub alpha: Eval,
    pub beta: Eval,
}

impl ABAB {
    /// The widest window.
    pub fn new() -> (a: ABAB)
        ensures
            a.alpha == SMALL_VAL,
            a.beta == BIG_VAL,
    {
        ABAB { alpha: SMALL_VAL, beta: BIG_VAL }
    }

    /// The window seen by the opponent: `(-beta, -alpha)`.
    pub fn neg(self) -> (a: ABAB)
        requires
            self.alpha > i64::MIN,
            self.beta > i64::MIN,
        ensures
            a.alpha == -self.beta,
            a.beta == -self.alpha,
    {
        ABAB { alpha: -self.beta, beta: -self.alpha }
    }

    /// Starts looking through the moves of a node, maximising.
    pub fn ab_iter<T>(&self) -> (it: ABIter<T>)
        ensures
            it.value == SMALL_VAL,
            it.a == *self,
            it.mm.is_none(),
    {
        ABIter { value: SMALL_VAL, a: *self, mm: None }
    }
}

/// The best score and line found so far among a node's moves.
pub struct ABIter<T> {
    pub value: i64,
    pub a: ABAB,
    pub mm: Option<T>,
}

impl<T> ABIter<T> {
    /// The best score and its line, if any move was looked at.
    pub fn finish(self) -> (r: (Eval, Option<T>))
        ensures
            r.0 == self.value,
            r.1 == self.mm,
    {
        (self.value, self.mm)
    }

    /// The current window.
    pub fn clone_ab_values(&self) -> (a: ABAB)
        ensures
            a == self.a,
    {
        self.a
    }

    /// Takes the score `eval` of line `t`, keeps it when it is the first or the
    /// best, raises alpha to the best score, and says whether to go on (alpha
    /// still below beta).
    pub fn keep_going(&mut self, t: T, eval: Eval) -> (go: bool)
        ensures
            ({
                let take = old(self).mm.is_none() || eval > old(self).value;
                &&& final(self).value == if take { eval } else { old(self).value }
                &&& final(self).mm == if take { Some(t) } else { old(self).mm }
                &&& final(self).a.beta == old(self).a.beta
                &&& final(self).a.alpha == if old(self).a.alpha > final(self).value { old(self).a.alpha } else { final(self).value }
                &&& go == (final(self).a.alpha < final(self).a.beta)
            }),
    {
        if self.mm.is_none() {
            self.value = eval;
            self.mm = Some(t);
        } else {
            if eval > self.value {
                self.mm = Some(t);
                self.value = eval;
            }
        }
        self.a.alpha = if self.a.alpha > self.value { self.a.alpha } else { self.value };
        if self.a.alpha >= self.a.beta {
            false
        } else {
            true
        }
    }
}

/// How a stored score relates to the true score.
#[derive(Clone, Copy, Debug, PartialEq, Eq, Structural)]
pub enum Flag {
    Exact,
    UpperBound,
    LowerBound,
}

/// A stored search result.
pub struct TTEntry {
    pub pv: MoveLine,
    pub flag: Flag,
    pub depth: usize,
    pub value: i64,
}

/// The result of a search: the best line and its score.
#[derive(Clone, Debug)]
pub struct Res {
    pub line: Vec<NormalMove>,
    pub eval: i64,
}

/// Per search depth, up to two moves that recently caused a cut-off.
pub struct KillerMoves {
    pub a: Vec<KillerSlot>,
}

impl KillerMoves {
    /// Empty slots for `a` depths.
    pub fn new(a: usize) -> (k: KillerMoves)
        ensures
            k.a.len() == a,
            forall|i: int| 0 <= i < a ==> slot_moves(#[trigger] k.a[i]).len() == 0,
    {
        let mut v: Vec<KillerSlot> = Vec::new();
        let mut i: usize = 0;
        while i < a
            invariant
                i <= a,
                v.len() == i,
                forall|j: int| 0 <= j < i ==> slot_moves(#[trigger] v[j]).len() == 0,
            decreases a - i,
        {
            v.push(KillerSlot::new());
            i = i + 1;
        }
        KillerMoves { a: v }
    }

    /// The killer moves of `depth`.
    pub fn get(&self, depth: usize) -> (s: &KillerSlot)
        requires
            depth < self.a.len(),
        ensures
            *s == self.a[depth as int],
    {
        &self.a[depth]
    }

    /// Remembers `m` at `depth`: nothing when it is there already; otherwise
    /// it is added, or, with both places taken, the newest moves to second
    /// place and `m` takes the first.
    pub fn consider(&mut self, depth: usize, m: NormalMove)
        requires
            depth < old(self).a.len(),
            slot_moves(old(self).a[depth as int]).len() <= 2,
        ensures
            final(self).a.len() == old(self).a.len(),
            forall|i: int| 0 <= i < old(self).a.len() && i != depth ==> #[trigger] final(self).a[i] == old(self).a[i],
            ({
                let s = slot_moves(old(self).a[depth as int]);
                slot_moves(final(self).a[depth as int]) == if s.contains(m) {
                    s
                } else if s.len() < 2 {
                    s.push(m)
                } else {
                    seq![m, s[0]]
                }
            }),
    {
        let mut a = KillerSlot::new();
        std::mem::swap(&mut a, &mut self.a[depth]);
        let ghost s = slot_moves(a);
        let mut found = false;
        let mut i: usize = 0;
        while i < a.len()
            invariant
                s == slot_moves(a),
                i <= s.len(),
                found == s.subrange(0, i as int).contains(m),
            decreases s.len() - i,
        {
            let here = a.get(i);
            if here == m {
                found = true;
            }
            proof {
                let pre = s.subrange(0, i as int);
                let post = s.subrange(0, i + 1);
                assert(post =~= pre.push(s[i as int]));
                if here == m {
                    assert(post[i as int] == m);
                } else {
                    assert forall|k: int| 0 <= k < post.len() && post[k] == m implies pre.contains(m) by {
                        assert(pre[k] == m);
                    }
                }
            }
            i = i + 1;
        }
        assert(s.subrange(0, s.len() as int) =~= s);
        if !found {
            if a.len() < 2 {
                a.push(m);
            } else {
                let first = a.get(0);
                a.set(1, first);
                a.set(0, m);
                assert(slot_moves(a) =~= seq![m, s[0]]);
            }
        }
        std::mem::swap(&mut a, &mut self.a[depth]);
    }
}


/// Every count of a well-formed spoke cell lies between zero and six.
pub proof fn lemma_attack_bounds(c: SpokeCell)
    requires
        c.wf(),
    ensures
        0 <= c.num_attack[0] <= 6,
        0 <= c.num_attack[1] <= 6,
{
    crate::moves::lemma_count_update(c.raw@, 0, Team::Neutral, Team::White);
    crate::moves::lemma_count_update(c.raw@, 0, Team::Neutral, Team::Black);
}

/// An increasing listing of table indices has at most one entry per index.
pub proof fn lemma_enumeration_len(lv: Seq<usize>, p: spec_fn(int) -> bool)
    requires
        enumerates(lv, p),
    ensures
        lv.len() <= TABLE_SIZE,
{
    assert forall|k: int| 0 <= k < lv.len() implies lv[k] >= k by {
        lemma_enumeration_grows(lv, p, k);
    }
    if lv.len() > TABLE_SIZE {
        assert(lv[TABLE_SIZE as int] >= TABLE_SIZE);
    }
}

proof fn lemma_enumeration_grows(lv: Seq<usize>, p: spec_fn(int) -> bool, k: int)
    requires
        enumerates(lv, p),
        0 <= k < lv.len(),
    ensures
        lv[k] >= k,
    decreases k,
{
    if k > 0 {
        lemma_enumeration_grows(lv, p, k - 1);
        assert(lv[k - 1] < lv[k]);
    }
}

/// What one cell adds to the evaluation, as (score, territory, strength,
/// contested), where `na` counts the pieces of each player that see it.
pub open spec fn cell_eval(c: GameCell<Piece>, na: [i64; 2]) -> (int, int, int, int) {
    match c {
        GameCell::Piece(p) => {
            if p.team != Team::Neutral {
                let mine = na[team_index(p.team)] as int;
                let theirs = na[team_index(team_not(p.team))] as int;
                let h = height_num(p.height);
                let kept = if mine - 1 > h { mine - 1 } else { h };
                let score = if theirs > h && theirs >= mine {
                    -team_value(p.team)
                } else {
                    team_value(p.team)
                };
                (score, 1, (kept - theirs) * team_value(p.team), 0)
            } else {
                (0, 0, 0, 0)
            }
        },
        GameCell::Empty => {
            if na[0] > na[1] {
                (1, 1, 0, 0)
            } else if na[1] > na[0] {
                (-1, 1, 0, 0)
            } else {
                (0, 0, 0, 1)
            }
        },
    }
}

/// How a land cell counts in the evaluation's score, in terms of the pieces
/// that see it in the position that the spoke table describes. A stack
/// counts for its own team (`+1` for white, `-1` for black) unless the other
/// player's pieces that see it outnumber its height and are at least as many
/// as its own side's pieces that see it; then it counts against its team. Neutral stacks
/// count for nobody. An empty cell counts for the player whose pieces see
/// it more often, and for nobody on a tie.
pub proof fn lemma_cell_score(s: SpokeInfo, g: GameState, radius: int, j: int)
    requires
        s.describes(&g, radius),
        land_cell(j, radius - 1),
        radius <= 8,
    ensures
        ({
            let cells = g.factions.cells@;
            let ev = cell_eval(cells[j], s.data[j].num_attack);
            let score = ev.0;
            let w = crate::unit::seen_count(cells, j, radius, Team::White);
            let b = crate::unit::seen_count(cells, j, radius, Team::Black);
            match cells[j] {
                GameCell::Piece(p) => {
                    let mine = crate::unit::seen_count(cells, j, radius, p.team);
                    let theirs = crate::unit::seen_count(cells, j, radius, team_not(p.team));
                    &&& p.team == Team::Neutral ==> score == 0
                    &&& p.team != Team::Neutral && (mine > theirs || theirs <= height_num(p.height)) ==> score == team_value(p.team)
                    &&& p.team != Team::Neutral && theirs >= mine && theirs > height_num(p.height) ==> score == -team_value(p.team)
                    &&& p.team != Team::Neutral ==> ev.1 == 1 && ev.3 == 0
                    &&& p.team != Team::Neutral && mine - 1 > height_num(p.height) ==> ev.2 == (mine - 1 - theirs) * team_value(p.team)
                    &&& p.team != Team::Neutral && mine - 1 <= height_num(p.height) ==> ev.2 == (height_num(p.height) - theirs) * team_value(p.team)
                    &&& p.team == Team::Neutral ==> ev == (0int, 0int, 0int, 0int)
                },
                GameCell::Empty => {
                    &&& w > b ==> ev == (1int, 1int, 0int, 0int)
                    &&& w < b ==> ev == (-1int, 1int, 0int, 0int)
                    &&& w == b ==> ev == (0int, 0int, 0int, 1int)
                },
            }
        }),
{
    crate::main_logic::lemma_counts_are_seen(s, g, radius, j);
    let cells = g.factions.cells@;
    let na = s.data[j].num_attack;
    if let GameCell::Piece(p) = cells[j] {
        if p.team == Team::White {
            assert(na[team_index(p.team)] == crate::unit::seen_count(cells, j, radius, p.team));
            assert(na[team_index(team_not(p.team))] == crate::unit::seen_count(cells, j, radius, team_not(p.team)));
        } else if p.team == Team::Black {
            assert(na[team_index(p.team)] == crate::unit::seen_count(cells, j, radius, p.team));
            assert(na[team_index(team_not(p.team))] == crate::unit::seen_count(cells, j, radius, team_not(p.team)));
        }
    }
}

/// The four sums of `cell_eval` over the cells listed in `lv`.
pub open spec fn eval_sums(cells: Seq<GameCell<Piece>>, data: Seq<SpokeCell>, lv: Seq<usize>) -> (int, int, int, int)
    decreases lv.len(),
{
    if lv.len() == 0 {
        (0, 0, 0, 0)
    } else {
        let p = eval_sums(cells, data, lv.drop_last());
        let t = cell_eval(cells[lv.last() as int], data[lv.last() as int].num_attack);
        (p.0 + t.0, p.1 + t.1, p.2 + t.2, p.3 + t.3)
    }
}

/// The evaluation of a position from white's point of view: the score times
/// the territory, plus twice the strength times the contested cells.
pub open spec fn evaluation(cells: Seq<GameCell<Piece>>, data: Seq<SpokeCell>, lv: Seq<usize>) -> int {
    let s = eval_sums(cells, data, lv);
    s.0 * s.1 + 2 * s.2 * s.3
}

/// The other player's team; neutral stays neutral.
pub open spec fn swapped_team(t: Team) -> Team {
    match t {
        Team::White => Team::Black,
        Team::Black => Team::White,
        Team::Neutral => Team::Neutral,
    }
}

/// A cell with the colours of its stack exchanged.
pub open spec fn swapped_cell(c: GameCell<Piece>) -> GameCell<Piece> {
    match c {
        GameCell::Piece(p) => GameCell::Piece(Piece { height: p.height, team: swapped_team(p.team), has_lighthouse: p.has_lighthouse }),
        GameCell::Empty => GameCell::Empty,
    }
}

/// A spoke table with the two players' counts exchanged.
pub open spec fn swapped_counts(d: Seq<SpokeCell>) -> Seq<SpokeCell> {
    d.map_values(|c: SpokeCell| SpokeCell { raw: c.raw, num_attack: [c.num_attack[1], c.num_attack[0]] })
}

/// Exchanging the colours of one cell and of the pieces that see it turns
/// its score and strength around and keeps its territory and contest.
proof fn lemma_cell_eval_swapped(c: GameCell<Piece>, na: [i64; 2])
    ensures
        ({
            let e = cell_eval(c, na);
            let f = cell_eval(swapped_cell(c), [na[1], na[0]]);
            f == (-e.0, e.1, -e.2, e.3)
        }),
{
    if let GameCell::Piece(p) = c {
        let mine = na[team_index(p.team)] as int;
        let theirs = na[team_index(team_not(p.team))] as int;
        let h = height_num(p.height);
        let kept = if mine - 1 > h { mine - 1 } else { h };
        assert((kept - theirs) * team_value(swapped_team(p.team)) == -((kept - theirs) * team_value(p.team))) by (nonlinear_arith)
            requires
                team_value(swapped_team(p.team)) == -team_value(p.team),
        ;
    }
}

/// The sums over the cells listed in `lv` turn around the same way.
proof fn lemma_eval_sums_swapped(cells: Seq<GameCell<Piece>>, data: Seq<SpokeCell>, lv: Seq<usize>)
    requires
        forall|k: int| 0 <= k < lv.len() ==> (#[trigger] lv[k]) < cells.len() && lv[k] < data.len(),
    ensures
        ({
            let e = eval_sums(cells, data, lv);
            let f = eval_sums(cells.map_values(|c: GameCell<Piece>| swapped_cell(c)), swapped_counts(data), lv);
            f == (-e.0, e.1, -e.2, e.3)
        }),
    decreases lv.len(),
{
    if lv.len() > 0 {
        lemma_eval_sums_swapped(cells, data, lv.drop_last());
        let x = lv.last() as int;
        assert(lv[lv.len() - 1] < cells.len());
        lemma_cell_eval_swapped(cells[x], data[x].num_attack);
        assert(swapped_counts(data)[x].num_attack =~= [data[x].num_attack[1], data[x].num_attack[0]]);
    }
}

/// The evaluation is even-handed: exchanging the colours of every stack and
/// of every piece that sees a cell turns the evaluation into its negation.
pub proof fn lemma_evaluation_swapped(cells: Seq<GameCell<Piece>>, data: Seq<SpokeCell>, lv: Seq<usize>)
    requires
        forall|k: int| 0 <= k < lv.len() ==> (#[trigger] lv[k]) < cells.len() && lv[k] < data.len(),
    ensures
        evaluation(cells.map_values(|c: GameCell<Piece>| swapped_cell(c)), swapped_counts(data), lv) == -evaluation(cells, data, lv),
{
    lemma_eval_sums_swapped(cells, data, lv);
    let e = eval_sums(cells, data, lv);
    assert((-e.0) * e.1 + 2 * (-e.2) * e.3 == -(e.0 * e.1 + 2 * e.2 * e.3)) by (nonlinear_arith);
}

/// The static evaluation of positions.
pub struct Evaluator {}

impl Default for Evaluator {
    /// An evaluator.
    fn default() -> (e: Evaluator)
        ensures
            e == (Evaluator {}),
    {
        Evaluator {}
    }
}

/// `x - y`, or the nearest end of the `i64` range when that falls outside it.
fn saturating_sub_i64(x: i64, y: i64) -> (r: i64)
    ensures
        r == if x - y < i64::MIN {
            i64::MIN as int
        } else if x - y > i64::MAX {
            i64::MAX as int
        } else {
            x - y
        },
{
    match x.checked_sub(y) {
        Some(v) => v,
        None => {
            if y > 0 {
                i64::MIN
            } else {
                i64::MAX
            }
        },
    }
}

impl Evaluator {
    /// The evaluation of `game` (white maximising, black minimising), where
    /// `spoke_info` holds the counts of pieces that see each cell.
    #[verifier::rlimit(40)]
    pub fn absolute_evaluate(
        &mut self,
        game: &GameState,
        world: &MyWorld,
        spoke_info: &SpokeInfo,
        _debug: bool,
    ) -> (e: Eval)
        requires
            game.factions.wf(),
            world.wf(),
            spoke_info.wf(),
        ensures
            e == evaluation(game.factions.cells@, spoke_info.data@, world.land_as_vec@),
            -6553600 <= e <= 6553600,
    {
        let lv = &world.land_as_vec;
        let ghost cells = game.factions.cells@;
        let ghost data = spoke_info.data@;
        proof {
            lemma_enumeration_len(lv@, is_land(world.radius as int));
        }
        let mut overall_score: i64 = 0;
        let mut territory: i64 = 0;
        let mut overall_strength: i64 = 0;
        let mut contested: i64 = 0;
        let mut k: usize = 0;
        while k < lv.len()
            invariant
                world.wf(),
                game.factions.wf(),
                spoke_info.wf(),
                lv == &world.land_as_vec,
                lv.len() <= TABLE_SIZE,
                cells == game.factions.cells@,
                data == spoke_info.data@,
                k <= lv.len(),
                eval_sums(cells, data, lv@.subrange(0, k as int)) == (
                    overall_score as int,
                    territory as int,
                    overall_strength as int,
                    contested as int,
                ),
                -(k as int) <= overall_score <= k,
                0 <= territory <= k,
                -12 * (k as int) <= overall_strength <= 12 * (k as int),
                0 <= contested <= k,
            decreases lv.len() - k,
        {
            let index = lv[k];
            proof {
                assert(is_land(world.radius as int)(index as int));
                assert(spoke_info.data[index as int].wf());
                lemma_attack_bounds(spoke_info.data[index as int]);
            }
            let num_attack = spoke_info.get_num_attack(index);
            let temp_score: i64 = match game.factions.get_cell_inner(index) {
                GameCell::Piece(p) => {
                    let tt = p.team;
                    if tt != Team::Neutral {
                        let height = p.height.to_num() as i64;
                        let mine = at_team(num_attack, tt);
                        let theirs = at_team(num_attack, tt.not());
                        let less = saturating_sub_i64(mine, 1);
                        let kept = if less > height { less } else { height };
                        let st = kept - theirs;
                        let v = tt.value();
                        assert(-7 <= st * v <= 7) by (nonlinear_arith)
                            requires
                                -7 <= st <= 7,
                                -1 <= v <= 1,
                        ;
                        overall_strength = overall_strength + st * v;
                        territory = territory + 1;
                        if theirs > height && theirs >= mine {
                            -tt.value()
                        } else {
                            tt.value()
                        }
                    } else {
                        0
                    }
                },
                GameCell::Empty => {
                    if num_attack[0] > num_attack[1] {
                        territory = territory + 1;
                        1
                    } else if num_attack[1] > num_attack[0] {
                        territory = territory + 1;
                        -1
                    } else {
                        contested = contested + 1;
                        0
                    }
                },
            };
            overall_score = overall_score + temp_score;
            proof {
                assert(lv@.subrange(0, k + 1).drop_last() =~= lv@.subrange(0, k as int));
                assert(lv@.subrange(0, k + 1).last() == index);
            }
            k = k + 1;
        }
        assert(lv@.subrange(0, lv.len() as int) =~= lv@);
        assert(-262144 <= overall_score * territory <= 262144) by (nonlinear_arith)
            requires
                -512 <= overall_score <= 512,
                0 <= territory <= 512,
        ;
        assert(-6291456 <= 2 * overall_strength * contested <= 6291456) by (nonlinear_arith)
            requires
                -6144 <= overall_strength <= 6144,
                0 <= contested <= 512,
        ;
        overall_score * territory + 2 * overall_strength * contested
    }
}


/// Whether `team` gains by a stack on a cell holding `c` that its pieces see
/// `na[team]` times: an enemy or neutral stack it outnumbers, or an empty cell
/// it sees at least as often as the other player and at least once.
pub open spec fn los_gain(c: GameCell<Piece>, na: [i64; 2], team: Team) -> bool {
    let mine = na[team_index(team)];
    let theirs = na[team_index(team_not(team))];
    match c {
        GameCell::Piece(p) => mine > height_num(p.height) && mine >= theirs,
        GameCell::Empty => mine >= theirs && mine > 0,
    }
}

/// Whether the walk from `i` in direction `d`, up to and including the first
/// piece it meets, passes `j`, and `team` gains there.
pub open spec fn walk_marks(
    cells: Seq<GameCell<Piece>>,
    data: Seq<SpokeCell>,
    i: int,
    d: HDir,
    radius: int,
    team: Team,
    j: int,
) -> bool {
    on_walk(i, j, d, reach(cells, i, d, radius)) && los_gain(cells[j], data[j].num_attack, team)
}

/// Whether some direction from `i` in which the spokes record the other
/// player (`against`), or anything but `team` (not `against`), has a walk
/// that marks `j`.
pub open spec fn marks_from(
    cells: Seq<GameCell<Piece>>,
    data: Seq<SpokeCell>,
    i: int,
    radius: int,
    team: Team,
    against: bool,
    j: int,
) -> bool {
    exists|d: int|
        0 <= d < 6 && (if against {
            data[i].raw[d] == team_not(team)
        } else {
            data[i].raw[d] != team
        }) && #[trigger] walk_marks(cells, data, i, dir_of_index(d), radius, team, j)
}

/// One more step of a walk is the walk so far or that step.
pub proof fn lemma_on_walk_step(i: int, j: int, d: HDir, k: int)
    requires
        k >= 0,
    ensures
        on_walk(i, j, d, k + 1) == (on_walk(i, j, d, k) || ray_index(i, d, k + 1) == j),
{
    if on_walk(i, j, d, k + 1) && ray_index(i, d, k + 1) != j {
        let m = choose|m: int| 1 <= m <= k + 1 && #[trigger] ray_index(i, d, m) == j;
        assert(1 <= m <= k && ray_index(i, d, m) == j);
    }
    if on_walk(i, j, d, k) {
        let m = choose|m: int| 1 <= m <= k && #[trigger] ray_index(i, d, m) == j;
        assert(1 <= m <= k + 1 && ray_index(i, d, m) == j);
    }
    if ray_index(i, d, k + 1) == j {
        assert(1 <= k + 1 <= k + 1 && ray_index(i, d, k + 1) == j);
    }
}

impl GameState {
    /// Marks in `ret` the cells where `team` gains along the walk from the
    /// land cell `index` in direction `dir`, up to and including the first
    /// piece met.
    #[verifier::rlimit(40)]
    fn mark_walk(
        &self,
        index: usize,
        dir: HDir,
        team: Team,
        world: &MyWorld,
        ret: &mut SmallMesh,
        spoke_info: &SpokeInfo,
    )
        requires
            self.factions.wf(),
            world.wf(),
            spoke_info.wf(),
            team != Team::Neutral,
            land_cell(index as int, world.radius - 1),
        ensures
            forall|j: int| 0 <= j < TABLE_SIZE ==> #[trigger] final(ret)@[j] == (old(ret)@[j] || walk_marks(
                self.factions.cells@,
                spoke_info.data@,
                index as int,
                dir,
                world.radius as int,
                team,
                j,
            )),
    {
        let ghost cells = self.factions.cells@;
        let ghost data = spoke_info.data@;
        let ghost radius = world.radius as int;
        let ghost i = index as int;
        let start = Axial::from_index(index);
        proof {
            crate::hex::lemma_index_roundtrip(i);
            crate::hex::lemma_axial_roundtrip(start);
        }
        let (n, it) = crate::unit::ray(start, dir, world);
        let ghost e = first_piece(cells, i, dir, 1, n as int);
        proof {
            lemma_first_piece(cells, i, dir, 1, n as int);
        }
        let mut k: usize = 0;
        let mut stop = false;
        while k < it.len() && !stop
            invariant
                self.factions.wf(),
                world.wf(),
                spoke_info.wf(),
                team != Team::Neutral,
                cells == self.factions.cells@,
                data == spoke_info.data@,
                radius == world.radius as int,
                land_cell(i, radius - 1),
                n == walk_len(i, dir, radius),
                it.len() == n - 1,
                forall|m: int| 0 <= m < it.len() ==> #[trigger] it[m] == ray_index(i, dir, m + 1)
                    && land_cell(it[m] as int, radius - 1),
                e == first_piece(cells, i, dir, 1, n as int),
                1 <= e <= n,
                e < n ==> cells[ray_index(i, dir, e)] is Piece,
                forall|m: int| 1 <= m < e ==> !(cells[#[trigger] ray_index(i, dir, m)] is Piece),
                k <= it.len(),
                !stop ==> k + 1 <= e,
                stop ==> k == e && e < n,
                forall|j: int| 0 <= j < TABLE_SIZE ==> #[trigger] ret@[j] == (old(ret)@[j] || (on_walk(i, j, dir, k as int)
                    && los_gain(cells[j], data[j].num_attack, team))),
            decreases it.len() - k,
        {
            let index2 = it[k] as usize;
            let num_attack = spoke_info.get_num_attack(index2);
            let mine = at_team(num_attack, team);
            let theirs = at_team(num_attack, team.not());
            proof {
                assert(index2 == ray_index(i, dir, k + 1));
                assert forall|j: int| 0 <= j < TABLE_SIZE implies on_walk(i, j, dir, k + 1) == (on_walk(i, j, dir, k as int) || j == index2) by {
                    lemma_on_walk_step(i, j, dir, k as int);
                }
            }
            match self.factions.get_cell_inner(index2) {
                GameCell::Piece(p) => {
                    if mine > p.height.to_num() as i64 && mine >= theirs {
                        ret.set_index(index2, true);
                    }
                    stop = true;
                },
                GameCell::Empty => {
                    if mine >= theirs && mine > 0 {
                        ret.set_index(index2, true);
                    }
                },
            }
            k = k + 1;
        }
        proof {
            assert(walk_len(i, dir, radius) == n as int);
            assert(reach(cells, i, dir, radius) == k);
        }
    }

    /// Marks in `ret` the cells where `team` gains along the walks from the
    /// land cell `index` in the directions in which the other player is seen:
    /// moves that block the other player's lines.
    fn moves_that_block_better(
        &self,
        index: usize,
        team: Team,
        world: &MyWorld,
        ret: &mut SmallMesh,
        spoke_info: &SpokeInfo,
    )
        requires
            self.factions.wf(),
            world.wf(),
            spoke_info.wf(),
            team != Team::Neutral,
            land_cell(index as int, world.radius - 1),
        ensures
            forall|j: int| 0 <= j < TABLE_SIZE ==> #[trigger] final(ret)@[j] == (old(ret)@[j] || marks_from(
                self.factions.cells@,
                spoke_info.data@,
                index as int,
                world.radius as int,
                team,
                true,
                j,
            )),
    {
        self.mark_directions(index, team, world, ret, spoke_info, true);
    }

    /// Marks in `ret` the cells where `team` gains along the walks from the
    /// land cell `index` in the directions in which `team` is not seen: moves
    /// that extend `team`'s lines of sight.
    fn moves_that_increase_los_better(
        &self,
        index: usize,
        team: Team,
        world: &MyWorld,
        ret: &mut SmallMesh,
        spoke_info: &SpokeInfo,
    )
        requires
            self.factions.wf(),
            world.wf(),
            spoke_info.wf(),
            team != Team::Neutral,
            land_cell(index as int, world.radius - 1),
        ensures
            forall|j: int| 0 <= j < TABLE_SIZE ==> #[trigger] final(ret)@[j] == (old(ret)@[j] || marks_from(
                self.factions.cells@,
                spoke_info.data@,
                index as int,
                world.radius as int,
                team,
                false,
                j,
            )),
    {
        self.mark_directions(index, team, world, ret, spoke_info, false);
    }

    /// The walks of `moves_that_block_better` (`against`) or of
    /// `moves_that_increase_los_better` (not `against`).
    fn mark_directions(
        &self,
        index: usize,
        team: Team,
        world: &MyWorld,
        ret: &mut SmallMesh,
        spoke_info: &SpokeInfo,
        against: bool,
    )
        requires
            self.factions.wf(),
            world.wf(),
            spoke_info.wf(),
            team != Team::Neutral,
            land_cell(index as int, world.radius - 1),
        ensures
            forall|j: int| 0 <= j < TABLE_SIZE ==> #[trigger] final(ret)@[j] == (old(ret)@[j] || marks_from(
                self.factions.cells@,
                spoke_info.data@,
                index as int,
                world.radius as int,
                team,
                against,
                j,
            )),
    {
        let ghost cells = self.factions.cells@;
        let ghost data = spoke_info.data@;
        let ghost radius = world.radius as int;
        let ghost i = index as int;
        let dirs = HDir::all();
        let mut di: usize = 0;
        while di < 6
            invariant
                self.factions.wf(),
                world.wf(),
                spoke_info.wf(),
                team != Team::Neutral,
                land_cell(i, radius - 1),
                cells == self.factions.cells@,
                data == spoke_info.data@,
                radius == world.radius as int,
                i == index,
                dirs@ == crate::hex::all_dirs(),
                di <= 6,
                forall|j: int| 0 <= j < TABLE_SIZE ==> #[trigger] ret@[j] == (old(ret)@[j] || exists|d: int|
                    0 <= d < di && (if against {
                        data[i].raw[d] == team_not(team)
                    } else {
                        data[i].raw[d] != team
                    }) && #[trigger] walk_marks(cells, data, i, dir_of_index(d), radius, team, j)),
            decreases 6 - di,
        {
            let dir = dirs[di];
            assert(dir == dir_of_index(di as int));
            let team2 = spoke_info.get(index, dir);
            let wanted = if against {
                team2 == team.not()
            } else {
                team2 != team
            };
            let ghost before = ret@;
            if wanted {
                self.mark_walk(index, dir, team, world, ret, spoke_info);
            }
            proof {
                assert forall|j: int| 0 <= j < TABLE_SIZE implies #[trigger] ret@[j] == (old(ret)@[j] || exists|d: int|
                    0 <= d < di + 1 && (if against {
                        data[i].raw[d] == team_not(team)
                    } else {
                        data[i].raw[d] != team
                    }) && #[trigger] walk_marks(cells, data, i, dir_of_index(d), radius, team, j)) by {
                    if exists|d: int|
                        0 <= d < di + 1 && (if against {
                            data[i].raw[d] == team_not(team)
                        } else {
                            data[i].raw[d] != team
                        }) && #[trigger] walk_marks(cells, data, i, dir_of_index(d), radius, team, j) {
                        let d = choose|d: int|
                            0 <= d < di + 1 && (if against {
                                data[i].raw[d] == team_not(team)
                            } else {
                                data[i].raw[d] != team
                            }) && #[trigger] walk_marks(cells, data, i, dir_of_index(d), radius, team, j);
                        if d < di {
                            assert(before[j]);
                        }
                    }
                }
            }
            di = di + 1;
        }
    }
}


/// Whether `j` lies on the walk from `i` in direction `d` before the first
/// piece met, and `team` may play there without losing the stack at once.
pub open spec fn open_walk_marks(state: GameState, spoke_info: SpokeInfo, i: int, d: HDir, radius: int, team: Team, j: int) -> bool {
    &&& on_walk(i, j, d, first_piece(state.factions.cells@, i, d, 1, walk_len(i, d, radius)) - 1)
    &&& move_allowed(&state, &spoke_info, j, team, false)
}

/// A stack of `team` that the other player outnumbers: it may be lost.
pub open spec fn threatened_own(c: GameCell<Piece>, na: [i64; 2], team: Team) -> bool {
    let mine = na[team_index(team)];
    let theirs = na[team_index(team_not(team))];
    c matches GameCell::Piece(p) && p.team == team && theirs > height_num(p.height) && theirs >= mine
}

/// An empty cell that both players see equally often, at least once.
pub open spec fn contested_empty(c: GameCell<Piece>, na: [i64; 2], team: Team) -> bool {
    let mine = na[team_index(team)];
    let theirs = na[team_index(team_not(team))];
    c is Empty && mine == theirs && mine >= 1
}

/// The cells `generate_interesting_moves` marks: contested empty land cells,
/// and the cells where `team` may safely play on the open walks from one of
/// its threatened stacks.
pub open spec fn interesting_move(state: GameState, spoke_info: SpokeInfo, radius: int, team: Team, j: int) -> bool {
    let cells = state.factions.cells@;
    let data = spoke_info.data@;
    ||| land_cell(j, radius - 1) && contested_empty(cells[j], data[j].num_attack, team)
    ||| exists|i: int, d: int|
        land_cell(i, radius - 1) && 0 <= d < 6 && threatened_own(cells[i], data[i].num_attack, team)
            && #[trigger] open_walk_marks(state, spoke_info, i, dir_of_index(d), radius, team, j)
}

/// A stack move that raises a stack of `team` the other player could take,
/// or that takes a stack `team` outnumbers at least as much as the other player.
pub open spec fn loud_direct(c: GameCell<Piece>, na: [i64; 2], team: Team) -> bool {
    let mine = na[team_index(team)];
    let theirs = na[team_index(team_not(team))];
    match c {
        GameCell::Piece(p) => {
            let h = height_num(p.height);
            if p.team == team {
                mine > h && theirs >= h
            } else {
                mine > h && mine >= theirs
            }
        },
        GameCell::Empty => false,
    }
}

/// A stack of another team that `team` sees exactly as often as it is high.
pub open spec fn los_source(c: GameCell<Piece>, na: [i64; 2], team: Team) -> bool {
    c matches GameCell::Piece(p) && p.team != team && na[team_index(team)] == height_num(p.height)
}

/// The cells `generate_loud_moves` marks.
pub open spec fn loud_move(cells: Seq<GameCell<Piece>>, data: Seq<SpokeCell>, radius: int, team: Team, j: int) -> bool {
    &&& team != Team::Neutral
    &&& {
        ||| land_cell(j, radius - 1) && loud_direct(cells[j], data[j].num_attack, team)
        ||| exists|i: int|
            land_cell(i, radius - 1) && los_source(cells[i], data[i].num_attack, team)
                && #[trigger] marks_from(cells, data, i, radius, team, false, j)
    }
}

impl GameState {
    /// Marks in `ret` the cells on the walk from the land cell `index` in
    /// direction `dir`, before the first piece met, where `team` may play
    /// without losing the stack at once.
    #[verifier::rlimit(40)]
    fn mark_open_walk(
        &self,
        index: usize,
        dir: HDir,
        team: Team,
        world: &MyWorld,
        ret: &mut SmallMesh,
        spoke_info: &SpokeInfo,
    )
        requires
            self.factions.wf(),
            world.wf(),
            spoke_info.wf(),
            team != Team::Neutral,
            land_cell(index as int, world.radius - 1),
        ensures
            forall|j: int| 0 <= j < TABLE_SIZE ==> #[trigger] final(ret)@[j] == (old(ret)@[j] || open_walk_marks(
                *self,
                *spoke_info,
                index as int,
                dir,
                world.radius as int,
                team,
                j,
            )),
    {
        let ghost cells = self.factions.cells@;
        let ghost radius = world.radius as int;
        let ghost i = index as int;
        let start = Axial::from_index(index);
        proof {
            crate::hex::lemma_index_roundtrip(i);
            crate::hex::lemma_axial_roundtrip(start);
        }
        let (n, it) = crate::unit::ray(start, dir, world);
        let ghost e = first_piece(cells, i, dir, 1, n as int);
        proof {
            lemma_first_piece(cells, i, dir, 1, n as int);
        }
        let mut k: usize = 0;
        let mut stop = false;
        while k < it.len() && !stop
            invariant
                self.factions.wf(),
                world.wf(),
                spoke_info.wf(),
                team != Team::Neutral,
                cells == self.factions.cells@,
                radius == world.radius as int,
                land_cell(i, radius - 1),
                n == walk_len(i, dir, radius),
                it.len() == n - 1,
                forall|m: int| 0 <= m < it.len() ==> #[trigger] it[m] == ray_index(i, dir, m + 1)
                    && land_cell(it[m] as int, radius - 1),
                e == first_piece(cells, i, dir, 1, n as int),
                1 <= e <= n,
                e < n ==> cells[ray_index(i, dir, e)] is Piece,
                forall|m: int| 1 <= m < e ==> !(cells[#[trigger] ray_index(i, dir, m)] is Piece),
                k <= it.len(),
                !stop ==> k + 1 <= e,
                stop ==> k + 1 == e && e < n,
                forall|j: int| 0 <= j < TABLE_SIZE ==> #[trigger] ret@[j] == (old(ret)@[j] || (on_walk(i, j, dir, k as int)
                    && move_allowed(self, spoke_info, j, team, false))),
            decreases it.len() - k + if stop { 0int } else { 1int },
        {
            let index2 = it[k] as usize;
            proof {
                assert(index2 == ray_index(i, dir, k + 1));
                crate::unit::lemma_land_not_pass(index2 as int, radius);
            }
            match self.factions.get_cell_inner(index2) {
                GameCell::Piece(_) => {
                    stop = true;
                },
                GameCell::Empty => {
                    proof {
                        assert forall|j: int| 0 <= j < TABLE_SIZE implies on_walk(i, j, dir, k + 1) == (on_walk(i, j, dir, k as int) || j == index2) by {
                            lemma_on_walk_step(i, j, dir, k as int);
                        }
                    }
                    if let Some(foo) = NormalMove::playable(self, Coordinate(index2), team, world, spoke_info) {
                        if !foo.is_suicidal() {
                            ret.set_index(index2, true);
                        }
                    }
                    k = k + 1;
                },
            }
        }
        proof {
            assert(walk_len(i, dir, radius) == n as int);
            assert(first_piece(self.factions.cells@, i, dir, 1, walk_len(i, dir, radius)) - 1 == k);
        }
    }

    /// The cells that a search should look at besides the loud ones: empty
    /// land cells both players see equally often (at least once), and safe
    /// moves along the open walks from `team`'s stacks that the other player
    /// outnumbers.
    #[verifier::rlimit(60)]
    #[verifier::spinoff_prover]
    pub fn generate_interesting_moves(&self, world: &MyWorld, team: Team, spoke_info: &SpokeInfo) -> (ret: SmallMesh)
        requires
            self.factions.wf(),
            world.wf(),
            spoke_info.wf(),
            team != Team::Neutral,
        ensures
            forall|j: int| 0 <= j < TABLE_SIZE ==> #[trigger] ret@[j] == interesting_move(
                *self,
                *spoke_info,
                world.radius as int,
                team,
                j,
            ),
    {
        let ghost cells = self.factions.cells@;
        let ghost data = spoke_info.data@;
        let ghost radius = world.radius as int;
        let mut ret = SmallMesh::new();
        let lv = &world.land_as_vec;
        let dirs = HDir::all();
        let mut k: usize = 0;
        while k < lv.len()
            invariant
                self.factions.wf(),
                world.wf(),
                spoke_info.wf(),
                team != Team::Neutral,
                cells == self.factions.cells@,
                data == spoke_info.data@,
                radius == world.radius as int,
                lv == &world.land_as_vec,
                dirs@ == crate::hex::all_dirs(),
                k <= lv.len(),
                forall|j: int| 0 <= j < TABLE_SIZE ==> #[trigger] ret@[j] == (
                    (exists|kk: int| 0 <= kk < k && lv[kk] == j && contested_empty(cells[j], data[j].num_attack, team))
                    || exists|kk: int, d: int| 0 <= kk < k && 0 <= d < 6 && threatened_own(cells[lv[kk] as int], data[lv[kk] as int].num_attack, team)
                        && #[trigger] open_walk_marks(*self, *spoke_info, lv[kk] as int, dir_of_index(d), radius, team, j)),
            decreases lv.len() - k,
        {
            let index = lv[k];
            proof {
                assert(is_land(world.radius as int)(index as int));
                assert(spoke_info.data[index as int].wf());
            }
            let ghost before = ret@;
            let num_attack = spoke_info.get_num_attack(index);
            let mine = at_team(num_attack, team);
            let theirs = at_team(num_attack, team.not());
            match self.factions.get_cell_inner(index) {
                GameCell::Piece(p) => {
                    let height = p.height.to_num() as i64;
                    if p.team == team && theirs > height && theirs >= mine {
                        let mut di: usize = 0;
                        while di < 6
                            invariant
                                self.factions.wf(),
                                world.wf(),
                                spoke_info.wf(),
                                team != Team::Neutral,
                                land_cell(index as int, radius - 1),
                                radius == world.radius as int,
                                dirs@ == crate::hex::all_dirs(),
                                di <= 6,
                                forall|j: int| 0 <= j < TABLE_SIZE ==> #[trigger] ret@[j] == (before[j] || exists|d: int|
                                    0 <= d < di && #[trigger] open_walk_marks(*self, *spoke_info, index as int, dir_of_index(d), radius, team, j)),
                            decreases 6 - di,
                        {
                            let dir = dirs[di];
                            assert(dir == dir_of_index(di as int));
                            let ghost mid = ret@;
                            self.mark_open_walk(index, dir, team, world, &mut ret, spoke_info);
                            proof {
                                assert forall|j: int| 0 <= j < TABLE_SIZE implies #[trigger] ret@[j] == (before[j] || exists|d: int|
                                    0 <= d < di + 1 && #[trigger] open_walk_marks(*self, *spoke_info, index as int, dir_of_index(d), radius, team, j)) by {
                                    if exists|d: int| 0 <= d < di + 1 && #[trigger] open_walk_marks(*self, *spoke_info, index as int, dir_of_index(d), radius, team, j) {
                                        let d = choose|d: int| 0 <= d < di + 1 && #[trigger] open_walk_marks(*self, *spoke_info, index as int, dir_of_index(d), radius, team, j);
                                        if d < di {
                                            assert(mid[j]);
                                        }
                                    }
                                }
                            }
                            di = di + 1;
                        }
                    }
                },
                GameCell::Empty => {
                    if mine == theirs && mine >= 1 {
                        ret.set_index(index, true);
                    }
                },
            }
            proof {
                assert forall|j: int| 0 <= j < TABLE_SIZE implies #[trigger] ret@[j] == (
                    (exists|kk: int| 0 <= kk < k + 1 && lv[kk] == j && contested_empty(cells[j], data[j].num_attack, team))
                    || exists|kk: int, d: int| 0 <= kk < k + 1 && 0 <= d < 6 && threatened_own(cells[lv[kk] as int], data[lv[kk] as int].num_attack, team)
                        && #[trigger] open_walk_marks(*self, *spoke_info, lv[kk] as int, dir_of_index(d), radius, team, j)) by {
                    if exists|kk: int| 0 <= kk < k + 1 && lv[kk] == j && contested_empty(cells[j], data[j].num_attack, team) {
                        let kk = choose|kk: int| 0 <= kk < k + 1 && lv[kk] == j && contested_empty(cells[j], data[j].num_attack, team);
                        if kk < k {
                            assert(before[j]);
                        }
                    }
                    if exists|kk: int, d: int| 0 <= kk < k + 1 && 0 <= d < 6 && threatened_own(cells[lv[kk] as int], data[lv[kk] as int].num_attack, team)
                        && #[trigger] open_walk_marks(*self, *spoke_info, lv[kk] as int, dir_of_index(d), radius, team, j) {
                        let (kk, d) = choose|kk: int, d: int| 0 <= kk < k + 1 && 0 <= d < 6 && threatened_own(cells[lv[kk] as int], data[lv[kk] as int].num_attack, team)
                            && #[trigger] open_walk_marks(*self, *spoke_info, lv[kk] as int, dir_of_index(d), radius, team, j);
                        if kk < k {
                            assert(before[j]);
                        } else {
                            assert(ret@[j]);
                        }
                    }
                    if before[j] {
                        if exists|kk: int| 0 <= kk < k && lv[kk] == j && contested_empty(cells[j], data[j].num_attack, team) {
                            let kk = choose|kk: int| 0 <= kk < k && lv[kk] == j && contested_empty(cells[j], data[j].num_attack, team);
                            assert(0 <= kk < k + 1);
                        } else {
                            let (kk, d) = choose|kk: int, d: int| 0 <= kk < k && 0 <= d < 6 && threatened_own(cells[lv[kk] as int], data[lv[kk] as int].num_attack, team)
                                && #[trigger] open_walk_marks(*self, *spoke_info, lv[kk] as int, dir_of_index(d), radius, team, j);
                            assert(0 <= kk < k + 1);
                        }
                    }
                    if ret@[j] && !before[j] {
                        if j == index && contested_empty(cells[j], data[j].num_attack, team) {
                            assert(lv[k as int] == j);
                        } else {
                            let d = choose|d: int| 0 <= d < 6 && #[trigger] open_walk_marks(*self, *spoke_info, index as int, dir_of_index(d), radius, team, j);
                            assert(lv[k as int] == index);
                            assert(0 <= k < k + 1 && 0 <= d < 6 && threatened_own(cells[lv[k as int] as int], data[lv[k as int] as int].num_attack, team)
                                && open_walk_marks(*self, *spoke_info, lv[k as int] as int, dir_of_index(d), radius, team, j));
                        }
                    }
                }
            }
            k = k + 1;
        }
        proof {
            assert forall|j: int| 0 <= j < TABLE_SIZE implies #[trigger] ret@[j] == interesting_move(*self, *spoke_info, radius, team, j) by {
                if interesting_move(*self, *spoke_info, radius, team, j) {
                    if land_cell(j, radius - 1) && contested_empty(cells[j], data[j].num_attack, team) {
                        assert(is_land(radius)(j));
                        let kk = choose|kk: int| 0 <= kk < lv.len() && lv@[kk] == j as usize;
                        assert(lv[kk] == j);
                    } else {
                        let (i, d) = choose|i: int, d: int|
                            land_cell(i, radius - 1) && 0 <= d < 6 && threatened_own(cells[i], data[i].num_attack, team)
                                && #[trigger] open_walk_marks(*self, *spoke_info, i, dir_of_index(d), radius, team, j);
                        assert(is_land(radius)(i));
                        let kk = choose|kk: int| 0 <= kk < lv.len() && lv@[kk] == i as usize;
                        assert(lv[kk] == i);
                    }
                }
                if ret@[j] {
                    if exists|kk: int| 0 <= kk < lv.len() && lv[kk] == j && contested_empty(cells[j], data[j].num_attack, team) {
                        let kk = choose|kk: int| 0 <= kk < lv.len() && lv[kk] == j && contested_empty(cells[j], data[j].num_attack, team);
                        assert(is_land(radius)(lv[kk] as int));
                    } else {
                        let (kk, d) = choose|kk: int, d: int| 0 <= kk < lv.len() && 0 <= d < 6 && threatened_own(cells[lv[kk] as int], data[lv[kk] as int].num_attack, team)
                            && #[trigger] open_walk_marks(*self, *spoke_info, lv[kk] as int, dir_of_index(d), radius, team, j);
                        assert(is_land(radius)(lv[kk] as int));
                    }
                }
            }
        }
        ret
    }
}


impl GameState {
    /// The moves that change the balance at once: raising a stack of `team`
    /// that the other player could take, taking a stack `team` outnumbers
    /// at least as much as the other player, and, around a stack of another
    /// team that `team` sees exactly as often as it is high, the moves that
    /// extend `team`'s lines of sight. Nothing for the neutral team.
    #[verifier::rlimit(60)]
    #[verifier::spinoff_prover]
    pub fn generate_loud_moves(&self, world: &MyWorld, team: Team, spoke_info: &SpokeInfo) -> (ret: SmallMesh)
        requires
            self.factions.wf(),
            world.wf(),
            spoke_info.wf(),
        ensures
            forall|j: int| 0 <= j < TABLE_SIZE ==> #[trigger] ret@[j] == loud_move(
                self.factions.cells@,
                spoke_info.data@,
                world.radius as int,
                team,
                j,
            ),
    {
        let ghost cells = self.factions.cells@;
        let ghost data = spoke_info.data@;
        let ghost radius = world.radius as int;
        let mut ret = SmallMesh::new();
        if team == Team::Neutral {
            return ret;
        }
        let lv = &world.land_as_vec;
        let mut k: usize = 0;
        while k < lv.len()
            invariant
                self.factions.wf(),
                world.wf(),
                spoke_info.wf(),
                team != Team::Neutral,
                cells == self.factions.cells@,
                data == spoke_info.data@,
                radius == world.radius as int,
                lv == &world.land_as_vec,
                k <= lv.len(),
                forall|j: int| 0 <= j < TABLE_SIZE ==> #[trigger] ret@[j] == (
                    (exists|kk: int| 0 <= kk < k && lv[kk] == j && loud_direct(cells[j], data[j].num_attack, team))
                    || exists|kk: int| 0 <= kk < k && los_source(cells[lv[kk] as int], data[lv[kk] as int].num_attack, team)
                        && #[trigger] marks_from(cells, data, lv[kk] as int, radius, team, false, j)),
            decreases lv.len() - k,
        {
            let index = lv[k];
            proof {
                assert(is_land(world.radius as int)(index as int));
            }
            let ghost before = ret@;
            let num_attack = spoke_info.get_num_attack(index);
            let mine = at_team(num_attack, team);
            let theirs = at_team(num_attack, team.not());
            let ghost source = false;
            match self.factions.get_cell_inner(index) {
                GameCell::Piece(p) => {
                    let height = p.height.to_num() as i64;
                    if p.team == team {
                        if mine > height && theirs >= height {
                            ret.set_index(index, true);
                        }
                    } else {
                        if mine > height && mine >= theirs {
                            ret.set_index(index, true);
                        }
                        if mine == height {
                            let ghost mid = ret@;
                            self.moves_that_increase_los_better(index, team, world, &mut ret, spoke_info);
                            proof {
                                source = true;
                                assert forall|j: int| 0 <= j < TABLE_SIZE implies #[trigger] ret@[j] == (mid[j] || marks_from(cells, data, index as int, radius, team, false, j)) by {}
                            }
                        }
                    }
                },
                GameCell::Empty => {},
            }
            proof {
                assert(source == los_source(cells[index as int], data[index as int].num_attack, team));
                assert forall|j: int| 0 <= j < TABLE_SIZE implies #[trigger] ret@[j] == (
                    (exists|kk: int| 0 <= kk < k + 1 && lv[kk] == j && loud_direct(cells[j], data[j].num_attack, team))
                    || exists|kk: int| 0 <= kk < k + 1 && los_source(cells[lv[kk] as int], data[lv[kk] as int].num_attack, team)
                        && #[trigger] marks_from(cells, data, lv[kk] as int, radius, team, false, j)) by {
                    if exists|kk: int| 0 <= kk < k + 1 && lv[kk] == j && loud_direct(cells[j], data[j].num_attack, team) {
                        let kk = choose|kk: int| 0 <= kk < k + 1 && lv[kk] == j && loud_direct(cells[j], data[j].num_attack, team);
                        if kk < k {
                            assert(before[j]);
                        }
                    }
                    if exists|kk: int| 0 <= kk < k + 1 && los_source(cells[lv[kk] as int], data[lv[kk] as int].num_attack, team)
                        && #[trigger] marks_from(cells, data, lv[kk] as int, radius, team, false, j) {
                        let kk = choose|kk: int| 0 <= kk < k + 1 && los_source(cells[lv[kk] as int], data[lv[kk] as int].num_attack, team)
                            && #[trigger] marks_from(cells, data, lv[kk] as int, radius, team, false, j);
                        if kk < k {
                            assert(before[j]);
                        }
                    }
                    if before[j] {
                        if exists|kk: int| 0 <= kk < k && lv[kk] == j && loud_direct(cells[j], data[j].num_attack, team) {
                            let kk = choose|kk: int| 0 <= kk < k && lv[kk] == j && loud_direct(cells[j], data[j].num_attack, team);
                            assert(0 <= kk < k + 1);
                        } else {
                            let kk = choose|kk: int| 0 <= kk < k && los_source(cells[lv[kk] as int], data[lv[kk] as int].num_attack, team)
                                && #[trigger] marks_from(cells, data, lv[kk] as int, radius, team, false, j);
                            assert(0 <= kk < k + 1);
                        }
                    }
                    if ret@[j] && !before[j] {
                        assert(lv[k as int] == index);
                        if j == index && loud_direct(cells[j], data[j].num_attack, team) {
                        } else {
                            assert(marks_from(cells, data, lv[k as int] as int, radius, team, false, j));
                        }
                    }
                }
            }
            k = k + 1;
        }
        proof {
            assert forall|j: int| 0 <= j < TABLE_SIZE implies #[trigger] ret@[j] == loud_move(cells, data, radius, team, j) by {
                if loud_move(cells, data, radius, team, j) {
                    if land_cell(j, radius - 1) && loud_direct(cells[j], data[j].num_attack, team) {
                        assert(is_land(radius)(j));
                        let kk = choose|kk: int| 0 <= kk < lv.len() && lv@[kk] == j as usize;
                        assert(lv[kk] == j);
                    } else {
                        let i = choose|i: int|
                            land_cell(i, radius - 1) && los_source(cells[i], data[i].num_attack, team)
                                && #[trigger] marks_from(cells, data, i, radius, team, false, j);
                        assert(is_land(radius)(i));
                        let kk = choose|kk: int| 0 <= kk < lv.len() && lv@[kk] == i as usize;
                        assert(lv[kk] == i);
                    }
                }
                if ret@[j] {
                    if exists|kk: int| 0 <= kk < lv.len() && lv[kk] == j && loud_direct(cells[j], data[j].num_attack, team) {
                        let kk = choose|kk: int| 0 <= kk < lv.len() && lv[kk] == j && loud_direct(cells[j], data[j].num_attack, team);
                        assert(is_land(radius)(lv[kk] as int));
                    } else {
                        let kk = choose|kk: int| 0 <= kk < lv.len() && los_source(cells[lv[kk] as int], data[lv[kk] as int].num_attack, team)
                            && #[trigger] marks_from(cells, data, lv[kk] as int, radius, team, false, j);
                        assert(is_land(radius)(lv[kk] as int));
                    }
                }
            }
        }
        ret
    }
}


/// The number of depths the killer table has room for.
pub const KILLER_DEPTHS: usize = STACK_SIZE + 4 + 4;

/// The most one cut-off adds to a history counter: the square of the
/// deepest depth the killer table has room for.
pub const HISTORY_STEP: usize = 484;

/// Scores the search works with: from `SMALL_VAL` to its negation.
pub open spec fn in_eval_range(x: int) -> bool {
    SMALL_VAL <= x <= -SMALL_VAL
}

/// A search window inside the score range with `alpha` below `beta`.
pub open spec fn window_ok(ab: ABAB) -> bool {
    &&& in_eval_range(ab.alpha as int)
    &&& in_eval_range(ab.beta as int)
    &&& ab.alpha < ab.beta
}

/// The pass, or a move on a land cell of a board of radius `radius`.
pub open spec fn move_ok(m: NormalMove, radius: int) -> bool {
    m.coord.0 == PASS_MOVE_INDEX || land_cell(m.coord.0 as int, radius - 1)
}

/// A line that fits a `MoveLine` and holds only passes and land moves.
pub open spec fn line_ok(s: Seq<NormalMove>, radius: int) -> bool {
    &&& s.len() <= STACK_SIZE
    &&& forall|k: int| 0 <= k < s.len() ==> move_ok(#[trigger] s[k], radius)
}

/// A stored result with a score in range and a good line.
pub open spec fn entry_ok(e: TTEntry, radius: int) -> bool {
    &&& in_eval_range(e.value as int)
    &&& line_ok(line_moves(e.pv), radius)
}

/// The walks recorded when a move was played agree with those of the
/// position the search below it gives back.
pub proof fn lemma_temp_after_search(g1: Seq<GameCell<Piece>>, g1p: Seq<GameCell<Piece>>, c: int, radius: int, temp: SpokeTempInfo)
    requires
        g1p == g1,
        forall|d: int| 0 <= d < 6 ==> #[trigger] temp.data[d] == end_point(g1, c, dir_of_index(d), radius),
    ensures
        forall|d: int| 0 <= d < 6 ==> #[trigger] temp_agrees(temp.data[d], end_point(g1p, c, dir_of_index(d), radius)),
{
}

/// Taking back a searched move restores the spokes of the position before
/// it, once the search in between gave back the position and its spokes.
pub proof fn lemma_spokes_back(
    s0: SpokeInfo,
    s1: SpokeInfo,
    s1p: SpokeInfo,
    s2: SpokeInfo,
    g: GameState,
    g1: GameState,
    g1p: GameState,
    c: int,
    radius: int,
    p: Piece,
    effect: NormalMoveEffect,
)
    requires
        radius <= 8,
        land_cell(c, radius - 1),
        g.factions.wf(),
        s0.describes(&g, radius),
        g1.factions.cells@ == g.factions.cells@.update(c, GameCell::Piece(p)),
        effect.destroyed_unit == destroyed_of(g.factions.cells[c], p.team),
        forall|j: int, dir: int|
            0 <= j < SPOKE_CELLS && 0 <= dir < 6 ==> #[trigger] s1.data[j].raw[dir] == spoke_after(
                s0.data[j],
                g1.factions.cells@,
                c,
                radius,
                p.team,
                6,
                0,
                j,
                dir,
            ),
        s1p.data@ == s1.data@,
        s1.data.len() == SPOKE_CELLS,
        g1p.factions.cells@ == g1.factions.cells@,
        s2.wf(),
        forall|j: int, dir: int|
            0 <= j < SPOKE_CELLS && 0 <= dir < 6 ==> #[trigger] s2.data[j].raw[dir] == if j != c
                && on_walk(c, j, dir_of_index(opp(dir)), reach(g1p.factions.cells@, c, dir_of_index(opp(dir)), radius)) {
                undo_team(effect, g1p.factions.cells@, c, dir, radius)
            } else {
                s1p.data[j].raw[dir]
            },
    ensures
        same_spokes(s2.data@, s0.data@),
{
    let a = g1.factions.cells@;
    let b = g1p.factions.cells@;
    assert forall|j: int, dir: int|
        0 <= j < SPOKE_CELLS && 0 <= dir < 6 implies #[trigger] s2.data[j].raw[dir] == if j != c
            && on_walk(c, j, dir_of_index(opp(dir)), reach(a, c, dir_of_index(opp(dir)), radius)) {
            undo_team(effect, a, c, dir, radius)
        } else {
            s1.data[j].raw[dir]
        } by {
        assert(s1p.data[j] == s1.data[j]);
    }
    lemma_undo_restores(s0, s1, s2, g, g1, c, radius, p, effect);
}

/// The stack that `team` places on a cell holding `c`.
pub open spec fn placed_piece(c: GameCell<Piece>, stack: StackHeight, team: Team) -> Piece {
    Piece {
        height: stack,
        team,
        has_lighthouse: match c {
            GameCell::Piece(o) => o.has_lighthouse && o.team == team,
            GameCell::Empty => false,
        },
    }
}

/// The cells marked by `generate_loud_moves` are land cells.
pub proof fn lemma_loud_on_land(cells: Seq<GameCell<Piece>>, data: Seq<SpokeCell>, radius: int, team: Team, j: int)
    requires
        radius <= 8,
        loud_move(cells, data, radius, team, j),
    ensures
        land_cell(j, radius - 1),
{
    if !(land_cell(j, radius - 1) && loud_direct(cells[j], data[j].num_attack, team)) {
        let i = choose|i: int|
            land_cell(i, radius - 1) && los_source(cells[i], data[i].num_attack, team)
                && #[trigger] marks_from(cells, data, i, radius, team, false, j);
        let d = choose|d: int|
            0 <= d < 6 && (if false {
                data[i].raw[d] == team_not(team)
            } else {
                data[i].raw[d] != team
            }) && #[trigger] walk_marks(cells, data, i, dir_of_index(d), radius, team, j);
        let dd = dir_of_index(d);
        let n = walk_len(i, dd, radius);
        crate::board::lemma_ray_leaves_land(i, dd, radius);
        lemma_first_piece(cells, i, dd, 1, n);
        let k = choose|k: int| 1 <= k <= reach(cells, i, dd, radius) && #[trigger] ray_index(i, dd, k) == j;
        crate::board::lemma_ray_in_land(i, dd, radius, k);
    }
}

/// Playing a move, searching in a way that gives back the position and its
/// spokes, and taking the move back gives back the position and the spokes
/// from before the move.
pub proof fn lemma_search_round_trip(
    gs: GameState,
    g1: GameState,
    g1p: GameState,
    g2: GameState,
    ss: SpokeInfo,
    s1: SpokeInfo,
    s1p: SpokeInfo,
    s2: SpokeInfo,
    cand: NormalMove,
    team: Team,
    effect: NormalMoveEffect,
    radius: int,
)
    requires
        radius <= 8,
        gs.factions.wf(),
        ss.describes(&gs, radius),
        move_ok(cand, radius),
        cand.coord.0 == PASS_MOVE_INDEX ==> effect.destroyed_unit.is_none() && g1.factions.cells@ == gs.factions.cells@,
        cand.coord.0 != PASS_MOVE_INDEX ==> {
            &&& effect.destroyed_unit == destroyed_of(gs.factions.cells[cand.coord.0 as int], team)
            &&& g1.factions.cells@ == gs.factions.cells@.update(
                cand.coord.0 as int,
                placed_cell(gs.factions.cells[cand.coord.0 as int], cand.stack, team),
            )
        },
        s1.wf(),
        cand.coord.0 == PASS_MOVE_INDEX ==> s1.data@ == ss.data@,
        cand.coord.0 != PASS_MOVE_INDEX ==> forall|j: int, dir: int|
            0 <= j < SPOKE_CELLS && 0 <= dir < 6 ==> #[trigger] s1.data[j].raw[dir] == spoke_after(
                ss.data[j],
                g1.factions.cells@,
                cand.coord.0 as int,
                radius,
                team,
                6,
                0,
                j,
                dir,
            ),
        g1p.factions.cells@ == g1.factions.cells@,
        s1p.wf(),
        s1p.data@ == s1.data@,
        s1p.describes(&g1p, radius),
        s2.wf(),
        cand.coord.0 == PASS_MOVE_INDEX ==> s2.data@ == s1p.data@,
        cand.coord.0 != PASS_MOVE_INDEX ==> forall|j: int, dir: int|
            0 <= j < SPOKE_CELLS && 0 <= dir < 6 ==> #[trigger] s2.data[j].raw[dir] == if j != cand.coord.0
                && on_walk(cand.coord.0 as int, j, dir_of_index(opp(dir)), reach(g1p.factions.cells@, cand.coord.0 as int, dir_of_index(opp(dir)), radius)) {
                undo_team(effect, g1p.factions.cells@, cand.coord.0 as int, dir, radius)
            } else {
                s1p.data[j].raw[dir]
            },
        g2.factions.wf(),
        cand.coord.0 == PASS_MOVE_INDEX ==> g2.factions.cells@ == g1p.factions.cells@,
        cand.coord.0 != PASS_MOVE_INDEX ==> g2.factions.cells@ == g1p.factions.cells@.update(
            cand.coord.0 as int,
            restored_cell(effect, g1p.factions.cells[cand.coord.0 as int]),
        ),
    ensures
        g2.factions.cells@ == gs.factions.cells@,
        s2.data@ == ss.data@,
        s2.describes(&g2, radius),
{
    if cand.coord.0 != PASS_MOVE_INDEX {
        let c = cand.coord.0 as int;
        let p = placed_piece(gs.factions.cells[c], cand.stack, team);
        assert(placed_cell(gs.factions.cells[c], cand.stack, team) == GameCell::Piece(p));
        assert(effect == NormalMoveEffect { destroyed_unit: destroyed_of(gs.factions.cells[c], team) });
        crate::move_build::lemma_apply_undo(gs.factions.cells@, c, cand.stack, team);
        lemma_spokes_back(ss, s1, s1p, s2, gs, g1, g1p, c, radius, p, effect);
        crate::spoke_laws::lemma_same_spokes_equal(s2.data@, ss.data@);
    }
    assert forall|i: int, d: int| land_cell(i, radius - 1) && 0 <= d < 6 implies #[trigger] s2.data[i].raw[d] == seen_team(
        gs.factions.cells@,
        i,
        dir_of_index(d),
        radius,
    ) by {
        assert(ss.data[i].raw[d] == seen_team(gs.factions.cells@, i, dir_of_index(d), radius));
    }
    assert(s2.describes(&gs, radius));
}

/// What a search is given and keeps: the board, the hash table, the
/// killer moves, the move stack, the node counters and the history counters.
pub struct AlphaBeta<'a> {
    pub ttable: HashMap<u64, TTEntry>,
    pub killer_moves: KillerMoves,
    pub evaluator: Evaluator,
    pub world: &'a MyWorld,
    pub moves: Vec<NormalMove>,
    pub nodes_visited: usize,
    pub qui_nodes_visited: usize,
    pub zobrist: &'a Zobrist,
    pub history_heur: Vec<usize>,
}

impl<'a> AlphaBeta<'a> {
    /// The board and hash base are well formed, every depth has a killer
    /// slot of at most two moves, the counters are in range, every history
    /// counter is at most `HISTORY_STEP` per node visited, and every stored
    /// result is in range with a good line.
    pub open spec fn wf(&self) -> bool {
        &&& self.world.wf()
        &&& self.zobrist.wf()
        &&& self.killer_moves.a.len() == KILLER_DEPTHS
        &&& forall|i: int| 0 <= i < KILLER_DEPTHS ==> slot_moves(#[trigger] self.killer_moves.a[i]).len() <= 2
        &&& self.history_heur.len() == TABLE_SIZE
        &&& self.nodes_visited <= MAX_NODE_VISIT + KILLER_DEPTHS
        &&& self.qui_nodes_visited <= self.nodes_visited
        &&& forall|i: int| 0 <= i < TABLE_SIZE ==> #[trigger] self.history_heur[i] <= HISTORY_STEP * self.nodes_visited
        &&& forall|k: u64| #[trigger] self.ttable@.contains_key(k) ==> entry_ok(self.ttable@[k], self.world.radius as int)
        &&& forall|k: int| 0 <= k < self.moves.len() ==> move_ok(#[trigger] self.moves[k], self.world.radius as int)
    }

    /// What a search that started from `self`, `game`, `key` and `spoke_info`
    /// leaves: the same board and move stack, counters that only grew (the
    /// history counters at most `HISTORY_STEP` per node), the same hash, the
    /// same position, and the same spokes, which
    /// describe the position left.
    pub open spec fn kept(
        &self,
        after: &AlphaBeta<'a>,
        game: &GameState,
        game_after: &GameState,
        key: Key,
        key_after: Key,
        spoke_info: &SpokeInfo,
        spoke_after_search: &SpokeInfo,
    ) -> bool {
        &&& after.wf()
        &&& after.world == self.world
        &&& after.zobrist == self.zobrist
        &&& after.moves@ == self.moves@
        &&& self.nodes_visited <= after.nodes_visited
        &&& forall|i: int| 0 <= i < TABLE_SIZE ==> #[trigger] after.history_heur[i] <= self.history_heur[i]
            + HISTORY_STEP * (after.nodes_visited - self.nodes_visited)
        &&& key_after == key
        &&& game_after.factions.wf()
        &&& game_after.factions.cells@ == game.factions.cells@
        &&& spoke_after_search.wf()
        &&& spoke_after_search.data@ == spoke_info.data@
        &&& spoke_after_search.describes(game_after, self.world.radius as int)
    }

    /// The quiescence search: the static score for `team` unless `depth`
    /// allows looking further; then the best of that score and the scores
    /// after each loud move, within the window `ab`, stopping at a score of
    /// at least `beta`. Past the node budget it gives up with `SMALL_VAL`.
    #[verifier::rlimit(100)]
    #[verifier::spinoff_prover]
    fn quiesance(
        &mut self,
        game: &mut GameState,
        key: &mut Key,
        spoke_info: &mut SpokeInfo,
        ab: ABAB,
        team: Team,
        depth: usize,
    ) -> (e: Eval)
        requires
            old(self).wf(),
            team != Team::Neutral,
            old(game).factions.wf(),
            old(spoke_info).describes(old(game), old(self).world.radius as int),
            window_ok(ab),
        ensures
            old(self).kept(final(self), old(game), final(game), *old(key), *final(key), old(spoke_info), final(spoke_info)),
            final(self).nodes_visited <= if old(self).nodes_visited > MAX_NODE_VISIT { old(self).nodes_visited } else { MAX_NODE_VISIT },
            final(self).killer_moves == old(self).killer_moves,
            final(self).history_heur@ == old(self).history_heur@,
            final(self).ttable@ == old(self).ttable@,
            in_eval_range(e as int),
            old(self).nodes_visited < MAX_NODE_VISIT ==> e >= -6553600,
            depth <= 2 ==> final(self).nodes_visited <= old(self).nodes_visited + quiet_nodes(depth as int),
            old(self).nodes_visited >= MAX_NODE_VISIT ==> e == SMALL_VAL,
            old(self).nodes_visited < MAX_NODE_VISIT && depth == 0 ==> e == static_score(
                old(game).factions.cells@,
                old(spoke_info).data@,
                old(self).world.land_as_vec@,
                team,
            ),
            old(self).nodes_visited < MAX_NODE_VISIT && static_score(
                old(game).factions.cells@,
                old(spoke_info).data@,
                old(self).world.land_as_vec@,
                team,
            ) >= ab.beta ==> e == static_score(
                old(game).factions.cells@,
                old(spoke_info).data@,
                old(self).world.land_as_vec@,
                team,
            ),
            old(self).nodes_visited < MAX_NODE_VISIT ==> e >= static_score(
                old(game).factions.cells@,
                old(spoke_info).data@,
                old(self).world.land_as_vec@,
                team,
            ),
            final(self).nodes_visited < MAX_NODE_VISIT ==> e == quiet_value(
                old(game).factions.cells@,
                old(spoke_info).data@,
                old(self).world.land_as_vec@,
                old(self).world.radius as int,
                ab.alpha as int,
                ab.beta as int,
                team,
                depth as nat,
            ),
        decreases depth,
    {
        let mut win = ab;
        let ghost radius = self.world.radius as int;
        if self.nodes_visited >= MAX_NODE_VISIT {
            proof {
            }
            return SMALL_VAL;
        }
        let ghost beta0 = win.beta;
        let ev = self.evaluator.absolute_evaluate(game, self.world, spoke_info, false);
        let tv = team.value();
        assert(-6553600 <= tv * ev <= 6553600) by (nonlinear_arith)
            requires
                -6553600 <= ev <= 6553600,
                -1 <= tv <= 1,
        ;
        let stand_pat = tv * ev;
        assert(stand_pat == static_score(game.factions.cells@, spoke_info.data@, self.world.land_as_vec@, team)) by {
            reveal(static_score);
        }
        proof {
            lemma_quiet_value(game.factions.cells@, spoke_info.data@, self.world.land_as_vec@, radius, ab.alpha as int, ab.beta as int, team, depth as nat);
        }
        if depth == 0 {
            return stand_pat;
        }
        self.nodes_visited = self.nodes_visited + 1;
        self.qui_nodes_visited = self.qui_nodes_visited + 1;
        let mut best_value = stand_pat;
        if stand_pat >= win.beta {
            return stand_pat;
        }
        if win.alpha < stand_pat {
            win.alpha = stand_pat;
        }
        let captures = game.generate_loud_moves(self.world, team, spoke_info);
        let start = self.moves.len();
        self.moves.push(NormalMove::new_pass());
        let ones = captures.iter_ones();
        proof {
            lemma_increasing_len(ones@);
            let p = is_loud(game.factions.cells@, spoke_info.data@, radius, team);
            assert forall|k: int| 0 <= k < ones.len() implies #[trigger] ones[k] < TABLE_SIZE && p(ones[k] as int) by {
                assert(captures@[ones[k] as int]);
            }
            assert forall|i: int| 0 <= i < TABLE_SIZE && #[trigger] p(i) implies ones@.contains(i as usize) by {
                assert(captures@[i]);
            }
            assert(enumerates(ones@, p));
        }
        let ghost gc0 = game.factions.cells@;
        let ghost sd0 = spoke_info.data@;
        let mut q: usize = 0;
        while q < ones.len()
            invariant
                self.wf(),
                self.world == old(self).world,
                self.zobrist == old(self).zobrist,
                self.killer_moves == old(self).killer_moves,
                self.history_heur@ == old(self).history_heur@,
                self.ttable@ == old(self).ttable@,
                self.nodes_visited == old(self).nodes_visited + 1,
                self.nodes_visited <= MAX_NODE_VISIT,
                self.world.wf(),
                game.factions.wf(),
                spoke_info.wf(),
                team != Team::Neutral,
                radius == self.world.radius as int,
                start < self.moves.len(),
                self.moves.len() == start + 1 + q,
                ones.len() <= TABLE_SIZE,
                self.moves@.subrange(0, start as int) == old(self).moves@,
                forall|k: int| 0 <= k < self.moves.len() ==> move_ok(#[trigger] self.moves[k], radius),
                forall|k: int| 0 <= k < ones.len() ==> #[trigger] ones[k] < TABLE_SIZE && captures@[ones[k] as int],
                forall|j: int| 0 <= j < TABLE_SIZE ==> #[trigger] captures@[j] == loud_move(
                    game.factions.cells@,
                    spoke_info.data@,
                    radius,
                    team,
                    j,
                ),
                q <= ones.len(),
                game.factions.cells@ == gc0,
                spoke_info.data@ == sd0,
                enumerates(ones@, is_loud(gc0, sd0, radius, team)),
                self.moves[start as int] == (NormalMove { stack: StackHeight::Stack0, coord: Coordinate(PASS_MOVE_INDEX) }),
                forall|i: int| 0 <= i < q ==> #[trigger] self.moves[start + 1 + i] == (NormalMove {
                    stack: crate::main_logic::height_of(spoke_info.data[ones[i] as int].num_attack[team_index(team)] as int),
                    coord: Coordinate(ones[i]),
                }),
            decreases ones.len() - q,
        {
            let x = ones[q];
            proof {
                lemma_loud_on_land(game.factions.cells@, spoke_info.data@, radius, team, x as int);
            }
            let stack = Coordinate(x).determine_stack_height(game, self.world, team, spoke_info);
            proof {
                assert(stack == crate::main_logic::height_of(spoke_info.data[x as int].num_attack[team_index(team)] as int));
            }
            self.moves.push(NormalMove { coord: Coordinate(x), stack });
            q = q + 1;
        }
        let end = self.moves.len();
        let ghost g0 = game.factions.cells@;
        let ghost s0 = spoke_info.data@;
        let ghost k0 = *key;
        let ghost self0 = *self;
        let ghost ms = quiet_moves(g0, s0, radius, team);
        let ghost target = quiet_value(g0, s0, self.world.land_as_vec@, radius, ab.alpha as int, ab.beta as int, team, depth as nat);
        proof {
            assert forall|i: int| 0 <= i < ones.len() implies #[trigger] self.moves@.subrange(start as int, end as int)[1 + i] == (NormalMove {
                stack: crate::main_logic::height_of(s0[ones[i] as int].num_attack[team_index(team)] as int),
                coord: Coordinate(ones[i]),
            }) by {
                assert(self.moves@.subrange(start as int, end as int)[1 + i] == self.moves[start + 1 + i]);
            }
            assert(self.moves@.subrange(start as int, end as int)[0] == self.moves[start as int]);
            lemma_quiet_moves(self.moves@.subrange(start as int, end as int), ones@, g0, s0, radius, team);
            lemma_quiet_value(g0, s0, self.world.land_as_vec@, radius, ab.alpha as int, ab.beta as int, team, depth as nat);
        }
        let mut it = start;
        while it < end
            invariant
                self.wf(),
                self.world == old(self).world,
                self.zobrist == old(self).zobrist,
                self.killer_moves == old(self).killer_moves,
                radius == self.world.radius as int,
                team != Team::Neutral,
                start <= it <= end,
                self.moves.len() == start + (end - it),
                self.moves@.subrange(0, start as int) == old(self).moves@,
                old(self).nodes_visited < self.nodes_visited,
                self.nodes_visited <= MAX_NODE_VISIT,
                self.history_heur@ == old(self).history_heur@,
                self.ttable@ == old(self).ttable@,
                depth > 0,
                *key == k0,
                k0 == *old(key),
                g0 == old(game).factions.cells@,
                s0 == old(spoke_info).data@,
                game.factions.wf(),
                game.factions.cells@ == g0,
                spoke_info.wf(),
                spoke_info.data@ == s0,
                spoke_info.describes(game, radius),
                window_ok(win),
                in_eval_range(best_value as int),
                -6553600 <= stand_pat <= best_value,
                stand_pat <= win.alpha,
                win.beta == beta0,
                beta0 == ab.beta,
                stand_pat < beta0,
                stand_pat == static_score(g0, s0, self.world.land_as_vec@, team),
                end - start <= TABLE_SIZE + 1,
                depth == 1 ==> self.nodes_visited == old(self).nodes_visited + 1,
                depth == 2 ==> self.nodes_visited <= old(self).nodes_visited + 1 + (it - start),
                ms == quiet_moves(g0, s0, radius, team),
                ms.len() == end - start,
                forall|i: int| 0 <= i < end - it ==> #[trigger] self.moves[start + i] == ms[i],
                self.nodes_visited < MAX_NODE_VISIT ==> target == quiet_loop(
                    g0,
                    s0,
                    self.world.land_as_vec@,
                    radius,
                    ms,
                    end - it,
                    win.alpha as int,
                    win.beta as int,
                    best_value as int,
                    team,
                    depth as nat,
                ),
                target == quiet_value(g0, s0, self.world.land_as_vec@, radius, ab.alpha as int, ab.beta as int, team, depth as nat),
            decreases end - it,
        {
            let ghost kk: int = (end - it) - 1;
            proof {
                assert(self.moves[start + kk] == ms[kk]);
            }
            let ghost pre = self.moves@;
            let cand = self.moves.pop().unwrap();
            proof {
                assert(self.moves@.subrange(0, start as int) == old(self).moves@);
                assert(cand == pre[start + kk]);
                assert(cand == ms[(end - it) - 1]);
            }
            let ghost gs = *game;
            let ghost ss = *spoke_info;
            let effect = cand.apply(team, game, self.world, Some(&*spoke_info));
            let ghost g1 = *game;
            key.move_update(self.zobrist, cand, team, &effect);
            let temp = spoke_info.process_move_better(cand, team, self.world, game);
            let ghost s1 = *spoke_info;
            proof {
                if cand.coord.0 != PASS_MOVE_INDEX {
                    lemma_process_describes(ss, s1, gs, g1, cand.coord.0 as int, radius, placed_piece(gs.factions.cells[cand.coord.0 as int], cand.stack, team));
                }
            }
            let child_win = win.neg();
            let ghost child_nodes = self.nodes_visited;
            let eval = self.quiesance(game, key, spoke_info, child_win, team.not(), depth - 1);
            proof {
                if self.nodes_visited < MAX_NODE_VISIT {
                    let k = end - it;
                    assert(g1.factions.cells@ == cells_after(g0, cand, team));
                    if cand.coord.0 != PASS_MOVE_INDEX {
                        lemma_data_after(s1.data@, s0, g0, cand, team, radius);
                    }
                    lemma_quiet_step(g0, s0, self.world.land_as_vec@, radius, ms, k, win.alpha as int, win.beta as int, best_value as int, team, depth as nat);
                }
            }
            let eval = -eval;
            let ghost g1p = *game;
            let ghost s1p = *spoke_info;
            proof {
                if cand.coord.0 != PASS_MOVE_INDEX {
                    lemma_temp_after_search(g1.factions.cells@, g1p.factions.cells@, cand.coord.0 as int, radius, temp);
                }
            }
            spoke_info.undo_move(cand, &effect, team, self.world, game, temp);
            cand.undo(&effect, game);
            key.move_undo(self.zobrist, cand, team, &effect);
            proof {
                lemma_key_update_undo(k0.key, *self.zobrist, cand, team, effect);
                lemma_search_round_trip(gs, g1, g1p, *game, ss, s1, s1p, *spoke_info, cand, team, effect, radius);
            }
            if eval >= win.beta {
                self.moves.truncate(start);
                proof {
                    assert(self.moves@ =~= old(self).moves@);
                    assert(eval >= stand_pat);
                }
                return eval;
            }
            if eval > best_value {
                best_value = eval;
            }
            if eval > win.alpha {
                win.alpha = eval;
            }
            it = it + 1;
        }
        proof {
            assert(self.moves@ =~= self.moves@.subrange(0, start as int));
            lemma_quiet_done(g0, s0, self.world.land_as_vec@, radius, ms, win.alpha as int, win.beta as int, best_value as int, team, depth as nat);
        }
        best_value
    }
}


/// The static score of a position for `team`: the evaluation, from white's
/// side, times `team`'s sign.
#[verifier::opaque]
pub open spec fn static_score(cells: Seq<GameCell<Piece>>, data: Seq<SpokeCell>, lv: Seq<usize>, team: Team) -> int {
    team_value(team) * evaluation(cells, data, lv)
}

/// Whether `d2` is the spoke table that processing a move by `team` at `c`,
/// which left `cells2`, makes of `d`.
pub open spec fn spokes_follow(d2: Seq<SpokeCell>, d: Seq<SpokeCell>, cells2: Seq<GameCell<Piece>>, c: int, radius: int, team: Team) -> bool {
    &&& d2.len() == SPOKE_CELLS
    &&& forall|j: int| 0 <= j < SPOKE_CELLS ==> (#[trigger] d2[j]).wf()
    &&& forall|j: int, dir: int|
        0 <= j < SPOKE_CELLS && 0 <= dir < 6 ==> #[trigger] d2[j].raw[dir] == spoke_after(d[j], cells2, c, radius, team, 6, 0, j, dir)
}

/// The position after `team` plays `m` on `cells`.
pub open spec fn cells_after(cells: Seq<GameCell<Piece>>, m: NormalMove, team: Team) -> Seq<GameCell<Piece>> {
    if m.coord.0 == PASS_MOVE_INDEX {
        cells
    } else {
        cells.update(m.coord.0 as int, placed_cell(cells[m.coord.0 as int], m.stack, team))
    }
}

/// The spoke table after `team` plays `m` on `cells` described by `data`.
pub open spec fn data_after(data: Seq<SpokeCell>, cells: Seq<GameCell<Piece>>, m: NormalMove, team: Team, radius: int) -> Seq<SpokeCell> {
    if m.coord.0 == PASS_MOVE_INDEX {
        data
    } else {
        choose|d2: Seq<SpokeCell>| spokes_follow(d2, data, cells_after(cells, m, team), m.coord.0 as int, radius, team)
    }
}

/// Whether a table index is a loud move's cell.
pub open spec fn is_loud(cells: Seq<GameCell<Piece>>, data: Seq<SpokeCell>, radius: int, team: Team) -> spec_fn(int) -> bool {
    |j: int| loud_move(cells, data, radius, team, j)
}

/// The loud moves' cells, in increasing order.
pub open spec fn loud_list(cells: Seq<GameCell<Piece>>, data: Seq<SpokeCell>, radius: int, team: Team) -> Seq<usize> {
    choose|v: Seq<usize>| #[trigger] enumerates(v, is_loud(cells, data, radius, team))
}

/// The moves the quiescence search tries, before it takes them from the
/// end: the pass, then each loud move with the height of `team`'s pieces
/// that see its cell.
pub open spec fn quiet_moves(cells: Seq<GameCell<Piece>>, data: Seq<SpokeCell>, radius: int, team: Team) -> Seq<NormalMove> {
    seq![NormalMove { stack: StackHeight::Stack0, coord: Coordinate(PASS_MOVE_INDEX) }] + loud_list(cells, data, radius, team).map_values(
        |x: usize| NormalMove {
            stack: crate::main_logic::height_of(data[x as int].num_attack[team_index(team)] as int),
            coord: Coordinate(x),
        },
    )
}

/// The value of the quiescence search for `team` on `cells` with spokes
/// `data`, window `(alpha, beta)`, `depth` more loud moves allowed, when
/// the node budget does not run out: the static score when no move is
/// allowed or it reaches `beta`; else the best of it and the moves'
/// scores, taken from the last of `quiet_moves` to the first, stopping at
/// the first that reaches `beta`.
#[verifier::opaque]
pub open spec fn quiet_value(
    cells: Seq<GameCell<Piece>>,
    data: Seq<SpokeCell>,
    lv: Seq<usize>,
    radius: int,
    alpha: int,
    beta: int,
    team: Team,
    depth: nat,
) -> int
    decreases depth, quiet_moves(cells, data, radius, team).len() + 1,
{
    let sp = static_score(cells, data, lv, team);
    if depth == 0 || sp >= beta {
        sp
    } else {
        let ms = quiet_moves(cells, data, radius, team);
        quiet_loop(cells, data, lv, radius, ms, ms.len() as int, if alpha < sp { sp } else { alpha }, beta, sp, team, depth)
    }
}

/// The rest of the quiescence search's loop: the moves `ms[..k]`, last
/// first, with window `(alpha, beta)` and best score so far `best`.
#[verifier::opaque]
pub open spec fn quiet_loop(
    cells: Seq<GameCell<Piece>>,
    data: Seq<SpokeCell>,
    lv: Seq<usize>,
    radius: int,
    ms: Seq<NormalMove>,
    k: int,
    alpha: int,
    beta: int,
    best: int,
    team: Team,
    depth: nat,
) -> int
    decreases depth, k,
{
    if k <= 0 || depth == 0 {
        best
    } else {
        let m = ms[k - 1];
        let eval = -quiet_value(
            cells_after(cells, m, team),
            data_after(data, cells, m, team, radius),
            lv,
            radius,
            -beta,
            -alpha,
            team_not(team),
            (depth - 1) as nat,
        );
        if eval >= beta {
            eval
        } else {
            quiet_loop(
                cells,
                data,
                lv,
                radius,
                ms,
                k - 1,
                if eval > alpha { eval } else { alpha },
                beta,
                if eval > best { eval } else { best },
                team,
                depth,
            )
        }
    }
}

/// The score for `team` of playing `m` on `cells` when the reply is a
/// quiescence search two loud moves deep within the window `(a, beta)`.
pub open spec fn reply_score(
    cells: Seq<GameCell<Piece>>,
    data: Seq<SpokeCell>,
    lv: Seq<usize>,
    radius: int,
    m: NormalMove,
    team: Team,
    beta: int,
    a: int,
) -> int {
    -quiet_value(cells_after(cells, m, team), data_after(data, cells, m, team, radius), lv, radius, -beta, -a, team_not(team), 2)
}

/// One step of the quiescence search's loop.
proof fn lemma_quiet_step(
    cells: Seq<GameCell<Piece>>,
    data: Seq<SpokeCell>,
    lv: Seq<usize>,
    radius: int,
    ms: Seq<NormalMove>,
    k: int,
    alpha: int,
    beta: int,
    best: int,
    team: Team,
    depth: nat,
)
    requires
        k > 0,
        depth > 0,
    ensures
        ({
            let m = ms[k - 1];
            let eval = -quiet_value(
                cells_after(cells, m, team),
                data_after(data, cells, m, team, radius),
                lv,
                radius,
                -beta,
                -alpha,
                team_not(team),
                (depth - 1) as nat,
            );
            quiet_loop(cells, data, lv, radius, ms, k, alpha, beta, best, team, depth) == if eval >= beta {
                eval
            } else {
                quiet_loop(
                    cells,
                    data,
                    lv,
                    radius,
                    ms,
                    k - 1,
                    if eval > alpha { eval } else { alpha },
                    beta,
                    if eval > best { eval } else { best },
                    team,
                    depth,
                )
            }
        }),
{
    reveal(quiet_loop);
    reveal(quiet_value);

}

/// The quiescence search's loop with no moves left gives the best score.
proof fn lemma_quiet_done(
    cells: Seq<GameCell<Piece>>,
    data: Seq<SpokeCell>,
    lv: Seq<usize>,
    radius: int,
    ms: Seq<NormalMove>,
    alpha: int,
    beta: int,
    best: int,
    team: Team,
    depth: nat,
)
    ensures
        quiet_loop(cells, data, lv, radius, ms, 0, alpha, beta, best, team, depth) == best,
{
    reveal(quiet_loop);
    reveal(quiet_value);

}

/// The quiescence value in terms of its loop.
proof fn lemma_quiet_value(
    cells: Seq<GameCell<Piece>>,
    data: Seq<SpokeCell>,
    lv: Seq<usize>,
    radius: int,
    alpha: int,
    beta: int,
    team: Team,
    depth: nat,
)
    ensures
        ({
            let sp = static_score(cells, data, lv, team);
            let ms = quiet_moves(cells, data, radius, team);
            quiet_value(cells, data, lv, radius, alpha, beta, team, depth) == if depth == 0 || sp >= beta {
                sp
            } else {
                quiet_loop(cells, data, lv, radius, ms, ms.len() as int, if alpha < sp { sp } else { alpha }, beta, sp, team, depth)
            }
        }),
{
    reveal(quiet_loop);
    reveal(quiet_value);

}

/// The moves the quiescence search pushes, for loud cells `ones` in
/// increasing order, are `quiet_moves`.
proof fn lemma_quiet_moves(
    pushed: Seq<NormalMove>,
    ones: Seq<usize>,
    cells: Seq<GameCell<Piece>>,
    data: Seq<SpokeCell>,
    radius: int,
    team: Team,
)
    requires
        enumerates(ones, is_loud(cells, data, radius, team)),
        pushed.len() == ones.len() + 1,
        pushed[0] == (NormalMove { stack: StackHeight::Stack0, coord: Coordinate(PASS_MOVE_INDEX) }),
        forall|i: int| 0 <= i < ones.len() ==> #[trigger] pushed[1 + i] == (NormalMove {
            stack: crate::main_logic::height_of(data[ones[i] as int].num_attack[team_index(team)] as int),
            coord: Coordinate(ones[i]),
        }),
    ensures
        pushed == quiet_moves(cells, data, radius, team),
{
    let p = is_loud(cells, data, radius, team);
    let ll = loud_list(cells, data, radius, team);
    assert(enumerates(ll, p));
    crate::board::lemma_enumeration_unique(ones, ll, p);
    let ms = quiet_moves(cells, data, radius, team);
    assert forall|i: int| 0 <= i < pushed.len() implies pushed[i] == ms[i] by {
        if i > 0 {
            assert(pushed[1 + (i - 1)] == pushed[i]);
        }
    }
    assert(pushed =~= ms);
}

/// Processing a move makes one spoke table only.
proof fn lemma_spokes_follow_unique(a: Seq<SpokeCell>, b: Seq<SpokeCell>, d: Seq<SpokeCell>, cells2: Seq<GameCell<Piece>>, c: int, radius: int, team: Team)
    requires
        spokes_follow(a, d, cells2, c, radius, team),
        spokes_follow(b, d, cells2, c, radius, team),
    ensures
        a == b,
{
    assert forall|j: int| 0 <= j < a.len() implies #[trigger] a[j].num_attack[0] == b[j].num_attack[0] && a[j].num_attack[1] == b[j].num_attack[1] by {
        assert(a[j].wf() && b[j].wf());
        assert forall|dir: int| 0 <= dir < 6 implies #[trigger] a[j].raw[dir] == b[j].raw[dir] by {
            assert(a[j].raw[dir] == spoke_after(d[j], cells2, c, radius, team, 6, 0, j, dir));
        }
        crate::spoke_laws::lemma_counts_from_raw(a[j], b[j]);
    }
    assert forall|j: int, dir: int| 0 <= j < a.len() && 0 <= dir < 6 implies #[trigger] a[j].raw[dir] == b[j].raw[dir] by {
        assert(a[j].raw[dir] == spoke_after(d[j], cells2, c, radius, team, 6, 0, j, dir));
    }
    crate::spoke_laws::lemma_same_spokes_equal(a, b);
}

/// The spoke table processing gives is the one `data_after` names.
proof fn lemma_data_after(actual: Seq<SpokeCell>, data: Seq<SpokeCell>, cells: Seq<GameCell<Piece>>, m: NormalMove, team: Team, radius: int)
    requires
        m.coord.0 != PASS_MOVE_INDEX,
        spokes_follow(actual, data, cells_after(cells, m, team), m.coord.0 as int, radius, team),
    ensures
        data_after(data, cells, m, team, radius) == actual,
{
    let c2 = cells_after(cells, m, team);
    let d2 = choose|d2: Seq<SpokeCell>| spokes_follow(d2, data, c2, m.coord.0 as int, radius, team);
    lemma_spokes_follow_unique(d2, actual, data, c2, m.coord.0 as int, radius, team);
}

/// The most nodes a quiescence search of depth at most two visits.
pub open spec fn quiet_nodes(depth: int) -> int {
    if depth <= 0 {
        0
    } else if depth == 1 {
        1
    } else {
        TABLE_SIZE + 2
    }
}

/// A strictly increasing sequence of table indices has at most one entry
/// per index.
proof fn lemma_increasing_len(s: Seq<usize>)
    requires
        forall|k: int| 0 <= k < s.len() ==> #[trigger] s[k] < TABLE_SIZE,
        forall|k1: int, k2: int| 0 <= k1 < k2 < s.len() ==> #[trigger] s[k1] < #[trigger] s[k2],
    ensures
        s.len() <= TABLE_SIZE,
{
    assert forall|k: int| 0 <= k < s.len() implies s[k] >= k by {
        lemma_increasing_grows(s, k);
    }
    if s.len() > TABLE_SIZE {
        assert(s[TABLE_SIZE as int] >= TABLE_SIZE);
    }
}

proof fn lemma_increasing_grows(s: Seq<usize>, k: int)
    requires
        forall|k1: int, k2: int| 0 <= k1 < k2 < s.len() ==> #[trigger] s[k1] < #[trigger] s[k2],
        0 <= k < s.len(),
    ensures
        s[k] >= k,
    decreases k,
{
    if k > 0 {
        lemma_increasing_grows(s, k - 1);
        assert(s[k - 1] < s[k]);
    }
}

/// The order in which the search tries a move (highest first): the move
/// that ends the stored line for this position, then loud moves, killer
/// moves (the newest first), interesting moves, any other move, and the pass
/// last.
pub open spec fn move_value_spec(
    nm: NormalMove,
    pv_last: Option<NormalMove>,
    loud: Seq<bool>,
    interest: Seq<bool>,
    killers: Seq<NormalMove>,
) -> int {
    let index = nm.coord.0;
    if pv_last is Some && pv_last.unwrap().coord.0 == index {
        10001
    } else if loud[index as int] {
        10000
    } else if interest[index as int] {
        8000
    } else if killers.len() > 0 && killers[0].coord.0 == index {
        9000
    } else if killers.len() > 1 && killers[1].coord.0 == index {
        8999
    } else if index == PASS_MOVE_INDEX {
        1
    } else {
        3
    }
}

/// The value of `nm` in the search order.
fn move_value(
    nm: &NormalMove,
    pv_last: Option<NormalMove>,
    loud: &SmallMesh,
    interest: &SmallMesh,
    killers: &KillerSlot,
) -> (v: i64)
    requires
        nm.coord.0 < TABLE_SIZE,
        slot_moves(*killers).len() <= 2,
    ensures
        v == move_value_spec(*nm, pv_last, loud@, interest@, slot_moves(*killers)),
{
    let index = nm.coord.0;
    if let Some(p) = pv_last {
        if p.coord.0 == index {
            return 10001;
        }
    }
    if loud.get_index(index) {
        return 10000;
    }
    if interest.get_index(index) {
        return 8000;
    }
    let mut i: usize = 0;
    while i < killers.len()
        invariant
            index == nm.coord.0,
            !loud@[index as int],
            !interest@[index as int],
            !(pv_last is Some && pv_last.unwrap().coord.0 == index),
            i <= slot_moves(*killers).len() <= 2,
            forall|j: int| 0 <= j < i ==> #[trigger] slot_moves(*killers)[j].coord.0 != index,
        decreases slot_moves(*killers).len() - i,
    {
        let a = killers.get(i);
        if a.coord.0 == index {
            proof {
                assert(i < 2);
                assert(slot_moves(*killers)[i as int].coord.0 == index);
                assert(!loud@[index as int]);
                assert(!interest@[index as int]);
                assert(!(pv_last is Some && pv_last.unwrap().coord.0 == index));
                if i == 1 {
                    assert(slot_moves(*killers)[0].coord.0 != index);
                }
            }
            return 9000 - i as i64;
        }
        i = i + 1;
    }
    if nm.is_pass() {
        return 1;
    }
    3
}

/// Whether entry `k` of `out` is one of the entries of `items`.
pub open spec fn taken_from(out: Seq<(i64, NormalMove)>, items: Seq<(i64, NormalMove)>, k: int) -> bool {
    exists|m: int| 0 <= m < items.len() && out[k] == items[m]
}

/// The moves with their values, in increasing order of value; moves of
/// equal value keep their order.
fn sort_by_value(items: &Vec<(i64, NormalMove)>) -> (out: Vec<(i64, NormalMove)>)
    ensures
        out.len() == items.len(),
        forall|a: int, b: int| 0 <= a < b < out.len() ==> (#[trigger] out[a]).0 <= (#[trigger] out[b]).0,
        forall|k: int| 0 <= k < out.len() ==> #[trigger] taken_from(out@, items@, k),
{
    let mut out: Vec<(i64, NormalMove)> = Vec::new();
    let mut i: usize = 0;
    while i < items.len()
        invariant
            i <= items.len(),
            out.len() == i,
            forall|a: int, b: int| 0 <= a < b < out.len() ==> (#[trigger] out[a]).0 <= (#[trigger] out[b]).0,
            forall|k: int| 0 <= k < out.len() ==> #[trigger] taken_from(out@, items@, k),
        decreases items.len() - i,
    {
        let x = items[i];
        let mut p: usize = 0;
        while p < out.len() && out[p].0 <= x.0
            invariant
                i < items.len(),
                x == items[i as int],
                out.len() == i,
                forall|a: int, b: int| 0 <= a < b < out.len() ==> (#[trigger] out[a]).0 <= (#[trigger] out[b]).0,
                forall|k: int| 0 <= k < out.len() ==> #[trigger] taken_from(out@, items@, k),
                p <= out.len(),
                forall|q: int| 0 <= q < p ==> (#[trigger] out[q]).0 <= x.0,
            decreases out.len() - p,
        {
            p = p + 1;
        }
        let ghost before = out@;
        proof {
            assert forall|q: int| p <= q < out.len() implies (#[trigger] out[q]).0 > x.0 by {
                assert(out[p as int].0 > x.0);
                if q > p {
                    assert(out[p as int].0 <= out[q].0);
                }
            }
        }
        out.insert(p, x);
        proof {
            assert forall|a: int, b: int| 0 <= a < b < out.len() implies (#[trigger] out[a]).0 <= (#[trigger] out[b]).0 by {
                if a < p && b < p {
                    assert(out[a] == before[a] && out[b] == before[b]);
                } else if a < p && b == p {
                    assert(out[a] == before[a]);
                } else if a < p {
                    assert(out[a] == before[a] && out[b] == before[b - 1]);
                    if a < b - 1 {
                        assert(before[a].0 <= before[b - 1].0);
                    }
                } else if a == p {
                    assert(out[b] == before[b - 1]);
                } else {
                    assert(out[a] == before[a - 1] && out[b] == before[b - 1]);
                }
            }
            assert forall|k: int| 0 <= k < out.len() implies #[trigger] taken_from(out@, items@, k) by {
                if k < p {
                    assert(out[k] == before[k]);
                    let m = choose|m: int| 0 <= m < items.len() && before[k] == items[m];
                    assert(taken_from(before, items@, k));
                    assert(out[k] == items[m]);
                } else if k == p {
                    assert(out[k] == items[i as int]);
                } else {
                    assert(out[k] == before[k - 1]);
                    assert(taken_from(before, items@, k - 1));
                    let m = choose|m: int| 0 <= m < items.len() && before[k - 1] == items[m];
                    assert(out[k] == items[m]);
                }
            }
        }
        i = i + 1;
    }
    out
}

impl<'a> AlphaBeta<'a> {
    /// Two searches one after the other keep what each keeps.
    proof fn lemma_kept_trans(
        s0: AlphaBeta<'a>,
        s1: AlphaBeta<'a>,
        s2: AlphaBeta<'a>,
        g0: GameState,
        g1: GameState,
        g2: GameState,
        k0: Key,
        k1: Key,
        k2: Key,
        p0: SpokeInfo,
        p1: SpokeInfo,
        p2: SpokeInfo,
    )
        requires
            s0.kept(&s1, &g0, &g1, k0, k1, &p0, &p1),
            s1.kept(&s2, &g1, &g2, k1, k2, &p1, &p2),
        ensures
            s0.kept(&s2, &g0, &g2, k0, k2, &p0, &p2),
    {
        assert forall|i: int| 0 <= i < TABLE_SIZE implies #[trigger] s2.history_heur[i] <= s0.history_heur[i]
            + HISTORY_STEP * (s2.nodes_visited - s0.nodes_visited) by {
            assert(s2.history_heur[i] <= s1.history_heur[i] + HISTORY_STEP * (s2.nodes_visited - s1.nodes_visited));
            assert(s1.history_heur[i] <= s0.history_heur[i] + HISTORY_STEP * (s1.nodes_visited - s0.nodes_visited));
        }
    }

    /// The alpha-beta search (negamax form) for `team` to `depth` moves,
    /// within the window `ab`: first a null move (the other player moving
    /// twice, two moves shallower) that may cut the search short; then the
    /// stored result for the position narrows the window or answers at once;
    /// then the moves, best first by `move_value_spec`, each searched one
    /// move shallower, until one reaches `beta` (which becomes a killer
    /// move and counts in the history unless it is loud). At depth zero the
    /// quiescence search answers; past the node budget it gives up with
    /// `SMALL_VAL`. Returns the score and the best line, its first move
    /// last; with `update_tt` the result is stored for the position. A line
    /// already at the capacity of a `MoveLine` is kept as it is.
    #[verifier::rlimit(100)]
    #[verifier::spinoff_prover]
    fn negamax(
        &mut self,
        game: &mut GameState,
        key: &mut Key,
        spoke_info: &mut SpokeInfo,
        ab: ABAB,
        team: Team,
        depth: usize,
        update_tt: bool,
    ) -> (r: (Eval, MoveLine))
        requires
            old(self).wf(),
            team != Team::Neutral,
            old(game).factions.wf(),
            old(spoke_info).describes(old(game), old(self).world.radius as int),
            window_ok(ab),
            depth < KILLER_DEPTHS,
        ensures
            old(self).kept(final(self), old(game), final(game), *old(key), *final(key), old(spoke_info), final(spoke_info)),
            final(self).nodes_visited <= if old(self).nodes_visited > MAX_NODE_VISIT + depth {
                old(self).nodes_visited as int
            } else {
                MAX_NODE_VISIT + depth
            },
            in_eval_range(r.0 as int),
            line_ok(line_moves(r.1), old(self).world.radius as int),
            depth == 0 ==> final(self).ttable@ == old(self).ttable@
                && final(self).nodes_visited <= old(self).nodes_visited + quiet_nodes(2),
            depth == 0 && old(self).nodes_visited < MAX_NODE_VISIT ==> r.0 >= -6553600,
            old(self).nodes_visited >= MAX_NODE_VISIT ==> r.0 == SMALL_VAL && line_moves(r.1).len() == 0,
            depth == 0 && final(self).nodes_visited < MAX_NODE_VISIT ==> r.0 == quiet_value(
                old(game).factions.cells@,
                old(spoke_info).data@,
                old(self).world.land_as_vec@,
                old(self).world.radius as int,
                ab.alpha as int,
                ab.beta as int,
                team,
                2,
            ),
            depth == 0 ==> line_moves(r.1).len() == 0,
            depth == 1 && final(self).nodes_visited < MAX_NODE_VISIT && !old(self).ttable@.contains_key(old(key).key)
                && r.0 < ab.beta ==> {
                &&& line_moves(r.1).len() == 1
                &&& exists|a: int| ab.alpha <= a < ab.beta && r.0 == #[trigger] reply_score(
                    old(game).factions.cells@,
                    old(spoke_info).data@,
                    old(self).world.land_as_vec@,
                    old(self).world.radius as int,
                    line_moves(r.1)[0],
                    team,
                    ab.beta as int,
                    a,
                )
            },
            depth == 1 ==> final(self).nodes_visited <= old(self).nodes_visited + (TABLE_SIZE + 2) * (TABLE_SIZE + 2) + 1,
            1 <= depth <= 2 && old(self).nodes_visited < MAX_NODE_VISIT && ab.beta > 6553600
                && !old(self).ttable@.contains_key(old(key).key) ==> line_moves(r.1).len() > 0,
        decreases depth,
    {
        let ghost ab0 = ab;
        let mut ab = ab;
        let ghost radius = self.world.radius as int;
        if self.nodes_visited >= MAX_NODE_VISIT {
            proof {
            }
            return (SMALL_VAL, MoveLine::new());
        }
        if depth == 0 {
            let e = self.quiesance(game, key, spoke_info, ab, team, 2);
            return (e, MoveLine::new());
        }
        let ghost self0 = *self;
        let ghost game0 = *game;
        let ghost key0 = *key;
        let ghost spoke0 = *spoke_info;
        let r: usize = 2;
        let ab2 = ABAB { alpha: -ab.beta, beta: -(ab.beta - 1) };
        let (null_eval, null_line) = self.negamax(game, key, spoke_info, ab2, team.not(), depth.saturating_sub(r), false);
        let null_eval = -null_eval;
        if null_eval >= ab.beta {
            return (null_eval, null_line);
        }
        let ghost self1 = *self;
        let ghost game1 = *game;
        let ghost key1 = *key;
        let ghost spoke1 = *spoke_info;
        proof {
            if depth == 1 && !old(self).ttable@.contains_key(old(key).key) {
                assert(!self.ttable@.contains_key(key.key));
            }
        }
        let alpha_orig = ab.alpha;
        let mut pv_last: Option<NormalMove> = None;
        match self.ttable.get(&key.key) {
            Some(en) => {
                proof {
                    assert(self.ttable@.contains_key(key.key));
                    assert(entry_ok(self.ttable@[key.key], radius));
                }
                if en.depth >= depth {
                    match en.flag {
                        Flag::Exact => {},
                        Flag::UpperBound => {
                            if en.value > ab.alpha {
                                ab.alpha = en.value;
                            }
                        },
                        Flag::LowerBound => {
                            if en.value < ab.beta {
                                ab.beta = en.value;
                            }
                        },
                    }
                }
                if ab.alpha >= ab.beta {
                    return (en.value, en.pv.clone());
                }
                pv_last = en.pv.last();
                proof {
                    if line_moves(en.pv).len() > 0 {
                        assert(move_ok(line_moves(en.pv)[line_moves(en.pv).len() - 1], radius));
                    }
                }
            },
            None => {},
        }
        self.nodes_visited = self.nodes_visited + 1;
        let ghost n1 = self.nodes_visited;
        let loud_moves = game.generate_loud_moves(self.world, team, spoke_info);
        let interest_moves = game.generate_interesting_moves(self.world, team, spoke_info);
        let start = self.moves.len();
        let possible = NormalMove::possible_moves(game, self.world, team, spoke_info, false);
        let mut cands: Vec<(i64, NormalMove)> = Vec::new();
        {
            let killers = self.killer_moves.get(depth);
            let pass = NormalMove::new_pass();
            let pv = move_value(&pass, pv_last, &loud_moves, &interest_moves, killers);
            cands.push((pv, pass));
            let mut q: usize = 0;
            while q < possible.len()
                invariant
                    self.world.wf(),
                    radius == self.world.radius as int,
                    slot_moves(*killers).len() <= 2,
                    q <= possible.len(),
                    cands.len() == q + 1,
                    forall|k: int| 0 <= k < possible.len() ==> land_cell((#[trigger] possible[k]).coord.0 as int, radius - 1),
                    forall|k: int| 0 <= k < cands.len() ==> move_ok((#[trigger] cands[k]).1, radius),
                decreases possible.len() - q,
            {
                let m = possible[q];
                let v = move_value(&m, pv_last, &loud_moves, &interest_moves, killers);
                cands.push((v, m));
                q = q + 1;
            }
        }
        proof {
            lemma_increasing_len(possible@.map_values(|m: NormalMove| m.coord.0));
        }
        let sorted = sort_by_value(&cands);
        let mut q: usize = 0;
        while q < sorted.len()
            invariant
                self.wf(),
                self.world == self1.world,
                self.zobrist == self1.zobrist,
                self.killer_moves == self1.killer_moves,
                self.history_heur@ == self1.history_heur@,
                self.ttable@ == self1.ttable@,
                self.nodes_visited == n1,
                radius == self.world.radius as int,
                self.moves.len() == start + q,
                self.moves@.subrange(0, start as int) == self1.moves@,
                forall|k: int| 0 <= k < cands.len() ==> move_ok((#[trigger] cands[k]).1, radius),
                forall|k: int| 0 <= k < sorted.len() ==> #[trigger] taken_from(sorted@, cands@, k),
                sorted.len() == cands.len(),
                q <= sorted.len(),
            decreases sorted.len() - q,
        {
            let m = sorted[q].1;
            proof {
                assert(taken_from(sorted@, cands@, q as int));
                let mm = choose|mm: int| 0 <= mm < cands.len() && sorted[q as int] == cands[mm];
                assert(move_ok(cands[mm].1, radius));
            }
            self.moves.push(m);
            q = q + 1;
        }
        let end = self.moves.len();
        let mut ab_iter = ab.ab_iter::<MoveLine>();
        let mut it = start;
        let mut cut = false;
        while it < end && !cut
            invariant
                self.wf(),
                self.world == self1.world,
                self.zobrist == self1.zobrist,
                radius == self.world.radius as int,
                team != Team::Neutral,
                0 < depth < KILLER_DEPTHS,
                start <= it <= end,
                !cut ==> self.moves.len() == start + (end - it),
                cut ==> self.moves@ == self1.moves@,
                self.moves@.subrange(0, start as int) == self1.moves@,
                start == self1.moves.len(),
                n1 <= self.nodes_visited <= MAX_NODE_VISIT + depth,
                n1 == self1.nodes_visited + 1,
                self1.nodes_visited <= MAX_NODE_VISIT + depth - 1,
                forall|i: int| 0 <= i < TABLE_SIZE ==> #[trigger] self.history_heur[i] <= self1.history_heur[i]
                    + HISTORY_STEP * (self.nodes_visited - self1.nodes_visited),
                forall|i: int| 0 <= i < TABLE_SIZE ==> #[trigger] self.history_heur[i] <= self1.history_heur[i]
                    + HISTORY_STEP * (self.nodes_visited - n1) || cut,
                *key == key1,
                game.factions.wf(),
                game.factions.cells@ == game1.factions.cells@,
                spoke_info.wf(),
                spoke_info.data@ == spoke1.data@,
                spoke_info.describes(game, radius),
                self1.wf(),
                !cut ==> window_ok(ab_iter.a),
                ab_iter.a.beta == ab.beta,
                in_eval_range(ab_iter.value as int),
                ab_iter.mm.is_some() ==> line_ok(line_moves(ab_iter.mm.unwrap()), radius),
                ab_iter.mm.is_some() ==> line_moves(ab_iter.mm.unwrap()).len() > 0,
                it > start || cut ==> ab_iter.mm.is_some(),
                end - start <= TABLE_SIZE + 1,
                end > start,
                cut ==> it < end,
                depth == 1 ==> self.nodes_visited <= n1 + (it - start + if cut { 1int } else { 0int }) * (TABLE_SIZE + 2),
                ab_iter.a.alpha >= ab.alpha,
                depth == 1 && self.nodes_visited < MAX_NODE_VISIT && ab_iter.mm.is_some() ==> {
                    &&& line_moves(ab_iter.mm.unwrap()).len() == 1
                    &&& exists|a: int| ab.alpha <= a < ab.beta && ab_iter.value == #[trigger] reply_score(
                        game1.factions.cells@,
                        spoke1.data@,
                        self1.world.land_as_vec@,
                        radius,
                        line_moves(ab_iter.mm.unwrap())[0],
                        team,
                        ab.beta as int,
                        a,
                    )
                },
            decreases end - it + if cut { 0int } else { 1int },
        {
            let ghost nodes_head = self.nodes_visited;
            let ghost iter_head = ab_iter;
            let cand = self.moves.pop().unwrap();
            proof {
                assert(self.moves@.subrange(0, start as int) == self1.moves@);
            }
            let ghost gs = *game;
            let ghost ss = *spoke_info;
            let ghost sv = *self;
            let effect = cand.apply(team, game, self.world, Some(&*spoke_info));
            let ghost g1 = *game;
            key.move_update(self.zobrist, cand, team, &effect);
            let temp = spoke_info.process_move_better(cand, team, self.world, game);
            let ghost s1 = *spoke_info;
            proof {
                if cand.coord.0 != PASS_MOVE_INDEX {
                    lemma_process_describes(ss, s1, gs, g1, cand.coord.0 as int, radius, placed_piece(gs.factions.cells[cand.coord.0 as int], cand.stack, team));
                }
            }
            let ghost nodes_start = self.nodes_visited;
            let child_ab = ab_iter.clone_ab_values().neg();
            let ghost alpha_now = ab_iter.a.alpha as int;
            let (eval, m) = self.negamax(game, key, spoke_info, child_ab, team.not(), depth - 1, true);
            proof {
                if depth == 1 && self.nodes_visited < MAX_NODE_VISIT {
                    assert(g1.factions.cells@ == cells_after(game1.factions.cells@, cand, team));
                    if cand.coord.0 != PASS_MOVE_INDEX {
                        lemma_data_after(s1.data@, spoke1.data@, game1.factions.cells@, cand, team, radius);
                    }
                    assert(-eval == reply_score(game1.factions.cells@, spoke1.data@, self1.world.land_as_vec@, radius, cand, team, ab.beta as int, alpha_now));
                }
            }
            let eval = -eval;
            let ghost g1p = *game;
            let ghost s1p = *spoke_info;
            proof {
                if cand.coord.0 != PASS_MOVE_INDEX {
                    lemma_temp_after_search(g1.factions.cells@, g1p.factions.cells@, cand.coord.0 as int, radius, temp);
                }
            }
            spoke_info.undo_move(cand, &effect, team, self.world, game, temp);
            cand.undo(&effect, game);
            key.move_undo(self.zobrist, cand, team, &effect);
            proof {
                lemma_key_update_undo(key1.key, *self.zobrist, cand, team, effect);
                lemma_search_round_trip(gs, g1, g1p, *game, ss, s1, s1p, *spoke_info, cand, team, effect, radius);
            }
            let mut m = m;
            if m.len() < STACK_SIZE {
                m.push(cand);
            }
            let ghost pushed = line_moves(m);
            let ghost pre_iter = ab_iter;
            let ghost alpha_used = alpha_now;
            let ghost eval_now = eval as int;
            if !ab_iter.keep_going(m, eval) {
                if !loud_moves.get_index(cand.coord.0) {
                    self.killer_moves.consider(depth, cand);
                    let c = cand.coord.0;
                    let h = self.history_heur[c];
                    proof {
                        assert(h <= self1.history_heur[c as int] + HISTORY_STEP * (self.nodes_visited - n1));
                        assert(self1.history_heur[c as int] <= HISTORY_STEP * self1.nodes_visited);
                        assert(depth * depth <= HISTORY_STEP) by (nonlinear_arith)
                            requires
                                depth < KILLER_DEPTHS,
                        ;
                    }
                    self.history_heur.set(c, h + depth * depth);
                }
                self.moves.truncate(start);
                proof {
                    assert(self.moves@ =~= self1.moves@);
                }
                cut = true;
            } else {
                it = it + 1;
            }
            proof {
                if depth == 1 && self.nodes_visited < MAX_NODE_VISIT && ab_iter.mm.is_some() {
                    if pre_iter.mm.is_none() || eval_now > pre_iter.value {
                        assert(pushed =~= seq![cand]);
                        assert(line_moves(ab_iter.mm.unwrap()) == pushed);
                        assert(line_moves(ab_iter.mm.unwrap()).len() == 1);
                        assert(line_moves(ab_iter.mm.unwrap())[0] == cand);
                        assert(ab.alpha <= alpha_used < ab.beta);
                        assert(ab_iter.value == reply_score(
                            game1.factions.cells@,
                            spoke1.data@,
                            self1.world.land_as_vec@,
                            radius,
                            line_moves(ab_iter.mm.unwrap())[0],
                            team,
                            ab.beta as int,
                            alpha_used,
                        ));
                        assert(exists|a: int| ab.alpha <= a < ab.beta && ab_iter.value == #[trigger] reply_score(
                            game1.factions.cells@,
                            spoke1.data@,
                            self1.world.land_as_vec@,
                            radius,
                            line_moves(ab_iter.mm.unwrap())[0],
                            team,
                            ab.beta as int,
                            a,
                        ));
                    } else {
                        assert(nodes_start <= self.nodes_visited);
                        assert(ab_iter.mm == pre_iter.mm && ab_iter.value == pre_iter.value);
                        assert(line_moves(ab_iter.mm.unwrap()).len() == 1);
                        assert(nodes_head < MAX_NODE_VISIT);
                        assert(pre_iter.mm.is_some());
                        assert(pre_iter.mm == iter_head.mm && pre_iter.value == iter_head.value);
                        assert(iter_head.mm.is_some());
                        assert(line_moves(iter_head.mm.unwrap()).len() == 1);
                        assert(exists|a: int| ab.alpha <= a < ab.beta && pre_iter.value == #[trigger] reply_score(
                            game1.factions.cells@,
                            spoke1.data@,
                            self1.world.land_as_vec@,
                            radius,
                            line_moves(pre_iter.mm.unwrap())[0],
                            team,
                            ab.beta as int,
                            a,
                        ));
                    }
                }
            }
        }
        proof {
            if !cut {
                assert(self.moves@ =~= self.moves@.subrange(0, start as int));
            }
        }
        let (eval, line) = ab_iter.finish();
        let line = match line {
            Some(l) => l,
            None => MoveLine::new(),
        };
        if update_tt {
            let flag = if eval <= alpha_orig {
                Flag::UpperBound
            } else if eval >= ab.beta {
                Flag::LowerBound
            } else {
                Flag::Exact
            };
            let entry = TTEntry { value: eval, depth, flag, pv: line.clone() };
            self.ttable.insert(key.key, entry);
        }
        proof {
            Self::lemma_kept_trans(self0, self1, *self, game0, game1, *game, key0, key1, *key, spoke0, spoke1, *spoke_info);
            if depth == 1 && self.nodes_visited < MAX_NODE_VISIT && !old(self).ttable@.contains_key(old(key).key) {
                assert(ab == ab0);
                assert(game1.factions.cells@ == old(game).factions.cells@);
                assert(spoke1.data@ == old(spoke_info).data@);
                assert(self1.world == old(self).world);
                assert(line_moves(line).len() == 1);
            }
        }
        (eval, line)
    }
}


/// The best line found and its score, with moves that are passes or land
/// moves.
pub open spec fn res_ok(r: Res, radius: int) -> bool {
    &&& 1 <= r.line.len() <= STACK_SIZE
    &&& forall|k: int| 0 <= k < r.line.len() ==> move_ok(#[trigger] r.line[k], radius)
    &&& in_eval_range(r.eval as int)
}

/// Iterative deepening: searches `team`'s position to depth 1, 2, ... up to
/// `len`, sharing the hash table, killer moves and node budget between the
/// depths, and keeps the line and score of the deepest search that finished
/// within the budget with a line. Stops early once the budget is spent or a
/// search finds no line.
#[verifier::rlimit(60)]
pub fn iterative_deepening2(
    game: &GameState,
    world: &MyWorld,
    team: Team,
    len: usize,
    zobrist: &Zobrist,
) -> (results: Option<Res>)
    requires
        game.factions.wf(),
        world.wf(),
        zobrist.wf(),
        team != Team::Neutral,
        len < KILLER_DEPTHS,
    ensures
        results.is_some() == (len > 0),
        results matches Some(r) ==> res_ok(r, world.radius as int),
{
    let mut results: Option<Res> = None;
    let mut spoke_info = SpokeInfo::new(game, world);
    let mut key = Key::from_scratch(zobrist, game, world, team);
    let mut game_orig = game.clone();
    let mut history_heur: Vec<usize> = Vec::new();
    let mut h: usize = 0;
    while h < TABLE_SIZE
        invariant
            h <= TABLE_SIZE,
            history_heur.len() == h,
            forall|i: int| 0 <= i < h ==> #[trigger] history_heur[i] == 0,
        decreases TABLE_SIZE - h,
    {
        history_heur.push(0);
        h = h + 1;
    }
    let mut search = AlphaBeta {
        ttable: HashMap::new(),
        killer_moves: KillerMoves::new(KILLER_DEPTHS),
        evaluator: Evaluator::default(),
        world,
        moves: Vec::new(),
        nodes_visited: 0,
        qui_nodes_visited: 0,
        zobrist,
        history_heur,
    };
    proof {
        assert(game_orig.factions.cells@ == game.factions.cells@);
        assert(spoke_info.describes(&game_orig, world.radius as int));
    }
    let mut depth: usize = 0;
    while depth < len
        invariant_except_break
            search.nodes_visited < MAX_NODE_VISIT,
        invariant
            search.wf(),
            search.world == world,
            search.zobrist == zobrist,
            search.moves.len() == 0,
            world.wf(),
            team != Team::Neutral,
            len < KILLER_DEPTHS,
            depth <= len,
            game_orig.factions.wf(),
            spoke_info.describes(&game_orig, world.radius as int),
            results matches Some(r) ==> res_ok(r, world.radius as int),
            depth == 0 ==> results.is_none(),
            depth == 0 ==> search.nodes_visited == 0 && search.ttable@ == Map::<u64, TTEntry>::empty(),
            depth > 0 ==> results.is_some(),
        ensures
            depth > 0 || len == 0,
        decreases len - depth,
    {
        let d = depth + 1;
        let ghost before = search;
        let (res, mov) = search.negamax(&mut game_orig, &mut key, &mut spoke_info, ABAB::new(), team, d, true);
        proof {
            if depth == 0 {
                assert(!before.ttable@.contains_key(key.key));
                assert(line_moves(mov).len() > 0);
                assert(search.nodes_visited < MAX_NODE_VISIT);
            }
            assert forall|i: int| 0 <= i < TABLE_SIZE implies #[trigger] search.history_heur[i] <= HISTORY_STEP * search.nodes_visited by {
                assert(search.history_heur[i] <= before.history_heur[i] + HISTORY_STEP * (search.nodes_visited - before.nodes_visited));
            }
        }
        if search.nodes_visited >= MAX_NODE_VISIT {
            break;
        }
        let ghost unreversed = line_moves(mov);
        let mut mov = mov;
        mov.reverse();
        proof {
            assert(line_moves(mov).len() == unreversed.len());
        }
        if mov.len() > 0 {
            let line = mov.to_vec();
            proof {
                assert forall|k: int| 0 <= k < line.len() implies move_ok(#[trigger] line[k], world.radius as int) by {
                    assert(line_moves(mov) == line_moves(mov).reverse().reverse());
                    assert(line[k] == line_moves(mov)[k]);
                }
            }
            results = Some(Res { line, eval: res });
        } else {
            break;
        }
        depth = depth + 1;
    }
    results
}

/// Whether the computer should pass instead of playing the line `a`: when
/// the line is empty, or when the last move of the game was a pass (the
/// other player wants the game to end).
pub fn should_pass(
    a: &Res,
    _team: Team,
    _game_orig: &mut GameState,
    _world: &MyWorld,
    move_history: &MoveHistory<HistoryOneMove>,
) -> (b: bool)
    ensures
        b == (a.line.len() == 0 || (move_history.inner.len() > 0 && match move_history.inner@.last().r {
            GenericMove::Normal(n) => n.0.coord.0 == PASS_MOVE_INDEX,
            GenericMove::Lighthouse(_) => false,
        })),
        *final(_game_orig) == *old(_game_orig),
{
    if a.line.len() == 0 {
        return true;
    }
    let n = move_history.inner.len();
    if n > 0 {
        let g = &move_history.inner[n - 1];
        if let GenericMove::Normal(nm) = &g.r {
            if nm.0.is_pass() {
                return true;
            }
        }
    }
    false
}

/// The computer's move for `team`: the first move of the line found by a
/// search nine moves deep, or the pass when the search finds nothing or
/// `should_pass` says so.
pub fn calculate_move(
    game: &mut GameState,
    world: &MyWorld,
    team: Team,
    move_history: &MoveHistory<HistoryOneMove>,
    zobrist: &Zobrist,
) -> (m: NormalMove)
    requires
        old(game).factions.wf(),
        world.wf(),
        zobrist.wf(),
        team != Team::Neutral,
    ensures
        final(game).factions.cells@ == old(game).factions.cells@,
        move_ok(m, world.radius as int),
        (move_history.inner.len() > 0 && match move_history.inner@.last().r {
            GenericMove::Normal(n) => n.0.coord.0 == PASS_MOVE_INDEX,
            GenericMove::Lighthouse(_) => false,
        }) ==> m.coord.0 == PASS_MOVE_INDEX,
{
    let found = iterative_deepening2(game, world, team, 9, zobrist);
    match found {
        Some(mo) => {
            if should_pass(&mo, team, game, world, move_history) {
                NormalMove::new_pass()
            } else {
                mo.line[0]
            }
        },
        None => NormalMove::new_pass(),
    }
}


/// What a cell is worth to `team` when it spreads: one more than the height
/// of a stack of `team`, nothing otherwise.
pub open spec fn own_weight(c: GameCell<Piece>, team: Team) -> int {
    match c {
        GameCell::Piece(p) => if p.team == team { 1 + height_num(p.height) } else { 0 },
        GameCell::Empty => 0,
    }
}

/// The sum of `own_weight` over `cells`.
pub open spec fn spread(cells: Seq<GameCell<Piece>>, team: Team) -> int
    decreases cells.len(),
{
    if cells.len() == 0 {
        0
    } else {
        spread(cells.drop_last(), team) + own_weight(cells.last(), team)
    }
}

/// The spread is between zero and seven per cell, and changing one cell
/// changes it by the change of that cell's weight.
pub proof fn lemma_spread_update(cells: Seq<GameCell<Piece>>, team: Team, i: int, c: GameCell<Piece>)
    requires
        0 <= i < cells.len(),
    ensures
        spread(cells.update(i, c), team) == spread(cells, team) - own_weight(cells[i], team) + own_weight(c, team),
        0 <= spread(cells, team) <= 7 * cells.len(),
    decreases cells.len(),
{
    let u = cells.update(i, c);
    if i == cells.len() - 1 {
        assert(u.drop_last() =~= cells.drop_last());
        lemma_spread_bounds(cells.drop_last(), team);
    } else {
        assert(u.drop_last() =~= cells.drop_last().update(i, c));
        lemma_spread_update(cells.drop_last(), team, i, c);
    }
}

proof fn lemma_spread_bounds(cells: Seq<GameCell<Piece>>, team: Team)
    ensures
        0 <= spread(cells, team) <= 7 * cells.len(),
    decreases cells.len(),
{
    if cells.len() > 0 {
        lemma_spread_bounds(cells.drop_last(), team);
    }
}

/// Whether `after` is the cell `before`, seen by `n` pieces of `team`, once
/// `team` has raised it: a stack of `team` lower than `n` becomes `n` high
/// and keeps its lighthouse; any other cell stays as it is.
pub open spec fn raised_cell(before: GameCell<Piece>, after: GameCell<Piece>, n: int, team: Team) -> bool {
    match before {
        GameCell::Piece(p) => if p.team == team && n > height_num(p.height) {
            after matches GameCell::Piece(q) && q.team == team && q.has_lighthouse == p.has_lighthouse
                && height_num(q.height) == n
        } else {
            after == before
        },
        GameCell::Empty => after == before,
    }
}

/// The cell `c`, seen by `n` pieces of `team`, once `team` has raised it.
pub open spec fn raised_cell_of(c: GameCell<Piece>, n: int, team: Team) -> GameCell<Piece> {
    match c {
        GameCell::Piece(p) => if p.team == team && n > height_num(p.height) {
            GameCell::Piece(Piece { height: crate::main_logic::height_of(n), team, has_lighthouse: p.has_lighthouse })
        } else {
            c
        },
        GameCell::Empty => c,
    }
}

/// The position after `team` raises each of its stacks on land to the
/// number of its pieces that see it, where that is more.
pub open spec fn raised_cells(cells: Seq<GameCell<Piece>>, radius: int, team: Team) -> Seq<GameCell<Piece>> {
    Seq::new(cells.len(), |i: int| raised_cell_of(cells[i], land_seen_count(cells, i, radius, team), team))
}

/// The number of `team`'s pieces that see table index `i`, counted on land
/// cells only.
pub open spec fn land_seen_count(cells: Seq<GameCell<Piece>>, i: int, radius: int, team: Team) -> int {
    if land_cell(i, radius - 1) {
        crate::unit::seen_count(cells, i, radius, team)
    } else {
        0
    }
}

/// The counts a spoke table that describes a position holds for `team`.
proof fn lemma_team_count(s: SpokeInfo, g: GameState, radius: int, j: int, team: Team)
    requires
        s.describes(&g, radius),
        land_cell(j, radius - 1),
        radius <= 8,
        team != Team::Neutral,
    ensures
        s.data[j].num_attack[team_index(team)] == crate::unit::seen_count(g.factions.cells@, j, radius, team),
        s.data[j].num_attack[team_index(team_not(team))] == crate::unit::seen_count(g.factions.cells@, j, radius, team_not(team)),
{
    crate::main_logic::lemma_counts_are_seen(s, g, radius, j);
}

/// `team` raises every stack of its own that more of its pieces see than it
/// is high, to the number that see it, going through the land cells in order.
/// Raising a stack changes what no piece sees, so every count is that of the
/// position it started from.
#[verifier::rlimit(50)]
#[verifier::spinoff_prover]
fn reinforce(team: Team, game: &mut GameState, world: &MyWorld)
    requires
        old(game).factions.wf(),
        world.wf(),
        team != Team::Neutral,
    ensures
        final(game).factions.wf(),
        final(game).factions.cells@ == raised_cells(old(game).factions.cells@, world.radius as int, team),
{
    let ghost g0 = game.factions.cells@;
    let ghost radius = world.radius as int;
    let mut spoke = SpokeInfo::new(game, world);
    let lv = &world.land_as_vec;
    let mut k: usize = 0;
    while k < lv.len()
        invariant
            game.factions.wf(),
            world.wf(),
            radius == world.radius as int,
            spoke.describes(game, radius),
            team != Team::Neutral,
            lv == &world.land_as_vec,
            k <= lv.len(),
            g0.len() == TABLE_SIZE,
            crate::spoke_laws::same_occupants(game.factions.cells@, g0),
            forall|j: int| 0 <= j < k ==> raised_cell(
                g0[lv[j] as int],
                #[trigger] game.factions.cells[lv[j] as int],
                land_seen_count(g0, lv[j] as int, radius, team),
                team,
            ),
            forall|i: int| 0 <= i < TABLE_SIZE && !lv@.subrange(0, k as int).contains(i as usize)
                ==> #[trigger] game.factions.cells[i] == g0[i],
        decreases lv.len() - k,
    {
        let index = lv[k];
        let ghost gk = game.factions.cells@;
        proof {
            assert(is_land(world.radius as int)(index as int));
            crate::unit::lemma_land_not_pass(index as int, world.radius as int);
            lemma_team_count(spoke, *game, radius, index as int, team);
            crate::spoke_laws::lemma_seen_count_same_occupants(gk, g0, index as int, radius, team);
            if lv@.subrange(0, k as int).contains(index) {
                let j = choose|j: int| 0 <= j < k && lv@.subrange(0, k as int)[j] == index;
                assert(lv[j] < lv[k as int]);
            }
            assert(gk[index as int] == g0[index as int]);
            assert(lv@.subrange(0, k + 1) =~= lv@.subrange(0, k as int).push(index));
        }
        let n = at_team(spoke.get_num_attack(index), team);
        match game.factions.get_cell_inner(index) {
            GameCell::Piece(p) => {
                if p.team == team && n > p.height.to_num() as i64 {
                    let ghost before = *game;
                    let stack = Coordinate(index).determine_stack_height(game, world, team, &spoke);
                    let m = NormalMove { coord: Coordinate(index), stack };
                    let _e = m.apply(team, game, world, Some(&spoke));
                    let stack2 = Coordinate(index).determine_stack_height(game, world, team, &spoke);
                    let ghost old_spoke = spoke;
                    let _s = spoke.process_move_better(NormalMove { coord: Coordinate(index), stack: stack2 }, team, world, game);
                    proof {
                        lemma_process_describes(
                            old_spoke,
                            spoke,
                            before,
                            *game,
                            index as int,
                            radius,
                            placed_piece(gk[index as int], stack, team),
                        );
                    }
                }
            },
            GameCell::Empty => {},
        }
        proof {
            assert forall|i: int| 0 <= i < TABLE_SIZE && !lv@.subrange(0, k + 1).contains(i as usize)
                implies #[trigger] game.factions.cells[i] == g0[i] by {
                assert(lv@.subrange(0, k + 1)[k as int] == index);
                if lv@.subrange(0, k as int).contains(i as usize) {
                    let j = choose|j: int| 0 <= j < k && lv@.subrange(0, k as int)[j] == i as usize;
                    assert(lv@.subrange(0, k + 1)[j] == i as usize);
                }
                assert(i != index);
                assert(game.factions.cells[i] == gk[i]);
            }
            assert forall|j: int| 0 <= j < k + 1 implies raised_cell(
                g0[lv[j] as int],
                #[trigger] game.factions.cells[lv[j] as int],
                land_seen_count(g0, lv[j] as int, radius, team),
                team,
            ) by {
                if j < k {
                    assert(lv[j] < lv[k as int]);
                }
            }
        }
        k = k + 1;
    }
    proof {
        assert forall|i: int| 0 <= i < TABLE_SIZE implies raised_cell(
            g0[i],
            #[trigger] game.factions.cells[i],
            land_seen_count(g0, i, radius, team),
            team,
        ) by {
            if land_cell(i, radius - 1) {
                assert(is_land(radius)(i));
                assert(lv@.contains(i as usize));
                let j = choose|j: int| 0 <= j < lv.len() && lv[j] == i as usize;
                assert(raised_cell(g0[lv[j] as int], game.factions.cells[lv[j] as int], land_seen_count(g0, lv[j] as int, radius, team), team));
            } else {
                if lv@.subrange(0, k as int).contains(i as usize) {
                    let j = choose|j: int| 0 <= j < k && lv@.subrange(0, k as int)[j] == i as usize;
                    assert(is_land(radius)(lv[j] as int));
                }
            }
        }
        assert forall|i: int| 0 <= i < TABLE_SIZE implies #[trigger] game.factions.cells[i] == raised_cells(g0, radius, team)[i] by {
            assert(raised_cell(g0[i], game.factions.cells[i], land_seen_count(g0, i, radius, team), team));
        }
        assert(game.factions.cells@ =~= raised_cells(g0, radius, team));
    }
}

/// Whether `after` can come from `before` by moves of `team`: the cell is
/// unchanged, or it now holds a stack of `team` that is higher than the
/// stack `team` had there and keeps its lighthouse, or that took an empty
/// cell or another player's stack and has no lighthouse.
pub open spec fn spread_cell(before: GameCell<Piece>, after: GameCell<Piece>, team: Team) -> bool {
    after == before || match after {
        GameCell::Piece(q) => q.team == team && match before {
            GameCell::Piece(p) => if p.team == team {
                q.has_lighthouse == p.has_lighthouse && height_num(q.height) > height_num(p.height)
            } else {
                !q.has_lighthouse
            },
            GameCell::Empty => !q.has_lighthouse,
        },
        GameCell::Empty => false,
    }
}

/// A stack of `team` placed over a cell reached by moves of `team`, higher
/// than the stack already there, is reached by moves of `team` too.
proof fn lemma_spread_cell_step(before: GameCell<Piece>, cur: GameCell<Piece>, stack: StackHeight, team: Team)
    requires
        spread_cell(before, cur, team),
        match cur {
            GameCell::Piece(p) => height_num(stack) > height_num(p.height),
            GameCell::Empty => true,
        },
    ensures
        spread_cell(before, placed_cell(cur, stack, team), team),
{
}

/// Whether `team` may play on the land cell `i` of `cells` without losing
/// the stack at once: some of its pieces see the cell, at least as many as
/// of the other player's, and more than the height of a stack already there.
pub open spec fn safe_move(cells: Seq<GameCell<Piece>>, radius: int, team: Team, i: int) -> bool {
    let mine = crate::unit::seen_count(cells, i, radius, team);
    let theirs = crate::unit::seen_count(cells, i, radius, team_not(team));
    &&& mine > 0
    &&& mine >= theirs
    &&& match cells[i] {
        GameCell::Piece(p) => mine > height_num(p.height),
        GameCell::Empty => true,
    }
}

/// One round of spreading: going through the land cells `lv[k..]` in order,
/// `team` plays on each where it has a safe move, a stack as high as the
/// number of its pieces that see the cell.
pub open spec fn spread_round(cells: Seq<GameCell<Piece>>, radius: int, team: Team, lv: Seq<usize>, k: int) -> Seq<GameCell<Piece>>
    decreases lv.len() - k,
{
    if k >= lv.len() || k < 0 {
        cells
    } else {
        let i = lv[k] as int;
        let next = if safe_move(cells, radius, team, i) {
            cells.update(
                i,
                placed_cell(cells[i], crate::main_logic::height_of(crate::unit::seen_count(cells, i, radius, team)), team),
            )
        } else {
            cells
        };
        spread_round(next, radius, team, lv, k + 1)
    }
}

/// Rounds of spreading, at most `fuel` of them, until a round changes
/// nothing.
pub open spec fn spread_out(cells: Seq<GameCell<Piece>>, radius: int, team: Team, lv: Seq<usize>, fuel: nat) -> Seq<GameCell<Piece>>
    decreases fuel,
{
    if fuel == 0 {
        cells
    } else {
        let next = spread_round(cells, radius, team, lv, 0);
        if next == cells {
            cells
        } else {
            spread_out(next, radius, team, lv, (fuel - 1) as nat)
        }
    }
}

/// Enough rounds for spreading to stop: each round that changes something
/// adds to the spread, which is at most seven per cell.
pub open spec fn spread_fuel() -> nat {
    (7 * TABLE_SIZE + 1) as nat
}

/// `team` keeps playing, over and over through the land cells in order,
/// every move it may play without losing the stack at once, until a whole
/// round plays none. Every such move adds to `team`'s spread, so the rounds
/// end: then no land cell has such a move left, and every cell is as it was
/// or holds a stack of `team` that moves of `team` put there.
#[verifier::rlimit(40)]
#[verifier::spinoff_prover]
fn expand(team: Team, game: &mut GameState, world: &MyWorld)
    requires
        old(game).factions.wf(),
        world.wf(),
        team != Team::Neutral,
    ensures
        final(game).factions.wf(),
        final(game).factions.cells@ == spread_out(
            old(game).factions.cells@,
            world.radius as int,
            team,
            world.land_as_vec@,
            spread_fuel(),
        ),
        forall|i: int| 0 <= i < TABLE_SIZE ==> spread_cell(
            old(game).factions.cells[i],
            #[trigger] final(game).factions.cells[i],
            team,
        ),
        forall|i: int| #[trigger] land_cell(i, world.radius - 1) ==> !safe_move(
            final(game).factions.cells@,
            world.radius as int,
            team,
            i,
        ),
{
    let ghost g0 = game.factions.cells@;
    let ghost radius = world.radius as int;
    let ghost target = spread_out(g0, radius, team, world.land_as_vec@, spread_fuel());
    let ghost mut fuel: nat = spread_fuel();
    let mut progress = true;
    let mut spoke = SpokeInfo::new(game, world);
    proof {
        lemma_spread_bounds(game.factions.cells@, team);
    }
    while progress
        invariant
            game.factions.wf(),
            world.wf(),
            radius == world.radius as int,
            target == spread_out(g0, radius, team, world.land_as_vec@, spread_fuel()),
            progress ==> spread_out(game.factions.cells@, radius, team, world.land_as_vec@, fuel) == target,
            progress ==> fuel >= 1 + 7 * TABLE_SIZE - spread(game.factions.cells@, team),
            !progress ==> game.factions.cells@ == target,
            spoke.describes(game, radius),
            team != Team::Neutral,
            0 <= spread(game.factions.cells@, team) <= 7 * TABLE_SIZE,
            forall|i: int| 0 <= i < TABLE_SIZE ==> spread_cell(g0[i], #[trigger] game.factions.cells[i], team),
            !progress ==> forall|i: int| #[trigger] land_cell(i, radius - 1) ==> !safe_move(
                game.factions.cells@,
                radius,
                team,
                i,
            ),
        decreases 2 * (7 * TABLE_SIZE - spread(game.factions.cells@, team)) + if progress { 1int } else { 0int },
    {
        progress = false;
        let ghost start = spread(game.factions.cells@, team);
        let ghost round = game.factions.cells@;
        let lv = &world.land_as_vec;
        let mut k: usize = 0;
        while k < lv.len()
            invariant
                game.factions.wf(),
                world.wf(),
                radius == world.radius as int,
                spoke.describes(game, radius),
                team != Team::Neutral,
                lv == &world.land_as_vec,
                k <= lv.len(),
                0 <= spread(game.factions.cells@, team) <= 7 * TABLE_SIZE,
                progress ==> spread(game.factions.cells@, team) > start,
                !progress ==> spread(game.factions.cells@, team) == start,
                !progress ==> game.factions.cells@ == round,
                spread_round(game.factions.cells@, radius, team, lv@, k as int) == spread_round(round, radius, team, lv@, 0),
                !progress ==> forall|j: int| 0 <= j < k ==> !safe_move(
                    game.factions.cells@,
                    radius,
                    team,
                    #[trigger] lv[j] as int,
                ),
                forall|i: int| 0 <= i < TABLE_SIZE ==> spread_cell(g0[i], #[trigger] game.factions.cells[i], team),
            decreases lv.len() - k,
        {
            let index = lv[k];
            let ghost gk = *game;
            proof {
                assert(is_land(world.radius as int)(index as int));
                crate::unit::lemma_land_not_pass(index as int, world.radius as int);
                assert(spoke.data[index as int].wf());
                crate::ai::lemma_attack_bounds(spoke.data[index as int]);
                lemma_team_count(spoke, *game, radius, index as int, team);
            }
            if let Some(f) = NormalMove::playable(game, Coordinate(index), team, world, &spoke) {
                if !f.is_suicidal() {
                    let stack = Coordinate(index).determine_stack_height(game, world, team, &spoke);
                    let m = NormalMove { stack, coord: Coordinate(index) };
                    let ghost before = game.factions.cells@;
                    let _e = m.apply(team, game, world, Some(&spoke));
                    proof {
                        assert(stack == crate::main_logic::height_of(crate::unit::seen_count(before, index as int, radius, team)));
                        assert(safe_move(before, radius, team, index as int));
                        assert(spread_round(before, radius, team, lv@, k as int) == spread_round(game.factions.cells@, radius, team, lv@, k + 1));
                        lemma_spread_update(before, team, index as int, placed_cell(before[index as int], stack, team));
                        lemma_spread_bounds(game.factions.cells@, team);
                        assert forall|i: int| 0 <= i < TABLE_SIZE implies spread_cell(g0[i], #[trigger] game.factions.cells[i], team) by {
                            if i != index {
                                assert(game.factions.cells[i] == gk.factions.cells[i]);
                            } else {
                                lemma_spread_cell_step(g0[i], gk.factions.cells[i], stack, team);
                            }
                        }
                    }
                    let stack2 = Coordinate(index).determine_stack_height(game, world, team, &spoke);
                    let ghost old_spoke = spoke;
                    let _s = spoke.process_move_better(NormalMove { stack: stack2, coord: Coordinate(index) }, team, world, game);
                    proof {
                        lemma_process_describes(
                            old_spoke,
                            spoke,
                            gk,
                            *game,
                            index as int,
                            radius,
                            placed_piece(gk.factions.cells[index as int], stack, team),
                        );
                    }
                    progress = true;
                }
            }
            proof {
                if game.factions.cells@ == gk.factions.cells@ {
                    assert(!safe_move(gk.factions.cells@, radius, team, index as int));
                    assert(spread_round(gk.factions.cells@, radius, team, lv@, k as int) == spread_round(game.factions.cells@, radius, team, lv@, k + 1));
                }
            }
            k = k + 1;
        }
        proof {
            assert(spread_round(game.factions.cells@, radius, team, lv@, k as int) == game.factions.cells@);
            if progress {
                assert(game.factions.cells@ != round);
                assert(spread_out(round, radius, team, lv@, fuel) == spread_out(game.factions.cells@, radius, team, lv@, (fuel - 1) as nat));
                fuel = (fuel - 1) as nat;
            } else {
                assert(spread_out(round, radius, team, lv@, fuel) == round);
            }
            if !progress {
                assert forall|i: int| #[trigger] land_cell(i, radius - 1) implies !safe_move(
                    game.factions.cells@,
                    radius,
                    team,
                    i,
                ) by {
                    assert(is_land(radius)(i));
                    assert(lv@.contains(i as usize));
                    let j = choose|j: int| 0 <= j < lv.len() && lv[j] == i as usize;
                    assert(!safe_move(game.factions.cells@, radius, team, lv[j] as int));
                }
            }
        }
    }
}

/// The position after the other player spreads as far as it safely can and
/// raises its stacks, and then `team` spreads.
pub open spec fn secured_cells(cells: Seq<GameCell<Piece>>, radius: int, lv: Seq<usize>, team: Team) -> Seq<GameCell<Piece>> {
    let other = team_not(team);
    spread_out(
        raised_cells(spread_out(cells, radius, other, lv, spread_fuel()), radius, other),
        radius,
        team,
        lv,
        spread_fuel(),
    )
}

/// The number of the cells listed in `lv` that hold a stack of `team`.
pub open spec fn held_count(cells: Seq<GameCell<Piece>>, lv: Seq<usize>, team: Team) -> int
    decreases lv.len(),
{
    if lv.len() == 0 {
        0
    } else {
        held_count(cells, lv.drop_last(), team) + if cells[lv.last() as int] matches GameCell::Piece(p) && p.team == team {
            1int
        } else {
            0int
        }
    }
}

/// The number of land cells of `g` that hold a stack of `team`.
fn held_on_land(g: &GameState, world: &MyWorld, team: Team) -> (count: i64)
    requires
        g.factions.wf(),
        world.wf(),
    ensures
        count == held_count(g.factions.cells@, world.land_as_vec@, team),
        0 <= count <= world.land_as_vec.len(),
{
    let lv = &world.land_as_vec;
    proof {
        lemma_enumeration_len(lv@, is_land(world.radius as int));
    }
    let mut count: i64 = 0;
    let mut k: usize = 0;
    while k < lv.len()
        invariant
            g.factions.wf(),
            world.wf(),
            lv == &world.land_as_vec,
            k <= lv.len(),
            lv.len() <= TABLE_SIZE,
            0 <= count <= k,
            count == held_count(g.factions.cells@, lv@.subrange(0, k as int), team),
        decreases lv.len() - k,
    {
        let index = lv[k];
        proof {
            assert(is_land(world.radius as int)(index as int));
            crate::unit::lemma_land_not_pass(index as int, world.radius as int);
            assert(lv@.subrange(0, k + 1).drop_last() =~= lv@.subrange(0, k as int));
        }
        match g.factions.get_cell_inner(index) {
            GameCell::Piece(p) => {
                if p.team == team {
                    count = count + 1;
                }
            },
            GameCell::Empty => {},
        }
        k = k + 1;
    }
    proof {
        assert(lv@.subrange(0, k as int) =~= lv@);
    }
    count
}

/// The land cells `team` is sure to hold: on a copy of the position, the
/// other player spreads and raises its stacks, then `team` spreads.
fn secure_count(game: &GameState, world: &MyWorld, team: Team) -> (count: i64)
    requires
        game.factions.wf(),
        world.wf(),
        team != Team::Neutral,
    ensures
        count == held_count(secured_cells(game.factions.cells@, world.radius as int, world.land_as_vec@, team), world.land_as_vec@, team),
        0 <= count <= world.land_as_vec.len(),
{
    let mut g = game.clone();
    proof {
        assert(g.factions.cells@ == game.factions.cells@);
    }
    expand(team.not(), &mut g, world);
    reinforce(team.not(), &mut g, world);
    expand(team, &mut g, world);
    held_on_land(&g, world, team)
}

/// The land cells each player is sure to hold: for each player, on a copy
/// of the position, the other player first spreads as far as it safely can
/// and raises its stacks, then the player spreads; the player's stacks on
/// land are then counted.
pub fn calculate_secure_points(game: &GameState, world: &MyWorld) -> (score: [i64; 2])
    requires
        game.factions.wf(),
        world.wf(),
    ensures
        score[0] == held_count(
            secured_cells(game.factions.cells@, world.radius as int, world.land_as_vec@, Team::White),
            world.land_as_vec@,
            Team::White,
        ),
        score[1] == held_count(
            secured_cells(game.factions.cells@, world.radius as int, world.land_as_vec@, Team::Black),
            world.land_as_vec@,
            Team::Black,
        ),
        0 <= score[0] <= world.land_as_vec.len(),
        0 <= score[1] <= world.land_as_vec.len(),
{
    let mut score: [i64; 2] = [0, 0];
    let teams: [Team; 2] = [Team::White, Team::Black];
    let lv = &world.land_as_vec;
    proof {
        lemma_enumeration_len(lv@, is_land(world.radius as int));
    }
    let mut t: usize = 0;
    while t < 2
        invariant
            game.factions.wf(),
            world.wf(),
            lv == &world.land_as_vec,
            lv.len() <= TABLE_SIZE,
            t <= 2,
            teams@ == seq![Team::White, Team::Black],
            0 <= score[0] <= lv.len(),
            0 <= score[1] <= lv.len(),
            t < 1 ==> score[0] == 0,
            t < 2 ==> score[1] == 0,
            t >= 1 ==> score[0] == held_count(
                secured_cells(game.factions.cells@, world.radius as int, lv@, Team::White),
                lv@,
                Team::White,
            ),
            t >= 2 ==> score[1] == held_count(
                secured_cells(game.factions.cells@, world.radius as int, lv@, Team::Black),
                lv@,
                Team::Black,
            ),
        decreases 2 - t,
    {
        let team = teams[t];
        let ti = team.index();
        let count = secure_count(game, world, team);
        score[ti] = count;
        t = t + 1;
    }
    score
}


/// Room on the board for the fog of war's updates: every cell within two of
/// a land cell lies in the board table (boards of radius at most six), and
/// the pass index holds no stack.
pub open spec fn fog_room(cells: Seq<GameCell<Piece>>, radius: int) -> bool {
    &&& radius <= 6
    &&& cells[PASS_MOVE_INDEX as int] is Empty
}

/// On a board with room for the fog updates, the cells that a move lets a
/// player learn lie in the board table and off the pass index.
proof fn lemma_fog_fits(
    m: NormalMove,
    e: NormalMoveEffect,
    before: Seq<GameCell<Piece>>,
    after: Seq<GameCell<Piece>>,
    radius: int,
    team: Team,
    viewer: Team,
)
    requires
        fog_room(before, radius),
        move_ok(m, radius),
        before.len() == TABLE_SIZE,
        m.coord.0 == PASS_MOVE_INDEX ==> after == before && e.destroyed_unit.is_none(),
        m.coord.0 != PASS_MOVE_INDEX ==> after == before.update(m.coord.0 as int, placed_cell(before[m.coord.0 as int], m.stack, team)),
    ensures
        crate::history::shown_in_table(m, e, after, viewer),
{
    if m.coord.0 != PASS_MOVE_INDEX {
        let c = m.coord.0 as int;
        crate::unit::lemma_land_not_pass(c, radius);
        assert(after[PASS_MOVE_INDEX as int] == before[PASS_MOVE_INDEX as int]);
        assert forall|dq: int, dr: int| in_hexagon(dq, dr, 2) implies 0 <= #[trigger] crate::unit::offset_index(c, dq, dr) < TABLE_SIZE by {
            assert(c / 16 - 8 <= 5 && c / 16 - 8 >= -5);
            assert(c % 16 - 8 <= 5 && c % 16 - 8 >= -5);
        }
        if crate::history::lost_stack(m, e, after, viewer) is Some {
            let p = crate::history::lost_stack(m, e, after, viewer).unwrap();
            assert forall|dq: int, dr: int| in_hexagon(dq, dr, crate::unit::sight(p)) implies 0 <= #[trigger] crate::unit::offset_index(c, dq, dr) < TABLE_SIZE by {
                assert(in_hexagon(dq, dr, 2));
            }
        }
    }
}

/// One turn of a game the computer plays against itself: when the game is
/// over, its outcome and nothing changes; otherwise `team` plays the move
/// `calculate_move` chooses, which is recorded in `history`.
pub fn self_play_turn(
    game: &mut GameState,
    history: &mut MoveHistory<HistoryOneMove>,
    last_seen: &mut LastSeenObjectsAll,
    world: &MyWorld,
    team: Team,
    zobrist: &Zobrist,
) -> (over: Option<crate::unit::GameOver>)
    requires
        old(game).factions.wf(),
        world.wf(),
        zobrist.wf(),
        team != Team::Neutral,
        old(last_seen).fog[0].state.factions.wf(),
        old(last_seen).fog[1].state.factions.wf(),
        fog_room(old(game).factions.cells@, world.radius as int),
    ensures
        final(game).factions.wf(),
        final(last_seen).fog[0].state.factions.wf(),
        final(last_seen).fog[1].state.factions.wf(),
        over.is_some() ==> final(last_seen).fog[0].state.factions.cells@ == old(last_seen).fog[0].state.factions.cells@
            && final(last_seen).fog[1].state.factions.cells@ == old(last_seen).fog[1].state.factions.cells@,
        over.is_none() ==> (final(history).inner@.last().r matches GenericMove::Normal(o) && {
            &&& final(last_seen).fog[0].state.factions.cells@ == seen_after(
                old(last_seen).fog[0].state.factions.cells@,
                o.0,
                o.1,
                final(game).factions.cells@,
                Team::White,
            )
            &&& final(last_seen).fog[1].state.factions.cells@ == seen_after(
                old(last_seen).fog[1].state.factions.cells@,
                o.0,
                o.1,
                final(game).factions.cells@,
                Team::Black,
            )
        }),
        over == crate::unit::game_over_outcome(
            old(game).factions.cells@,
            world.land_as_vec@,
            world.radius as int,
            old(history).inner@,
        ),
        over.is_some() ==> final(game).factions.cells@ == old(game).factions.cells@ && final(history).inner@ == old(history).inner@,
        over.is_none() ==> {
            &&& final(history).inner.len() == old(history).inner.len() + 1
            &&& final(history).inner@.subrange(0, old(history).inner.len() as int) == old(history).inner@
            &&& final(history).inner@.last().r matches GenericMove::Normal(o) && move_ok(o.0, world.radius as int) && {
                let c = o.0.coord.0 as int;
                if c == PASS_MOVE_INDEX {
                    final(game).factions.cells@ == old(game).factions.cells@
                } else {
                    final(game).factions.cells@ == old(game).factions.cells@.update(
                        c,
                        placed_cell(old(game).factions.cells[c], o.0.stack, team),
                    )
                }
            }
        },
{
    if let Some(f) = game.game_is_over(world, team, history) {
        return Some(f);
    }
    let mut ai_state = game.clone();
    let m = calculate_move(&mut ai_state, world, team, history, zobrist);
    let ghost before = game.factions.cells@;
    let effect = m.apply(team, game, world, None);
    proof {
        lemma_fog_fits(m, effect, before, game.factions.cells@, world.radius as int, team, Team::White);
        lemma_fog_fits(m, effect, before, game.factions.cells@, world.radius as int, team, Team::Black);
    }
    let fe = last_seen.apply(game, (&m, &effect), world);
    let rec = HistoryOneMove { r: GenericMove::Normal((m, effect)), fe };
    history.push_normal(rec);
    proof {
        assert(history.inner@.subrange(0, old(history).inner.len() as int) =~= old(history).inner@);
    }
    None
}


/// The computer's move in a game in progress: `calculate_move` on the
/// position as `team` may know it (cells it does not see hold neutral
/// stacks of six).
pub fn ai_move(game: &crate::unit::GameStateTotal, world: &MyWorld, team: Team, zobrist: &Zobrist) -> (m: NormalMove)
    requires
        game.tactical.factions.wf(),
        world.wf(),
        zobrist.wf(),
        team != Team::Neutral,
        crate::unit::sight_in_table(game.tactical.factions.cells@, world.radius as int, team),
    ensures
        move_ok(m, world.radius as int),
        (game.history.inner.len() > 0 && match game.history.inner@.last().r {
            GenericMove::Normal(n) => n.0.coord.0 == PASS_MOVE_INDEX,
            GenericMove::Lighthouse(_) => false,
        }) ==> m.coord.0 == PASS_MOVE_INDEX,
{
    let mut ai_state = game.tactical.convert_to_playable(world, team);
    calculate_move(&mut ai_state, world, team, &game.history, zobrist)
}

} // verus!
