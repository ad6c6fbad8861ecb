//! The record of a game: the moves played with what they did, the fog of
//! war bookkeeping, and the kinds of game and player slot.
use vstd::prelude::*;
use crate::move_build::{captured_of, GenericMove, LighthouseMove, LighthouseMoveEffect, NormalMove, NormalMoveEffect};
use crate::hex::{in_hexagon, lex_less, offset_cube, Axial, Cube, PASS_MOVE_INDEX};
use crate::board::MyWorld;
use crate::mesh::TABLE_SIZE;
use crate::moves::Coordinate;
use crate::unit::{offset_index, sight, GameCell, GameState, Piece, Team, LIGHTHOUSE_RANGE, NORMAL_RANGE};

verus! {

/// Who plays a side.
#[derive(Clone, Copy, Debug, Eq, PartialEq, Structural)]
pub enum Slot {
    Player,
    Ai,
}

/// The kind of game, with the text form of its board.
#[derive(Clone, Debug, Eq, PartialEq)]
pub enum GameType {
    SinglePlayer(String),
    PassPlay(String),
    AIBattle(String),
    MapEditor(String),
    Replay(String),
    Game(Slot, Slot, Team, String),
}

/// A saved game could not be read.
#[derive(Debug, Clone, Copy, PartialEq, Eq, Structural)]
pub struct LoadError;

/// The moves of a game, without their effects; this is what is saved.
#[derive(Clone, Debug)]
pub struct JustMoveLog {
    pub inner: Vec<GenericMove<NormalMove, LighthouseMove>>,
}

/// Something that may be a pass.
pub trait CanPass {
    fn is_pass(&self) -> bool;
}

/// A cell of the last-seen copy before it was updated.
#[derive(Clone, Copy, Debug)]
pub struct CellDiff {
    pub old: GameCell<Piece>,
    pub pos: Coordinate,
}

/// The cells of one player's last-seen copy that a move updated.
#[derive(Clone, Debug)]
pub struct LastSeenObjectsEffect {
    pub diff: Vec<CellDiff>,
}

/// The last-seen updates of both players' copies for one move.
#[derive(Clone, Debug)]
pub struct LastSeenObjectsAllEffect {
    pub diff: [LastSeenObjectsEffect; 2],
}

impl LastSeenObjectsAllEffect {
    /// The effect that updated nothing.
    pub fn dummy() -> (e: LastSeenObjectsAllEffect)
        ensures
            e.diff[0].diff@.len() == 0,
            e.diff[1].diff@.len() == 0,
    {
        LastSeenObjectsAllEffect {
            diff: [LastSeenObjectsEffect { diff: Vec::new() }, LastSeenObjectsEffect { diff: Vec::new() }],
        }
    }
}

/// What a player last saw of the board under the fog of war.
#[derive(Clone, Debug)]
pub struct LastSeenObjects {
    pub state: GameState,
}

impl LastSeenObjects {
    /// Puts back the cells that an update changed, in order.
    pub fn undo(&mut self, ll: &LastSeenObjectsEffect)
        requires
            old(self).state.factions.wf(),
            forall|k: int| 0 <= k < ll.diff.len() ==> (#[trigger] ll.diff[k]).pos.0 < crate::mesh::TABLE_SIZE,
        ensures
            final(self).state.factions.wf(),
            final(self).state.factions.cells@ == restore_cells(old(self).state.factions.cells@, ll.diff@),
    {
        let mut k: usize = 0;
        while k < ll.diff.len()
            invariant
                k <= ll.diff.len(),
                self.state.factions.wf(),
                forall|k: int| 0 <= k < ll.diff.len() ==> (#[trigger] ll.diff[k]).pos.0 < crate::mesh::TABLE_SIZE,
                self.state.factions.cells@ == restore_cells(old(self).state.factions.cells@, ll.diff@.take(k as int)),
            decreases ll.diff.len() - k,
        {
            let a = ll.diff[k];
            self.state.factions.cells.set(a.pos.0, a.old);
            assert(ll.diff@.take(k + 1).drop_last() =~= ll.diff@.take(k as int));
            k = k + 1;
        }
        assert(ll.diff@.take(ll.diff.len() as int) =~= ll.diff@);
    }
}

/// The stack of `team` that the move `m` with effect `e` took, judged on
/// the position `after` that it left.
pub open spec fn lost_stack(m: NormalMove, e: NormalMoveEffect, after: Seq<GameCell<Piece>>, team: Team) -> Option<Piece> {
    match captured_of(m, e, after) {
        Some(p) => if p.team == team {
            Some(p)
        } else {
            None
        },
        None => None,
    }
}

/// Whether `team`'s last-seen copy learns cell `x` after the move `m` with
/// effect `e`: the move took a stack of `team`, `x` lies within that
/// stack's sight of the move's cell, and `x` holds another player's stack.
pub open spec fn shown_cell(m: NormalMove, e: NormalMoveEffect, after: Seq<GameCell<Piece>>, team: Team, x: int) -> bool {
    &&& lost_stack(m, e, after, team) matches Some(p)
    &&& exists|dq: int, dr: int| in_hexagon(dq, dr, sight(p)) && #[trigger] offset_index(m.coord.0 as int, dq, dr) == x
    &&& after[x] matches GameCell::Piece(q)
    &&& q.team != team
}

/// Whether the cells within sight of a stack of `team` that the move took
/// all lie in the board table, and the pass index is not among the cells
/// learnt.
pub open spec fn shown_in_table(m: NormalMove, e: NormalMoveEffect, after: Seq<GameCell<Piece>>, team: Team) -> bool {
    &&& lost_stack(m, e, after, team) matches Some(p) ==> forall|dq: int, dr: int|
        in_hexagon(dq, dr, sight(p)) ==> 0 <= #[trigger] offset_index(m.coord.0 as int, dq, dr) < TABLE_SIZE
    &&& !shown_cell(m, e, after, team, PASS_MOVE_INDEX as int)
}

/// `cells` with every cell that `team`'s copy learns taken from `after`.
pub open spec fn seen_after(
    cells: Seq<GameCell<Piece>>,
    m: NormalMove,
    e: NormalMoveEffect,
    after: Seq<GameCell<Piece>>,
    team: Team,
) -> Seq<GameCell<Piece>> {
    Seq::new(cells.len(), |x: int| if shown_cell(m, e, after, team, x) { after[x] } else { cells[x] })
}

/// Whether `diff` records, in increasing order of position, exactly the
/// cells that `team`'s copy learns, each with its value in `cells` before.
pub open spec fn records_shown(
    diff: Seq<CellDiff>,
    cells: Seq<GameCell<Piece>>,
    m: NormalMove,
    e: NormalMoveEffect,
    after: Seq<GameCell<Piece>>,
    team: Team,
) -> bool {
    &&& forall|k: int| 0 <= k < diff.len() ==> {
        &&& (#[trigger] diff[k]).pos.0 < TABLE_SIZE
        &&& shown_cell(m, e, after, team, diff[k].pos.0 as int)
        &&& diff[k].old == cells[diff[k].pos.0 as int]
    }
    &&& forall|k1: int, k2: int| 0 <= k1 < k2 < diff.len() ==> #[trigger] diff[k1].pos.0 < #[trigger] diff[k2].pos.0
    &&& forall|x: int| 0 <= x < TABLE_SIZE && #[trigger] shown_cell(m, e, after, team, x) ==> exists|k: int|
        0 <= k < diff.len() && #[trigger] diff[k].pos.0 == x
}

/// The table indices, in increasing order, of the cells that `team`'s copy
/// learns after the move `m` with effect `e` left `game_after`.
fn shown_indices(game_after: &GameState, m: &NormalMove, e: &NormalMoveEffect, team: Team) -> (v: Vec<usize>)
    requires
        game_after.factions.wf(),
        m.coord.0 < TABLE_SIZE,
        shown_in_table(*m, *e, game_after.factions.cells@, team),
    ensures
        forall|k: int| 0 <= k < v.len() ==> #[trigger] v[k] < TABLE_SIZE && shown_cell(*m, *e, game_after.factions.cells@, team, v[k] as int),
        forall|k1: int, k2: int| 0 <= k1 < k2 < v.len() ==> #[trigger] v[k1] < #[trigger] v[k2],
        forall|x: int| 0 <= x < TABLE_SIZE && #[trigger] shown_cell(*m, *e, game_after.factions.cells@, team, x) ==> v@.contains(x as usize),
{
    let ghost after = game_after.factions.cells@;
    let mut handle_this: Vec<usize> = Vec::new();
    let j = m.coord.0;
    let cap = e.captured_unit(m, game_after);
    match cap {
        Some(p) => {
            if p.team == team {
                let r: i8 = if p.has_lighthouse {
                    LIGHTHOUSE_RANGE
                } else {
                    NORMAL_RANGE
                };
                let a = Axial::from_index(j);
                let c = a.to_cube();
                let cubes = c.range(r);
                let ghost q0 = c.ax.q as int;
                let ghost r0 = c.ax.r as int;
                let mut k: usize = 0;
                while k < cubes.len()
                    invariant
                        game_after.factions.wf(),
                        after == game_after.factions.cells@,
                        j == m.coord.0,
                        j < TABLE_SIZE,
                        q0 == j as int / 16 - 8,
                        r0 == j as int % 16 - 8,
                        r as int == sight(p),
                        lost_stack(*m, *e, after, team) == Some(p),
                        shown_in_table(*m, *e, after, team),
                        k <= cubes.len(),
                        forall|i: int| 0 <= i < cubes.len() ==> {
                            let dq = cubes[i].ax.q - q0;
                            let dr = cubes[i].ax.r - r0;
                            &&& in_hexagon(dq, dr, r as int)
                            &&& #[trigger] cubes[i] == offset_cube(c, dq, dr)
                        },
                        forall|i1: int, i2: int| 0 <= i1 < i2 < cubes.len() ==> lex_less(
                            #[trigger] cubes[i1].ax.q as int,
                            cubes[i1].ax.r as int,
                            #[trigger] cubes[i2].ax.q as int,
                            cubes[i2].ax.r as int,
                        ),
                        forall|i: int| 0 <= i < handle_this.len() ==> #[trigger] handle_this[i] < TABLE_SIZE && shown_cell(*m, *e, after, team, handle_this[i] as int),
                        forall|i1: int, i2: int| 0 <= i1 < i2 < handle_this.len() ==> #[trigger] handle_this[i1] < #[trigger] handle_this[i2],
                        forall|i: int| 0 <= i < handle_this.len() ==> exists|i2: int| 0 <= i2 < k && #[trigger] handle_this[i] == offset_index(
                            j as int,
                            cubes[i2].ax.q - q0,
                            cubes[i2].ax.r - r0,
                        ),
                        forall|i: int| 0 <= i < k ==> ({
                            let x = offset_index(j as int, (#[trigger] cubes[i]).ax.q - q0, cubes[i].ax.r - r0);
                            (after[x] matches GameCell::Piece(o) && o.team != team) ==> handle_this@.contains(x as usize)
                        }),
                    decreases cubes.len() - k,
                {
                    let cube = cubes[k];
                    let ghost dq = cube.ax.q - q0;
                    let ghost dr = cube.ax.r - r0;
                    proof {
                        assert(in_hexagon(dq, dr, sight(p)));
                        assert(0 <= offset_index(j as int, dq, dr) < TABLE_SIZE);
                    }
                    let x = cube.ax.to_index();
                    proof {
                        assert(x == offset_index(j as int, dq, dr));
                    }
                    let ghost before = handle_this@;
                    match game_after.factions.cells[x] {
                        GameCell::Piece(o) => {
                            if o.team != team {
                                proof {
                                    assert(shown_cell(*m, *e, after, team, x as int));
                                    assert forall|i: int| 0 <= i < handle_this.len() implies #[trigger] handle_this[i] < x by {
                                        let i2 = choose|i2: int| 0 <= i2 < k && #[trigger] handle_this[i] == offset_index(
                                            j as int,
                                            cubes[i2].ax.q - q0,
                                            cubes[i2].ax.r - r0,
                                        );
                                        assert(lex_less(cubes[i2].ax.q as int, cubes[i2].ax.r as int, cubes[k as int].ax.q as int, cubes[k as int].ax.r as int));
                                    }
                                }
                                handle_this.push(x);
                            }
                        },
                        GameCell::Empty => {},
                    }
                    proof {
                        assert forall|i: int| 0 <= i < k + 1 implies ({
                            let y = offset_index(j as int, (#[trigger] cubes[i]).ax.q - q0, cubes[i].ax.r - r0);
                            (after[y] matches GameCell::Piece(o) && o.team != team) ==> handle_this@.contains(y as usize)
                        }) by {
                            let y = offset_index(j as int, cubes[i].ax.q - q0, cubes[i].ax.r - r0);
                            if i < k && (after[y] matches GameCell::Piece(o) && o.team != team) {
                                assert(before.contains(y as usize));
                                let w = choose|w: int| 0 <= w < before.len() && before[w] == y as usize;
                                assert(handle_this@[w] == y as usize);
                            }
                            if i == k && (after[y] matches GameCell::Piece(o) && o.team != team) {
                                assert(handle_this@[handle_this.len() - 1] == x);
                            }
                        }
                    }
                    k = k + 1;
                }
                proof {
                    assert forall|x: int| 0 <= x < TABLE_SIZE && #[trigger] shown_cell(*m, *e, after, team, x) implies handle_this@.contains(x as usize) by {
                        let (dq, dr) = choose|dq: int, dr: int| in_hexagon(dq, dr, sight(p)) && #[trigger] offset_index(j as int, dq, dr) == x;
                        assert(in_hexagon(dq, dr, r as int) && lex_less(dq, dr, r as int + 1, 0));
                        let i = choose|i: int| 0 <= i < cubes.len() && #[trigger] cubes[i] == offset_cube(c, dq, dr);
                        assert(cubes[i].ax.q - q0 == dq);
                        assert(cubes[i].ax.r - r0 == dr);
                    }
                }
            }
        },
        None => {},
    }
    handle_this
}

impl LastSeenObjects {
    /// Updates `team`'s copy after a move: when the move took a stack of
    /// `team`, every cell within that stack's sight that now holds another
    /// player's stack is copied from `game_after`. Returns the cells as they
    /// were, in increasing order, for undoing.
    pub fn apply(
        &mut self,
        game_after: &GameState,
        world: &MyWorld,
        m: (&NormalMove, &NormalMoveEffect),
        team: Team,
    ) -> (e: LastSeenObjectsEffect)
        requires
            old(self).state.factions.wf(),
            game_after.factions.wf(),
            m.0.coord.0 < TABLE_SIZE,
            shown_in_table(*m.0, *m.1, game_after.factions.cells@, team),
        ensures
            final(self).state.factions.wf(),
            final(self).state.factions.cells@ == seen_after(
                old(self).state.factions.cells@,
                *m.0,
                *m.1,
                game_after.factions.cells@,
                team,
            ),
            records_shown(e.diff@, old(self).state.factions.cells@, *m.0, *m.1, game_after.factions.cells@, team),
    {
        let ghost after = game_after.factions.cells@;
        let ghost old_cells = self.state.factions.cells@;
        let handle_this = shown_indices(game_after, m.0, m.1, team);
        let mut diffs: Vec<CellDiff> = Vec::new();
        let mut k: usize = 0;
        while k < handle_this.len()
            invariant
                k <= handle_this.len(),
                self.state.factions.wf(),
                game_after.factions.wf(),
                after == game_after.factions.cells@,
                old_cells.len() == TABLE_SIZE,
                shown_in_table(*m.0, *m.1, after, team),
                forall|i: int| 0 <= i < handle_this.len() ==> #[trigger] handle_this[i] < TABLE_SIZE && shown_cell(*m.0, *m.1, after, team, handle_this[i] as int),
                forall|i1: int, i2: int| 0 <= i1 < i2 < handle_this.len() ==> #[trigger] handle_this[i1] < #[trigger] handle_this[i2],
                diffs.len() == k,
                forall|i: int| 0 <= i < k ==> (#[trigger] diffs[i]).pos.0 == handle_this[i] && diffs[i].old == old_cells[handle_this[i] as int],
                forall|x: int| 0 <= x < TABLE_SIZE ==> #[trigger] self.state.factions.cells[x] == if handle_this@.subrange(0, k as int).contains(x as usize) {
                    after[x]
                } else {
                    old_cells[x]
                },
            decreases handle_this.len() - k,
        {
            let x = handle_this[k];
            proof {
                if handle_this@.subrange(0, k as int).contains(x) {
                    let w = choose|w: int| 0 <= w < k && handle_this@.subrange(0, k as int)[w] == x;
                    assert(handle_this[w] < handle_this[k as int]);
                }
                assert(self.state.factions.cells[x as int] == old_cells[x as int]);
                assert(handle_this@.subrange(0, k + 1) =~= handle_this@.subrange(0, k as int).push(x));
            }
            diffs.push(CellDiff { old: self.state.factions.cells[x], pos: Coordinate(x) });
            let ghost before = self.state.factions.cells@;
            let ghost hk = handle_this@.subrange(0, k as int);
            self.state.factions.copy_cell_if_occupied(&game_after.factions, x);
            proof {
                assert forall|y: int| 0 <= y < TABLE_SIZE implies #[trigger] self.state.factions.cells[y] == if handle_this@.subrange(0, k + 1).contains(y as usize) {
                    after[y]
                } else {
                    old_cells[y]
                } by {
                    if y != x {
                        assert(handle_this@.subrange(0, k + 1).contains(y as usize) == hk.contains(y as usize)) by {
                            if handle_this@.subrange(0, k + 1).contains(y as usize) {
                                let w = choose|w: int| 0 <= w < k + 1 && #[trigger] handle_this@.subrange(0, k + 1)[w] == y as usize;
                                assert(hk[w] == y as usize);
                            }
                            if hk.contains(y as usize) {
                                let w = choose|w: int| 0 <= w < k && #[trigger] hk[w] == y as usize;
                                assert(handle_this@.subrange(0, k + 1)[w] == y as usize);
                            }
                        }
                    } else {
                        assert(handle_this@.subrange(0, k + 1)[k as int] == x);
                    }
                }
            }
            k = k + 1;
        }
        proof {
            assert(handle_this@.subrange(0, k as int) =~= handle_this@);
            assert(self.state.factions.cells@ =~= seen_after(old_cells, *m.0, *m.1, after, team));
            assert forall|x: int| 0 <= x < TABLE_SIZE && #[trigger] shown_cell(*m.0, *m.1, after, team, x) implies exists|i: int|
                0 <= i < diffs.len() && #[trigger] diffs[i].pos.0 == x by {
                let i = choose|i: int| 0 <= i < handle_this.len() && handle_this[i] == x as usize;
                assert(diffs[i].pos.0 == x);
            }
        }
        LastSeenObjectsEffect { diff: diffs }
    }
}

/// Whether the update of `team`'s copy after the move `m` with effect `e`,
/// which left `game_after`, stays inside the board table and off the pass
/// index.
pub fn shown_fits(m: &NormalMove, e: &NormalMoveEffect, game_after: &GameState, team: Team) -> (b: bool)
    requires
        game_after.factions.wf(),
        m.coord.0 < TABLE_SIZE,
    ensures
        b == shown_in_table(*m, *e, game_after.factions.cells@, team),
{
    let ghost after = game_after.factions.cells@;
    match e.captured_unit(m, game_after) {
        Some(p) => {
            if p.team != team {
                return true;
            }
            let r: i64 = if p.has_lighthouse {
                2
            } else {
                1
            };
            let j: i64 = m.coord.0 as i64;
            let row: i64 = j / 16;
            let col: i64 = j % 16;
            let mut dq: i64 = -r;
            while dq <= r
                invariant
                    r == sight(p),
                    after == game_after.factions.cells@,
                    lost_stack(*m, *e, after, team) == Some(p),
                    j == m.coord.0,
                    0 <= j < TABLE_SIZE,
                    row == j / 16,
                    col == j % 16,
                    -r <= dq <= r + 1,
                    forall|a: int, b: int| -r <= a < dq && in_hexagon(a, b, r as int) ==> 0 <= #[trigger] offset_index(j as int, a, b) < TABLE_SIZE,
                decreases r + 1 - dq,
            {
                let mut dr: i64 = -r;
                while dr <= r
                    invariant
                        r == sight(p),
                        after == game_after.factions.cells@,
                        lost_stack(*m, *e, after, team) == Some(p),
                        j == m.coord.0,
                        0 <= j < TABLE_SIZE,
                        row == j / 16,
                        col == j % 16,
                        -r <= dq <= r,
                        -r <= dr <= r + 1,
                        forall|a: int, b: int| -r <= a < dq && in_hexagon(a, b, r as int) ==> 0 <= #[trigger] offset_index(j as int, a, b) < TABLE_SIZE,
                        forall|b: int| -r <= b < dr && in_hexagon(dq as int, b, r as int) ==> 0 <= #[trigger] offset_index(j as int, dq as int, b) < TABLE_SIZE,
                    decreases r + 1 - dr,
                {
                    if -r <= dq + dr && dq + dr <= r {
                        let idx: i64 = (row + dq) * 16 + col + dr;
                        proof {
                            assert(idx == offset_index(j as int, dq as int, dr as int));
                        }
                        if idx < 0 || idx >= 512 {
                            proof {
                                assert(in_hexagon(dq as int, dr as int, sight(p)));
                                assert(!(0 <= offset_index(m.coord.0 as int, dq as int, dr as int) < TABLE_SIZE));
                            }
                            return false;
                        }
                    }
                    dr = dr + 1;
                }
                proof {
                    assert forall|b: int| in_hexagon(dq as int, b, r as int) implies -r <= b < dr by {}
                }
                dq = dq + 1;
            }
            proof {
                assert forall|a: int, b: int| in_hexagon(a, b, r as int) implies 0 <= #[trigger] offset_index(j as int, a, b) < TABLE_SIZE by {
                    assert(-r <= a < dq);
                }
            }
            let pq: i64 = 3 - row;
            let pr: i64 = 3 - col;
            let hits_pass = -r <= pq && pq <= r && -r <= pr && pr <= r && -r <= pq + pr && pq + pr <= r;
            proof {
                assert(offset_index(j as int, pq as int, pr as int) == PASS_MOVE_INDEX);
                if exists|a: int, b: int| in_hexagon(a, b, sight(p)) && #[trigger] offset_index(m.coord.0 as int, a, b) == PASS_MOVE_INDEX {
                    let (a, b) = choose|a: int, b: int| in_hexagon(a, b, sight(p)) && #[trigger] offset_index(m.coord.0 as int, a, b) == PASS_MOVE_INDEX;
                    assert(a == pq && b == pr);
                }
            }
            if hits_pass {
                match game_after.factions.cells[PASS_MOVE_INDEX] {
                    GameCell::Piece(q) => q.team == team,
                    GameCell::Empty => true,
                }
            } else {
                true
            }
        },
        None => true,
    }
}

/// The cells after writing back each recorded old cell, in order.
pub open spec fn restore_cells(cells: Seq<GameCell<Piece>>, diffs: Seq<CellDiff>) -> Seq<GameCell<Piece>>
    decreases diffs.len(),
{
    if diffs.len() == 0 {
        cells
    } else {
        restore_cells(cells, diffs.drop_last()).update(diffs.last().pos.0 as int, diffs.last().old)
    }
}

/// Both players' last-seen copies: white's first.
#[derive(Clone, Debug)]
pub struct LastSeenObjectsAll {
    pub fog: [LastSeenObjects; 2],
}

impl LastSeenObjectsAll {
    /// Both copies start as `a`.
    pub fn new(a: &GameState) -> (l: LastSeenObjectsAll)
        ensures
            l.fog[0].state.factions.cells@ == a.factions.cells@,
            l.fog[1].state.factions.cells@ == a.factions.cells@,
    {
        LastSeenObjectsAll { fog: [LastSeenObjects { state: a.clone() }, LastSeenObjects { state: a.clone() }] }
    }

    /// Updates both copies after a move that left `game_after`: white's
    /// copy as white learns, black's as black learns.
    pub fn apply(
        &mut self,
        game_after: &GameState,
        m: (&NormalMove, &NormalMoveEffect),
        world: &MyWorld,
    ) -> (e: LastSeenObjectsAllEffect)
        requires
            old(self).fog[0].state.factions.wf(),
            old(self).fog[1].state.factions.wf(),
            game_after.factions.wf(),
            m.0.coord.0 < TABLE_SIZE,
            shown_in_table(*m.0, *m.1, game_after.factions.cells@, Team::White),
            shown_in_table(*m.0, *m.1, game_after.factions.cells@, Team::Black),
        ensures
            final(self).fog[0].state.factions.wf(),
            final(self).fog[1].state.factions.wf(),
            final(self).fog[0].state.factions.cells@ == seen_after(
                old(self).fog[0].state.factions.cells@,
                *m.0,
                *m.1,
                game_after.factions.cells@,
                Team::White,
            ),
            final(self).fog[1].state.factions.cells@ == seen_after(
                old(self).fog[1].state.factions.cells@,
                *m.0,
                *m.1,
                game_after.factions.cells@,
                Team::Black,
            ),
            records_shown(e.diff[0].diff@, old(self).fog[0].state.factions.cells@, *m.0, *m.1, game_after.factions.cells@, Team::White),
            records_shown(e.diff[1].diff@, old(self).fog[1].state.factions.cells@, *m.0, *m.1, game_after.factions.cells@, Team::Black),
    {
        let mut f0 = self.fog[0].clone_state();
        let a = f0.apply(game_after, world, m, Team::White);
        let mut f1 = self.fog[1].clone_state();
        let b = f1.apply(game_after, world, m, Team::Black);
        self.fog = [f0, f1];
        LastSeenObjectsAllEffect { diff: [a, b] }
    }

    /// Takes back a move's updates: both copies are restored with the first
    /// player's record.
    pub fn undo(&mut self, ll: &LastSeenObjectsAllEffect)
        requires
            old(self).fog[0].state.factions.wf(),
            old(self).fog[1].state.factions.wf(),
            forall|k: int| 0 <= k < ll.diff[0].diff.len() ==> (#[trigger] ll.diff[0].diff[k]).pos.0 < crate::mesh::TABLE_SIZE,
        ensures
            final(self).fog[0].state.factions.cells@ == restore_cells(old(self).fog[0].state.factions.cells@, ll.diff[0].diff@),
            final(self).fog[1].state.factions.cells@ == restore_cells(old(self).fog[1].state.factions.cells@, ll.diff[0].diff@),
    {
        let mut f0 = self.fog[0].clone_state();
        f0.undo(&ll.diff[0]);
        let mut f1 = self.fog[1].clone_state();
        f1.undo(&ll.diff[0]);
        self.fog = [f0, f1];
    }
}

impl LastSeenObjects {
    /// A copy.
    pub fn clone_state(&self) -> (l: LastSeenObjects)
        ensures
            l.state.factions.cells@ == self.state.factions.cells@,
    {
        LastSeenObjects { state: self.state.clone() }
    }
}

/// One move of the game with what it did and the fog updates it caused.
#[derive(Debug, Clone)]
pub struct HistoryOneMove {
    pub r: GenericMove<(NormalMove, NormalMoveEffect), (LighthouseMove, LighthouseMoveEffect)>,
    pub fe: LastSeenObjectsAllEffect,
}

impl CanPass for HistoryOneMove {
    /// A stack move that is a pass; a lighthouse move never is.
    fn is_pass(&self) -> (b: bool)
        ensures
            b == match self.r {
                GenericMove::Normal(o) => o.0.coord.0 == PASS_MOVE_INDEX,
                GenericMove::Lighthouse(_) => false,
            },
    {
        match &self.r {
            GenericMove::Normal(o) => o.0.is_pass(),
            GenericMove::Lighthouse(_) => false,
        }
    }
}

/// The moves played so far, oldest first, kept with their effects so that
/// every one can be undone.
#[derive(Debug, Clone)]
pub struct MoveHistory<T> {
    pub inner: Vec<T>,
}

impl<T> MoveHistory<T> {
    /// No moves.
    pub fn new() -> (h: MoveHistory<T>)
        ensures
            h.inner@.len() == 0,
    {
        MoveHistory { inner: Vec::new() }
    }

    /// Records one more move.
    pub fn push_normal(&mut self, o: T)
        ensures
            final(self).inner@ == old(self).inner@.push(o),
    {
        self.inner.push(o);
    }
}

impl<T> Default for MoveHistory<T> {
    fn default() -> (h: MoveHistory<T>)
        ensures
            h.inner@.len() == 0,
    {
        Self::new()
    }
}

} // verus!
