//! Moves: placing a stack (possibly a pass) or a lighthouse, what they do to
//! a position, how they are undone, and which of them are playable.
use vstd::prelude::*;
use crate::board::{is_land, land_cell, MyWorld};
use crate::hex::{HexDraw, PASS_MOVE_INDEX};
use crate::mesh::TABLE_SIZE;
use crate::moves::{Coordinate, MoveType, SpokeInfo, SPOKE_CELLS};
use crate::unit::{height_num, team_index, team_not, GameCell, GameState, Piece, StackHeight, Team};

verus! {

/// What stood on a cell before a move replaced it.
#[derive(Copy, PartialEq, PartialOrd, Ord, Eq, Debug, Clone, Structural)]
pub struct DestroyedUnit {
    pub height: StackHeight,
    pub team: Team,
    /// The team whose lighthouse on the cell was taken, if any.
    pub lighthouse_was_removed: Option<Team>,
}

/// Either kind of move.
#[derive(PartialEq, Eq, Clone, Copy, Debug, Structural)]
pub enum GenericMove<T, L> {
    Normal(T),
    Lighthouse(L),
}

/// What a stack move did, for undoing it.
#[derive(PartialEq, PartialOrd, Ord, Eq, Debug, Clone, Copy, Structural)]
pub struct NormalMoveEffect {
    pub destroyed_unit: Option<DestroyedUnit>,
}

/// What a lighthouse move did, for undoing it.
#[derive(PartialEq, PartialOrd, Ord, Eq, Debug, Clone, Copy, Structural)]
pub struct LighthouseMoveEffect {
    nm: Option<NormalMoveEffect>,
}

/// The stack a stack move took from another player: the replaced stack, as
/// the effect records it, when the stack now on the cell belongs to someone
/// else. The pass and moves onto empty cells or onto one's own stack take
/// nothing.
pub open spec fn captured_of(m: NormalMove, e: NormalMoveEffect, after: Seq<GameCell<Piece>>) -> Option<Piece> {
    match e.destroyed_unit {
        Some(d) => if m.coord.0 != PASS_MOVE_INDEX && (after[m.coord.0 as int] matches GameCell::Piece(q) && q.team != d.team) {
            Some(Piece { height: d.height, team: d.team, has_lighthouse: d.lighthouse_was_removed.is_some() })
        } else {
            None
        },
        None => None,
    }
}

impl NormalMoveEffect {
    /// The stack that the move `m`, with this effect, took from another
    /// player, judged on the position `game_after` that it left.
    pub fn captured_unit(&self, m: &NormalMove, game_after: &GameState) -> (p: Option<Piece>)
        requires
            game_after.factions.wf(),
            m.coord.0 < TABLE_SIZE,
        ensures
            p == captured_of(*m, *self, game_after.factions.cells@),
    {
        match self.destroyed_unit {
            Some(d) => {
                if m.coord.0 == PASS_MOVE_INDEX {
                    return None;
                }
                match game_after.factions.get_cell_inner(m.coord.0) {
                    GameCell::Piece(q) => {
                        if q.team != d.team {
                            Some(Piece { height: d.height, team: d.team, has_lighthouse: d.lighthouse_was_removed.is_some() })
                        } else {
                            None
                        }
                    },
                    GameCell::Empty => None,
                }
            },
            None => None,
        }
    }
}

impl LighthouseMoveEffect {
    /// The stack move made when the lighthouse went on an empty cell.
    pub closed spec fn inner(&self) -> Option<NormalMoveEffect> {
        self.nm
    }
}

/// Placing a lighthouse at a table index.
#[derive(PartialEq, Eq, Default, Clone, Copy, Debug, Structural)]
pub struct LighthouseMove {
    pub coord: Coordinate,
}

/// Placing a stack of the given height at a table index; the pass index
/// stands for a pass.
#[derive(PartialEq, Eq, Default, Clone, Copy, Debug, Structural)]
pub struct NormalMove {
    pub stack: StackHeight,
    pub coord: Coordinate,
}

/// The record of what a stack move at `target` by `team` replaces.
pub open spec fn destroyed_of(c: GameCell<Piece>, team: Team) -> Option<DestroyedUnit> {
    match c {
        GameCell::Piece(pp) => Some(
            DestroyedUnit {
                height: pp.height,
                team: pp.team,
                lighthouse_was_removed: if pp.has_lighthouse && team != pp.team {
                    Some(pp.team)
                } else {
                    None
                },
            },
        ),
        GameCell::Empty => None,
    }
}

/// The cell after `team` places a stack of height `stack` on `c`: a lighthouse
/// stays only under its own team.
pub open spec fn placed_cell(c: GameCell<Piece>, stack: StackHeight, team: Team) -> GameCell<Piece> {
    GameCell::Piece(
        Piece {
            height: stack,
            team,
            has_lighthouse: match c {
                GameCell::Piece(o) => o.has_lighthouse && o.team == team,
                GameCell::Empty => false,
            },
        },
    )
}

/// The cell that undoing a stack move with effect `e` puts back on a cell
/// now holding `cur`: the replaced stack, with its lighthouse when the move
/// took it from the other team or when the lighthouse is still there under
/// the stack's own team.
pub open spec fn restored_cell(e: NormalMoveEffect, cur: GameCell<Piece>) -> GameCell<Piece> {
    match e.destroyed_unit {
        Some(dd) => GameCell::Piece(
            Piece {
                height: dd.height,
                team: dd.team,
                has_lighthouse: dd.lighthouse_was_removed.is_some() || (cur matches GameCell::Piece(o)
                    && o.team == dd.team && o.has_lighthouse),
            },
        ),
        None => GameCell::Empty,
    }
}

/// The classification of a move by `team` on a cell holding `c`, where `na`
/// counts the pieces of each player that see the cell: `None` when it may not
/// be played.
pub open spec fn playable_spec(c: GameCell<Piece>, team: Team, na: [i64; 2]) -> Option<MoveType> {
    if team == Team::Neutral {
        None
    } else if na[team_index(team)] == 0 {
        None
    } else {
        let mine = na[team_index(team)];
        let theirs = na[team_index(team_not(team))];
        match c {
            GameCell::Piece(p) => {
                if mine > height_num(p.height) {
                    if mine < theirs {
                        Some(MoveType::Suicidal)
                    } else if p.team == team {
                        Some(MoveType::Reinforce)
                    } else {
                        Some(MoveType::Capture)
                    }
                } else {
                    None
                }
            },
            GameCell::Empty => {
                if mine < theirs {
                    Some(MoveType::Suicidal)
                } else {
                    Some(MoveType::Fresh)
                }
            },
        }
    }
}

impl NormalMove {
    /// The pass.
    pub fn new_pass() -> (m: NormalMove)
        ensures
            m.stack == StackHeight::Stack0,
            m.coord.0 == PASS_MOVE_INDEX,
    {
        NormalMove { stack: StackHeight::Stack0, coord: Coordinate(PASS_MOVE_INDEX) }
    }

    /// Whether this move is the pass.
    pub fn is_pass(&self) -> (b: bool)
        ensures
            b == (self.coord.0 == PASS_MOVE_INDEX),
    {
        self.coord.0 == PASS_MOVE_INDEX
    }

    /// Plays the move for `team`: the target cell gets a stack of this move's
    /// height of `team`, keeping a lighthouse only when it was `team`'s own. A
    /// pass changes nothing. The effect records what the cell held.
    pub fn apply(
        &self,
        team: Team,
        game: &mut GameState,
        world: &MyWorld,
        spoke_info: Option<&SpokeInfo>,
    ) -> (e: NormalMoveEffect)
        requires
            old(game).factions.wf(),
            self.coord.0 < TABLE_SIZE,
        ensures
            final(game).factions.wf(),
            self.coord.0 == PASS_MOVE_INDEX ==> e.destroyed_unit.is_none() && final(game).factions.cells@ == old(game).factions.cells@,
            self.coord.0 != PASS_MOVE_INDEX ==> {
                &&& e.destroyed_unit == destroyed_of(old(game).factions.cells[self.coord.0 as int], team)
                &&& final(game).factions.cells@ == old(game).factions.cells@.update(
                    self.coord.0 as int,
                    placed_cell(old(game).factions.cells[self.coord.0 as int], self.stack, team),
                )
            },
    {
        if self.coord.0 == PASS_MOVE_INDEX {
            return NormalMoveEffect { destroyed_unit: None };
        }
        let target_cell = self.coord.0;
        let destroyed_unit = match game.factions.get_cell_inner(target_cell) {
            GameCell::Piece(pp) => {
                let lighthouse_was_removed = if pp.has_lighthouse {
                    if team != pp.team {
                        Some(pp.team)
                    } else {
                        None
                    }
                } else {
                    None
                };
                Some(DestroyedUnit { height: pp.height, team: pp.team, lighthouse_was_removed })
            },
            GameCell::Empty => None,
        };
        let has_lighthouse = match game.factions.get_cell_inner(target_cell) {
            GameCell::Piece(o) => {
                if o.has_lighthouse {
                    if let Some(d) = destroyed_unit {
                        if d.lighthouse_was_removed.is_some() {
                            false
                        } else {
                            true
                        }
                    } else {
                        true
                    }
                } else {
                    false
                }
            },
            GameCell::Empty => false,
        };
        game.factions.remove_inner(target_cell);
        game.factions.add_cell_inner(target_cell, self.stack, team, has_lighthouse);
        NormalMoveEffect { destroyed_unit }
    }

    /// Takes the move back: the target cell gets back the stack the effect
    /// recorded, with its lighthouse, so that undoing right after applying
    /// gives back the position. A pass changes nothing.
    pub fn undo(&self, effect: &NormalMoveEffect, state: &mut GameState)
        requires
            old(state).factions.wf(),
            self.coord.0 < TABLE_SIZE,
        ensures
            final(state).factions.wf(),
            self.coord.0 == PASS_MOVE_INDEX ==> final(state).factions.cells@ == old(state).factions.cells@,
            self.coord.0 != PASS_MOVE_INDEX ==> final(state).factions.cells@ == old(
                state,
            ).factions.cells@.update(
                self.coord.0 as int,
                restored_cell(*effect, old(state).factions.cells[self.coord.0 as int]),
            ),
    {
        let moveto = self.coord.0;
        if moveto == PASS_MOVE_INDEX {
            return;
        }
        if let Some(dd) = effect.destroyed_unit {
            let kept = match state.factions.get_cell_inner(moveto) {
                GameCell::Piece(o) => o.team == dd.team && o.has_lighthouse,
                GameCell::Empty => false,
            };
            state.factions.add_cell_inner(moveto, dd.height, dd.team, dd.lighthouse_was_removed.is_some() || kept);
        } else {
            state.factions.remove_inner(moveto)
        };
    }

    /// Whether `team` may play at `index`, and how the move relates to the cell.
    pub fn playable(
        state: &GameState,
        index: Coordinate,
        team: Team,
        world: &MyWorld,
        spoke_info: &SpokeInfo,
    ) -> (m: Option<MoveType>)
        requires
            state.factions.wf(),
            spoke_info.wf(),
            index.0 < SPOKE_CELLS,
            index.0 != PASS_MOVE_INDEX,
        ensures
            m == playable_spec(state.factions.cells[index.0 as int], team, spoke_info.data[index.0 as int].num_attack),
    {
        let index = index.0;
        if team == Team::Neutral {
            return None;
        }
        let num_attack = spoke_info.get_num_attack(index);
        let mine = num_attack[team.index()];
        let theirs = num_attack[team.not().index()];
        if mine == 0 {
            return None;
        }
        match state.factions.get_cell_inner(index) {
            GameCell::Piece(p) => {
                let height = p.height.to_num() as i64;
                if mine > height {
                    if mine < theirs {
                        Some(MoveType::Suicidal)
                    } else {
                        if p.team == team {
                            Some(MoveType::Reinforce)
                        } else {
                            Some(MoveType::Capture)
                        }
                    }
                } else {
                    None
                }
            },
            GameCell::Empty => {
                if mine < theirs {
                    Some(MoveType::Suicidal)
                } else {
                    Some(MoveType::Fresh)
                }
            },
        }
    }
}

/// Applying a stack move and undoing it gives back the position.
pub proof fn lemma_apply_undo(cells: Seq<GameCell<Piece>>, target: int, stack: StackHeight, team: Team)
    requires
        0 <= target < cells.len(),
    ensures
        cells.update(target, placed_cell(cells[target], stack, team)).update(
            target,
            restored_cell(
                NormalMoveEffect { destroyed_unit: destroyed_of(cells[target], team) },
                placed_cell(cells[target], stack, team),
            ),
        ) == cells,
{
    assert(cells.update(target, placed_cell(cells[target], stack, team)).update(
        target,
        restored_cell(
            NormalMoveEffect { destroyed_unit: destroyed_of(cells[target], team) },
            placed_cell(cells[target], stack, team),
        ),
    ) =~= cells);
}

/// Whether `team` may play at land cell `i` under `spoke_info`, suicidal moves
/// only when `allow_suicidal`.
pub open spec fn move_allowed(state: &GameState, spoke_info: &SpokeInfo, i: int, team: Team, allow_suicidal: bool) -> bool {
    match playable_spec(state.factions.cells[i], team, spoke_info.data[i].num_attack) {
        Some(f) => allow_suicidal || f != MoveType::Suicidal,
        None => false,
    }
}

impl Coordinate {
    /// The height of the stack `team` would place here: the number of `team`'s
    /// pieces that see the cell.
    pub fn determine_stack_height(
        &self,
        state: &GameState,
        world: &MyWorld,
        team: Team,
        spoke_info: &SpokeInfo,
    ) -> (h: StackHeight)
        requires
            team != Team::Neutral,
            spoke_info.wf(),
            self.0 < SPOKE_CELLS,
        ensures
            height_num(h) == spoke_info.data[self.0 as int].num_attack[team_index(team)],
    {
        let n = spoke_info.get_num_attack(self.0);
        proof {
            assert(spoke_info.data[self.0 as int].wf());
            crate::moves::lemma_count_update(spoke_info.data[self.0 as int].raw@, 0, Team::Neutral, team);
        }
        StackHeight::from_num(n[team.index()] as i8)
    }
}

impl NormalMove {
    /// The moves `team` may play, in increasing cell order, each with the
    /// height given by the number of `team`'s pieces that see its cell.
    pub fn possible_moves(
        state: &GameState,
        world: &MyWorld,
        team: Team,
        spoke_info: &SpokeInfo,
        allow_suicidal: bool,
    ) -> (v: Vec<NormalMove>)
        requires
            team != Team::Neutral,
            state.factions.wf(),
            world.wf(),
            spoke_info.wf(),
        ensures
            forall|k: int| 0 <= k < v.len() ==> {
                &&& land_cell((#[trigger] v[k]).coord.0 as int, world.radius - 1)
                &&& move_allowed(state, spoke_info, v[k].coord.0 as int, team, allow_suicidal)
                &&& height_num(v[k].stack) == spoke_info.data[v[k].coord.0 as int].num_attack[team_index(team)]
            },
            forall|k1: int, k2: int| 0 <= k1 < k2 < v.len() ==> (#[trigger] v[k1]).coord.0 < (#[trigger] v[k2]).coord.0,
            forall|i: int| land_cell(i, world.radius - 1) && #[trigger] move_allowed(state, spoke_info, i, team, allow_suicidal)
                ==> exists|k: int| 0 <= k < v.len() && #[trigger] v[k].coord.0 == i,
    {
        let lv = &world.land_as_vec;
        let mut v: Vec<NormalMove> = Vec::new();
        let mut k: usize = 0;
        while k < lv.len()
            invariant
                world.wf(),
                state.factions.wf(),
                spoke_info.wf(),
                team != Team::Neutral,
                lv == &world.land_as_vec,
                k <= lv.len(),
                forall|j: int| 0 <= j < v.len() ==> {
                    &&& land_cell((#[trigger] v[j]).coord.0 as int, world.radius - 1)
                    &&& move_allowed(state, spoke_info, v[j].coord.0 as int, team, allow_suicidal)
                    &&& height_num(v[j].stack) == spoke_info.data[v[j].coord.0 as int].num_attack[team_index(team)]
                    &&& exists|jj: int| 0 <= jj < k && lv[jj] == v[j].coord.0
                },
                forall|j1: int, j2: int| 0 <= j1 < j2 < v.len() ==> (#[trigger] v[j1]).coord.0 < (#[trigger] v[j2]).coord.0,
                forall|jj: int| 0 <= jj < k && #[trigger] move_allowed(state, spoke_info, lv[jj] as int, team, allow_suicidal)
                    ==> exists|j: int| 0 <= j < v.len() && #[trigger] v[j].coord.0 == lv[jj],
            decreases lv.len() - k,
        {
            let index = lv[k];
            proof {
                assert(is_land(world.radius as int)(index as int));
                crate::unit::lemma_land_not_pass(index as int, world.radius as int);
            }
            let ghost old_v = v@;
            if let Some(f) = NormalMove::playable(state, Coordinate(index), team, world, spoke_info) {
                if !f.is_suicidal() || allow_suicidal {
                    let stack = Coordinate(index).determine_stack_height(state, world, team, spoke_info);
                    v.push(NormalMove { stack, coord: Coordinate(index) });
                    proof {
                        assert forall|j: int| 0 <= j < v.len() - 1 implies (#[trigger] v[j]).coord.0 < index by {
                            let jj = choose|jj: int| 0 <= jj < k && lv[jj] == v[j].coord.0;
                            assert(lv[jj] < lv[k as int]);
                        }
                        assert(v[v.len() - 1].coord.0 == lv[k as int]);
                    }
                }
            }
            proof {
                assert forall|jj: int| 0 <= jj < k + 1 && #[trigger] move_allowed(state, spoke_info, lv[jj] as int, team, allow_suicidal)
                    implies exists|j: int| 0 <= j < v.len() && #[trigger] v[j].coord.0 == lv[jj] by {
                    if jj < k {
                        let j = choose|j: int| 0 <= j < old_v.len() && #[trigger] old_v[j].coord.0 == lv[jj];
                        assert(v[j] == old_v[j]);
                    } else {
                        assert(v[v.len() - 1].coord.0 == lv[jj]);
                    }
                }
            }
            k = k + 1;
        }
        proof {
            assert forall|i: int| land_cell(i, world.radius - 1) && #[trigger] move_allowed(state, spoke_info, i, team, allow_suicidal)
                implies exists|k: int| 0 <= k < v.len() && #[trigger] v[k].coord.0 == i by {
                assert(is_land(world.radius as int)(i));
                assert(lv@.contains(i as usize));
                let jj = choose|jj: int| 0 <= jj < lv.len() && lv@[jj] == i as usize;
                assert(move_allowed(state, spoke_info, lv[jj] as int, team, allow_suicidal));
            }
        }
        v
    }

    /// The cells where a move by `team` would lose its stack at once, in
    /// increasing order.
    pub fn generate_suicidal(
        state: &GameState,
        world: &MyWorld,
        team: Team,
        spoke_info: &SpokeInfo,
    ) -> (v: Vec<Coordinate>)
        requires
            state.factions.wf(),
            world.wf(),
            spoke_info.wf(),
        ensures
            forall|k: int| 0 <= k < v.len() ==> {
                &&& land_cell((#[trigger] v[k]).0 as int, world.radius - 1)
                &&& playable_spec(state.factions.cells[v[k].0 as int], team, spoke_info.data[v[k].0 as int].num_attack) == Some(MoveType::Suicidal)
            },
            forall|k1: int, k2: int| 0 <= k1 < k2 < v.len() ==> (#[trigger] v[k1]).0 < (#[trigger] v[k2]).0,
            forall|i: int| land_cell(i, world.radius - 1) && #[trigger] playable_spec(state.factions.cells[i], team, spoke_info.data[i].num_attack) == Some(MoveType::Suicidal)
                ==> exists|k: int| 0 <= k < v.len() && #[trigger] v[k].0 == i,
    {
        let lv = &world.land_as_vec;
        let mut v: Vec<Coordinate> = Vec::new();
        let mut k: usize = 0;
        while k < lv.len()
            invariant
                world.wf(),
                state.factions.wf(),
                spoke_info.wf(),
                lv == &world.land_as_vec,
                k <= lv.len(),
                forall|j: int| 0 <= j < v.len() ==> {
                    &&& land_cell((#[trigger] v[j]).0 as int, world.radius - 1)
                    &&& playable_spec(state.factions.cells[v[j].0 as int], team, spoke_info.data[v[j].0 as int].num_attack) == Some(MoveType::Suicidal)
                    &&& exists|jj: int| 0 <= jj < k && lv[jj] == v[j].0
                },
                forall|j1: int, j2: int| 0 <= j1 < j2 < v.len() ==> (#[trigger] v[j1]).0 < (#[trigger] v[j2]).0,
                forall|jj: int| 0 <= jj < k && #[trigger] playable_spec(state.factions.cells[lv[jj] as int], team, spoke_info.data[lv[jj] as int].num_attack) == Some(MoveType::Suicidal)
                    ==> exists|j: int| 0 <= j < v.len() && #[trigger] v[j].0 == lv[jj],
            decreases lv.len() - k,
        {
            let index = lv[k];
            proof {
                assert(is_land(world.radius as int)(index as int));
                crate::unit::lemma_land_not_pass(index as int, world.radius as int);
            }
            let ghost old_v = v@;
            if let Some(f) = NormalMove::playable(state, Coordinate(index), team, world, spoke_info) {
                if f.is_suicidal() {
                    v.push(Coordinate(index));
                    proof {
                        assert forall|j: int| 0 <= j < v.len() - 1 implies (#[trigger] v[j]).0 < index by {
                            let jj = choose|jj: int| 0 <= jj < k && lv[jj] == v[j].0;
                            assert(lv[jj] < lv[k as int]);
                        }
                        assert(v[v.len() - 1].0 == lv[k as int]);
                    }
                }
            }
            proof {
                assert forall|jj: int| 0 <= jj < k + 1 && #[trigger] playable_spec(state.factions.cells[lv[jj] as int], team, spoke_info.data[lv[jj] as int].num_attack) == Some(MoveType::Suicidal)
                    implies exists|j: int| 0 <= j < v.len() && #[trigger] v[j].0 == lv[jj] by {
                    if jj < k {
                        let j = choose|j: int| 0 <= j < old_v.len() && #[trigger] old_v[j].0 == lv[jj];
                        assert(v[j] == old_v[j]);
                    } else {
                        assert(v[v.len() - 1].0 == lv[jj]);
                    }
                }
            }
            k = k + 1;
        }
        proof {
            assert forall|i: int| land_cell(i, world.radius - 1) && #[trigger] playable_spec(state.factions.cells[i], team, spoke_info.data[i].num_attack) == Some(MoveType::Suicidal)
                implies exists|k: int| 0 <= k < v.len() && #[trigger] v[k].0 == i by {
                assert(is_land(world.radius as int)(i));
                assert(lv@.contains(i as usize));
                let jj = choose|jj: int| 0 <= jj < lv.len() && lv@[jj] == i as usize;
                assert(playable_spec(state.factions.cells[lv[jj] as int], team, spoke_info.data[lv[jj] as int].num_attack) == Some(MoveType::Suicidal));
            }
        }
        v
    }
}

impl LighthouseMove {
    /// The moves `team` may play as lighthouses: the stack moves that would be
    /// playable once `team`'s own lighthouses count as neutral stacks of six.
    pub fn possible_moves(
        state: &GameState,
        world: &MyWorld,
        team: Team,
        spoke_info: &SpokeInfo,
        allow_suicidal: bool,
    ) -> (v: Vec<LighthouseMove>)
        requires
            team != Team::Neutral,
            state.factions.wf(),
            world.wf(),
        ensures
            exists|game: GameState, sp: SpokeInfo| {
                &&& game.factions.wf()
                &&& forall|i: int| 0 <= i < TABLE_SIZE ==> #[trigger] game.factions.cells[i] == without_own_lighthouses(state.factions.cells[i], team, land_cell(i, world.radius - 1))
                &&& sp.describes(&game, world.radius as int)
                &&& forall|k: int| 0 <= k < v.len() ==> {
                    &&& land_cell((#[trigger] v[k]).coord.0 as int, world.radius - 1)
                    &&& move_allowed(&game, &sp, v[k].coord.0 as int, team, allow_suicidal)
                }
                &&& forall|k1: int, k2: int| 0 <= k1 < k2 < v.len() ==> (#[trigger] v[k1]).coord.0 < (#[trigger] v[k2]).coord.0
                &&& forall|i: int| land_cell(i, world.radius - 1) && #[trigger] move_allowed(&game, &sp, i, team, allow_suicidal)
                    ==> exists|k: int| 0 <= k < v.len() && #[trigger] v[k].coord.0 == i
            },
    {
        let mut game = state.clone();
        let lv = &world.land_as_vec;
        let mut k: usize = 0;
        while k < lv.len()
            invariant
                world.wf(),
                lv == &world.land_as_vec,
                k <= lv.len(),
                game.factions.wf(),
                state.factions.wf(),
                forall|i: int| 0 <= i < TABLE_SIZE ==> #[trigger] game.factions.cells[i] == if exists|j: int| 0 <= j < k && lv[j] == i {
                    without_own_lighthouses(state.factions.cells[i], team, true)
                } else {
                    state.factions.cells[i]
                },
            decreases lv.len() - k,
        {
            let a = lv[k];
            proof {
                assert(is_land(world.radius as int)(a as int));
                crate::unit::lemma_land_not_pass(a as int, world.radius as int);
            }
            let ghost before = game.factions.cells@;
            match game.factions.get_cell_inner(a) {
                GameCell::Piece(f) => {
                    if f.team == team && f.has_lighthouse {
                        game.factions.remove_inner(a);
                        game.factions.add_cell_inner(a, StackHeight::Stack6, Team::Neutral, false);
                    }
                },
                GameCell::Empty => {},
            }
            proof {
                assert forall|i: int| 0 <= i < TABLE_SIZE implies #[trigger] game.factions.cells[i] == if exists|j: int| 0 <= j < k + 1 && lv[j] == i {
                    without_own_lighthouses(state.factions.cells[i], team, true)
                } else {
                    state.factions.cells[i]
                } by {
                    if i == a {
                        assert(lv[k as int] == i);
                        if exists|j: int| 0 <= j < k && lv[j] == i {
                            let j = choose|j: int| 0 <= j < k && lv[j] == i;
                            assert(lv[j] < lv[k as int]);
                        }
                    } else {
                        assert(game.factions.cells[i] == before[i]);
                        if exists|j: int| 0 <= j < k + 1 && lv[j] == i {
                            let j = choose|j: int| 0 <= j < k + 1 && lv[j] == i;
                            assert(j != k);
                        }
                    }
                }
            }
            k = k + 1;
        }
        proof {
            assert forall|i: int| 0 <= i < TABLE_SIZE implies #[trigger] game.factions.cells[i] == without_own_lighthouses(state.factions.cells[i], team, land_cell(i, world.radius - 1)) by {
                if land_cell(i, world.radius - 1) {
                    assert(is_land(world.radius as int)(i));
                    assert(lv@.contains(i as usize));
                    let j = choose|j: int| 0 <= j < lv.len() && lv@[j] == i as usize;
                    assert(lv[j] == i);
                } else {
                    if exists|j: int| 0 <= j < lv.len() && lv[j] == i {
                        let j = choose|j: int| 0 <= j < lv.len() && lv[j] == i;
                        assert(is_land(world.radius as int)(lv[j] as int));
                    }
                }
            }
        }
        let sp = SpokeInfo::new(&game, world);
        let moves = NormalMove::possible_moves(&game, world, team, &sp, allow_suicidal);
        let mut v: Vec<LighthouseMove> = Vec::new();
        let mut k: usize = 0;
        while k < moves.len()
            invariant
                k <= moves.len(),
                v.len() == k,
                forall|j: int| 0 <= j < k ==> #[trigger] v[j].coord == moves[j].coord,
            decreases moves.len() - k,
        {
            v.push(LighthouseMove { coord: moves[k].coord });
            k = k + 1;
        }
        proof {
            assert forall|i: int| land_cell(i, world.radius - 1) && #[trigger] move_allowed(&game, &sp, i, team, allow_suicidal)
                implies exists|k: int| 0 <= k < v.len() && #[trigger] v[k].coord.0 == i by {
                let k = choose|k: int| 0 <= k < moves.len() && #[trigger] moves[k].coord.0 == i;
                assert(v[k].coord == moves[k].coord);
            }
            assert forall|k: int| 0 <= k < v.len() implies {
                &&& land_cell((#[trigger] v[k]).coord.0 as int, world.radius - 1)
                &&& move_allowed(&game, &sp, v[k].coord.0 as int, team, allow_suicidal)
            } by {
                assert(v[k].coord == moves[k].coord);
            }
            assert forall|k1: int, k2: int| 0 <= k1 < k2 < v.len() implies (#[trigger] v[k1]).coord.0 < (#[trigger] v[k2]).coord.0 by {
                assert(v[k1].coord == moves[k1].coord);
                assert(v[k2].coord == moves[k2].coord);
            }
        }
        v
    }

    /// Places a lighthouse of `team`: on an empty cell this is a stack move of
    /// height zero, recorded in the effect; the cell ends as `team`'s
    /// lighthouse of height zero either way.
    pub fn apply(
        &self,
        team: Team,
        game: &mut GameState,
        world: &MyWorld,
        spoke_info: Option<&SpokeInfo>,
    ) -> (e: LighthouseMoveEffect)
        requires
            old(game).factions.wf(),
            self.coord.0 < TABLE_SIZE,
            self.coord.0 != PASS_MOVE_INDEX,
        ensures
            final(game).factions.wf(),
            e.inner() == if old(game).factions.cells[self.coord.0 as int] is Empty {
                Some(NormalMoveEffect { destroyed_unit: None })
            } else {
                None
            },
            final(game).factions.cells@ == old(game).factions.cells@.update(
                self.coord.0 as int,
                GameCell::Piece(Piece { height: StackHeight::Stack0, team, has_lighthouse: true }),
            ),
    {
        let nm = match game.factions.get_cell_inner(self.coord.0) {
            GameCell::Piece(_) => None,
            GameCell::Empty => {
                let nm = NormalMove { coord: self.coord, stack: StackHeight::Stack0 }.apply(
                    team,
                    game,
                    world,
                    spoke_info,
                );
                Some(nm)
            },
        };
        game.factions.add_cell_inner(self.coord.0, StackHeight::Stack0, team, true);
        proof {
            assert(game.factions.cells@ =~= old(game).factions.cells@.update(
                self.coord.0 as int,
                GameCell::Piece(Piece { height: StackHeight::Stack0, team, has_lighthouse: true }),
            ));
        }
        LighthouseMoveEffect { nm }
    }

    /// Takes a lighthouse move back when it went on an empty cell (the cell is
    /// emptied again); otherwise changes nothing.
    pub fn undo(&self, effect: &LighthouseMoveEffect, state: &mut GameState)
        requires
            old(state).factions.wf(),
            self.coord.0 < TABLE_SIZE,
            self.coord.0 != PASS_MOVE_INDEX,
        ensures
            final(state).factions.wf(),
            final(state).factions.cells@ == match effect.inner() {
                Some(fe) => old(state).factions.cells@.update(
                    self.coord.0 as int,
                    restored_cell(fe, old(state).factions.cells[self.coord.0 as int]),
                ),
                None => old(state).factions.cells@,
            },
    {
        if let Some(fe) = &effect.nm {
            NormalMove { coord: self.coord, stack: StackHeight::Stack0 }.undo(fe, state);
        }
    }
}

/// A cell with `team`'s lighthouse turned into a neutral stack of six when
/// `on_land`.
pub open spec fn without_own_lighthouses(c: GameCell<Piece>, team: Team, on_land: bool) -> GameCell<Piece> {
    match c {
        GameCell::Piece(f) => if on_land && f.team == team && f.has_lighthouse {
            GameCell::Piece(Piece { height: StackHeight::Stack6, team: Team::Neutral, has_lighthouse: false })
        } else {
            c
        },
        GameCell::Empty => c,
    }
}


impl crate::hex::HexDraw for NormalMove {
    open spec fn drawable(&self, radius: i8) -> bool {
        crate::moves::index_drawable(self.coord.0, radius)
    }

    open spec fn text(&self, radius: i8) -> Seq<char> {
        crate::hex::axial_text(crate::hex::index_axial(self.coord.0 as int), radius)
    }

    fn fmt(&self, radius: i8) -> (s: String) {
        assert(self.drawable(radius));
        assert(self.coord.drawable(radius));
        let s = self.coord.fmt(radius);
        assert(self.coord.text(radius) == self.text(radius));
        s
    }
}

impl crate::hex::HexDraw for LighthouseMove {
    open spec fn drawable(&self, radius: i8) -> bool {
        crate::moves::index_drawable(self.coord.0, radius)
    }

    open spec fn text(&self, radius: i8) -> Seq<char> {
        crate::hex::axial_text(crate::hex::index_axial(self.coord.0 as int), radius)
    }

    fn fmt(&self, radius: i8) -> (s: String) {
        assert(self.drawable(radius));
        assert(self.coord.drawable(radius));
        let s = self.coord.fmt(radius);
        assert(self.coord.text(radius) == self.text(radius));
        s
    }
}

impl crate::hex::HexDraw for GenericMove<NormalMove, LighthouseMove> {
    open spec fn drawable(&self, radius: i8) -> bool {
        match self {
            GenericMove::Normal(o) => o.drawable(radius),
            GenericMove::Lighthouse(o) => o.drawable(radius),
        }
    }

    open spec fn text(&self, radius: i8) -> Seq<char> {
        match self {
            GenericMove::Normal(o) => o.text(radius),
            GenericMove::Lighthouse(o) => o.text(radius),
        }
    }

    fn fmt(&self, radius: i8) -> (s: String) {
        assert(self.drawable(radius));
        match self {
            GenericMove::Normal(o) => {
                assert(o.drawable(radius));
                let s = o.fmt(radius);
                assert(o.text(radius) == self.text(radius));
                s
            },
            GenericMove::Lighthouse(o) => {
                assert(o.drawable(radius));
                let s = o.fmt(radius);
                assert(o.text(radius) == self.text(radius));
                s
            },
        }
    }
}

} // verus!
