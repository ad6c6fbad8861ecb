//! Lines of sight ("spokes") of every cell: for each cell and direction the
//! team of the first piece seen, and per cell how many pieces of each player
//! see it.
use vstd::prelude::*;
use crate::board::{land_cell, ray_index, stride, MyWorld};
use crate::hex::{dir_index, dir_of_index, Axial, HDir, HexDraw, PASS_MOVE_INDEX};

use crate::move_build::{NormalMove, NormalMoveEffect};
use crate::unit::{end_point, first_piece, lemma_first_piece, lemma_land_not_pass, ray, seen_team, walk_len, EndPoint, GameCell, GameState, Piece, Team};

verus! {

/// The number of cells whose spokes are kept: every land cell has a smaller index.
pub const SPOKE_CELLS: usize = 256;

/// A move at a table index; the pass index stands for a pass.
#[derive(PartialEq, Eq, Debug, Clone, Copy, PartialOrd, Ord, Default, Structural)]
pub struct Coordinate(pub usize);

/// How a move relates to the cell it is played on.
#[derive(Debug, Copy, Clone, PartialEq, Eq, Structural)]
pub enum MoveType {
    Capture,
    Reinforce,
    Fresh,
    Suicidal,
}

impl MoveType {
    /// Whether the move loses the placed stack at once.
    pub fn is_suicidal(&self) -> (b: bool)
        ensures
            b == (*self == MoveType::Suicidal),
    {
        if let MoveType::Suicidal = self {
            true
        } else {
            false
        }
    }
}

/// The spokes of one cell: per direction the team first seen, and per player
/// the number of directions in which that player is seen.
#[derive(PartialEq, Eq, Copy, Clone, Debug)]
pub struct SpokeCell {
    pub raw: [Team; 6],
    pub num_attack: [i64; 2],
}

/// `1` when `a == b`, else `0`.
pub open spec fn one_if(a: Team, b: Team) -> int {
    if a == b {
        1
    } else {
        0
    }
}

/// The number of directions of `raw` in which team `t` is seen.
pub open spec fn count_team(raw: Seq<Team>, t: Team) -> int {
    one_if(raw[0], t) + one_if(raw[1], t) + one_if(raw[2], t) + one_if(raw[3], t) + one_if(
        raw[4],
        t,
    ) + one_if(raw[5], t)
}

/// Changing one direction changes each count by what left and what came.
pub proof fn lemma_count_update(raw: Seq<Team>, d: int, nt: Team, t: Team)
    requires
        raw.len() == 6,
        0 <= d < 6,
    ensures
        count_team(raw.update(d, nt), t) == count_team(raw, t) - one_if(raw[d], t) + one_if(nt, t),
        0 <= count_team(raw, t) <= 6,
{
    let r2 = raw.update(d, nt);
    lemma_count_pointwise(raw, r2, d, nt, t);
}

proof fn lemma_count_pointwise(raw: Seq<Team>, r2: Seq<Team>, d: int, nt: Team, t: Team)
    requires
        raw.len() == 6,
        r2.len() == 6,
        0 <= d < 6,
        r2[d] == nt,
        forall|i: int| 0 <= i < 6 && i != d ==> r2[i] == raw[i],
    ensures
        count_team(r2, t) == count_team(raw, t) - one_if(raw[d], t) + one_if(nt, t),
        0 <= count_team(raw, t) <= 6,
{
    let a0 = one_if(raw[0], t);
    let a1 = one_if(raw[1], t);
    let a2 = one_if(raw[2], t);
    let a3 = one_if(raw[3], t);
    let a4 = one_if(raw[4], t);
    let a5 = one_if(raw[5], t);
    assert(0 <= a0 <= 1 && 0 <= a1 <= 1 && 0 <= a2 <= 1 && 0 <= a3 <= 1 && 0 <= a4 <= 1 && 0 <= a5 <= 1);
    if d != 0 { assert(r2[0] == raw[0]); }
    if d != 1 { assert(r2[1] == raw[1]); }
    if d != 2 { assert(r2[2] == raw[2]); }
    if d != 3 { assert(r2[3] == raw[3]); }
    if d != 4 { assert(r2[4] == raw[4]); }
    if d != 5 { assert(r2[5] == raw[5]); }
}

impl SpokeCell {
    /// The counts agree with the six directions.
    pub open spec fn wf(&self) -> bool {
        self.num_attack[0] == count_team(self.raw@, Team::White) && self.num_attack[1]
            == count_team(self.raw@, Team::Black)
    }
}

/// The spokes of every cell of the board table.
#[derive(PartialEq, Eq, Clone, Debug)]
pub struct SpokeInfo {
    pub data: Vec<SpokeCell>,
}

/// What the walks from a cell met in each direction, for undoing a move.
pub struct SpokeTempInfo {
    pub data: [(i8, Option<EndPoint>); 6],
}

impl SpokeInfo {
    /// Every cell's counts agree with its directions.
    pub open spec fn wf(&self) -> bool {
        &&& self.data.len() == SPOKE_CELLS
        &&& forall|i: int| 0 <= i < SPOKE_CELLS ==> (#[trigger] self.data[i]).wf()
    }

    /// Every land cell records, in each direction, the team of the first piece
    /// seen from it in `game`.
    pub open spec fn describes(&self, game: &GameState, radius: int) -> bool {
        &&& self.wf()
        &&& forall|i: int, d: int|
            land_cell(i, radius - 1) && 0 <= d < 6 ==> #[trigger] self.data[i].raw[d] == seen_team(
                game.factions.cells@,
                i,
                dir_of_index(d),
                radius,
            )
    }

    /// The team first seen from cell `index` in direction `dir`.
    pub fn get(&self, index: usize, dir: HDir) -> (t: Team)
        requires
            index < self.data.len(),
        ensures
            t == self.data[index as int].raw[dir_index(dir)],
    {
        self.data[index].raw[dir.to_u8() as usize]
    }

    /// How many pieces of each player see cell `index`.
    pub fn get_num_attack(&self, index: usize) -> (n: &[i64; 2])
        requires
            index < self.data.len(),
        ensures
            *n == self.data[index as int].num_attack,
    {
        &self.data[index].num_attack
    }

    /// Records that `new_team` is first seen from cell `index` in direction
    /// `dir`, keeping the counts in step.
    #[verifier::rlimit(40)]
    #[verifier::spinoff_prover]
    pub fn set(&mut self, index: usize, dir: HDir, new_team: Team)
        requires
            old(self).wf(),
            index < SPOKE_CELLS,
        ensures
            final(self).wf(),
            final(self).data.len() == old(self).data.len(),
            final(self).data[index as int].raw@ == old(self).data[index as int].raw@.update(
                dir_index(dir),
                new_team,
            ),
            forall|j: int| 0 <= j < SPOKE_CELLS && j != index ==> #[trigger] final(self).data[j] == old(self).data[j],
    {
        let mut cc = self.data[index];
        let d = dir.to_u8() as usize;
        let curr_team = cc.raw[d];
        let ghost old_raw = cc.raw@;
        proof {
            assert(self.data[index as int].wf());
            lemma_count_update(old_raw, d as int, new_team, Team::White);
            lemma_count_update(old_raw, d as int, new_team, Team::Black);
        }
        if new_team == curr_team {
            assert(cc.raw@ =~= cc.raw@.update(d as int, new_team));
            return;
        }
        if new_team != Team::Neutral {
            let k = new_team.index();
            cc.num_attack[k] = cc.num_attack[k] + 1;
        }
        if curr_team != Team::Neutral {
            let k = curr_team.index();
            cc.num_attack[k] = cc.num_attack[k] - 1;
        }
        cc.raw[d] = new_team;
        assert(cc.raw@ == old_raw.update(d as int, new_team));
        assert(cc.wf());
        self.data.set(index, cc);
    }
}

/// A cell that sees nothing in any direction.
pub open spec fn blank_cell(c: SpokeCell) -> bool {
    &&& forall|d: int| 0 <= d < 6 ==> #[trigger] c.raw[d] == Team::Neutral
    &&& c.num_attack[0] == 0
    &&& c.num_attack[1] == 0
}

/// The team of a piece seen at the end of a walk, or `Neutral`.
pub fn end_team(e: &(i8, Option<EndPoint>)) -> (t: Team)
    ensures
        t == match e.1 {
            Some(p) => p.piece.team,
            None => Team::Neutral,
        },
{
    match &e.1 {
        Some(p) => p.piece.team,
        None => Team::Neutral,
    }
}

impl SpokeInfo {
    /// The spokes of every land cell of `world` in position `game`.
    #[verifier::rlimit(60)]
    #[verifier::spinoff_prover]
    pub fn new(game: &GameState, world: &MyWorld) -> (s: SpokeInfo)
        requires
            game.factions.wf(),
            world.wf(),
        ensures
            s.describes(game, world.radius as int),
            forall|i: int| 0 <= i < SPOKE_CELLS && !land_cell(i, world.radius - 1) ==> blank_cell(#[trigger] s.data[i]),
    {
        let mut data: Vec<SpokeCell> = Vec::new();
        let mut k: usize = 0;
        while k < SPOKE_CELLS
            invariant
                k <= SPOKE_CELLS,
                data.len() == k,
                forall|j: int| 0 <= j < k ==> blank_cell(#[trigger] data[j]),
            decreases SPOKE_CELLS - k,
        {
            let c = SpokeCell {
                raw: [Team::Neutral, Team::Neutral, Team::Neutral, Team::Neutral, Team::Neutral, Team::Neutral],
                num_attack: [0, 0],
            };
            data.push(c);
            k = k + 1;
        }
        let mut spoke_info = SpokeInfo { data };
        assert forall|j: int| 0 <= j < SPOKE_CELLS implies (#[trigger] spoke_info.data[j]).wf() by {
            assert(blank_cell(spoke_info.data[j]));
        }
        let lv = &world.land_as_vec;
        let mut k: usize = 0;
        while k < lv.len()
            invariant
                world.wf(),
                game.factions.wf(),
                lv == &world.land_as_vec,
                k <= lv.len(),
                spoke_info.wf(),
                forall|j: int, d: int|
                    0 <= j < k && 0 <= d < 6 ==> #[trigger] spoke_info.data[lv[j] as int].raw[d] == seen_team(
                        game.factions.cells@,
                        lv[j] as int,
                        dir_of_index(d),
                        world.radius as int,
                    ),
                forall|i: int|
                    0 <= i < SPOKE_CELLS && (forall|j: int| 0 <= j < k ==> lv[j] != i) ==> blank_cell(
                        #[trigger] spoke_info.data[i],
                    ),
            decreases lv.len() - k,
        {
            let index = lv[k];
            proof {
                assert(crate::board::is_land(world.radius as int)(index as int));
            }
            let ep = game.factions.iter_end_points(world, index);
            let mut d: u8 = 0;
            while d < 6
                invariant
                    world.wf(),
                    game.factions.wf(),
                    lv == &world.land_as_vec,
                    k < lv.len(),
                    index == lv[k as int],
                    land_cell(index as int, world.radius - 1),
                    index < SPOKE_CELLS,
                    d <= 6,
                    ep.len() == 6,
                    forall|dd: int| 0 <= dd < 6 ==> #[trigger] ep[dd] == end_point(game.factions.cells@, index as int, dir_of_index(dd), world.radius as int),
                    spoke_info.wf(),
                    forall|j: int, dd: int|
                        0 <= j < k && 0 <= dd < 6 ==> #[trigger] spoke_info.data[lv[j] as int].raw[dd] == seen_team(
                            game.factions.cells@,
                            lv[j] as int,
                            dir_of_index(dd),
                            world.radius as int,
                        ),
                    forall|dd: int| 0 <= dd < d ==> #[trigger] spoke_info.data[index as int].raw[dd] == seen_team(
                        game.factions.cells@,
                        index as int,
                        dir_of_index(dd),
                        world.radius as int,
                    ),
                    forall|i: int|
                        0 <= i < SPOKE_CELLS && i != index && (forall|j: int| 0 <= j < k ==> lv[j] != i) ==> blank_cell(
                            #[trigger] spoke_info.data[i],
                        ),
                decreases 6 - d,
            {
                let t = end_team(&ep[d as usize]);
                let dir = HDir::from_u8(d);
                spoke_info.set(index, dir, t);
                proof {
                    assert forall|j: int, dd: int|
                        0 <= j < k && 0 <= dd < 6 implies #[trigger] spoke_info.data[lv[j] as int].raw[dd] == seen_team(
                            game.factions.cells@,
                            lv[j] as int,
                            dir_of_index(dd),
                            world.radius as int,
                        ) by {
                        assert(lv[j] < lv[k as int]);
                    }
                }
                d = d + 1;
            }
            proof {
                assert forall|j: int, dd: int|
                    0 <= j < k + 1 && 0 <= dd < 6 implies #[trigger] spoke_info.data[lv[j] as int].raw[dd] == seen_team(
                        game.factions.cells@,
                        lv[j] as int,
                        dir_of_index(dd),
                        world.radius as int,
                    ) by {
                    if j == k {
                        assert(spoke_info.data[index as int].raw[dd] == seen_team(
                            game.factions.cells@,
                            index as int,
                            dir_of_index(dd),
                            world.radius as int,
                        ));
                    }
                }
            }
            k = k + 1;
        }
        proof {
            assert forall|i: int, d: int|
                land_cell(i, world.radius - 1) && 0 <= d < 6 implies #[trigger] spoke_info.data[i].raw[d] == seen_team(
                    game.factions.cells@,
                    i,
                    dir_of_index(d),
                    world.radius as int,
                ) by {
                assert(crate::board::is_land(world.radius as int)(i));
                assert(lv@.contains(i as usize));
                let j = choose|j: int| 0 <= j < lv.len() && lv@[j] == i as usize;
                assert(spoke_info.data[lv[j] as int].raw[d] == seen_team(
                    game.factions.cells@,
                    lv[j] as int,
                    dir_of_index(d),
                    world.radius as int,
                ));
            }
            assert forall|i: int| 0 <= i < SPOKE_CELLS && !land_cell(i, world.radius - 1) implies blank_cell(#[trigger] spoke_info.data[i]) by {
                assert forall|j: int| 0 <= j < lv.len() implies lv[j] != i by {
                    assert(crate::board::is_land(world.radius as int)(lv[j] as int));
                }
            }
        }
        spoke_info
    }
}

/// The position of the direction opposite to the one at position `dir`.
pub open spec fn opp(dir: int) -> int {
    (dir + 3) % 6
}

/// The last step of the walk from `i` in direction `d` that a placed piece
/// at `i` is seen from: the first piece met, or the last land cell.
pub open spec fn reach(cells: Seq<GameCell<Piece>>, i: int, d: HDir, radius: int) -> int {
    let n = walk_len(i, d, radius);
    let e = first_piece(cells, i, d, 1, n);
    if e < n {
        e
    } else {
        n - 1
    }
}

/// Whether `j` is one of the first `r` steps of the walk from `i` in direction `d`.
pub open spec fn on_walk(i: int, j: int, d: HDir, r: int) -> bool {
    exists|k: int| 1 <= k <= r && #[trigger] ray_index(i, d, k) == j
}

/// Distinct steps of a walk reach distinct table indices.
pub proof fn lemma_ray_injective(i: int, d: HDir, k1: int, k2: int)
    requires
        ray_index(i, d, k1) == ray_index(i, d, k2),
    ensures
        k1 == k2,
{
    let s = stride(d);
    assert(s != 0);
    if k1 != k2 {
        assert(k1 * s != k2 * s) by (nonlinear_arith)
            requires
                k1 != k2,
                s != 0,
        ;
    }
}

/// The spoke entry of `(j, dir)` after a piece of `team` is placed at `i`,
/// with the walks in the directions before position `dd` done completely and
/// the walk in direction `dd` done for `kk` steps (its own entry at `i` not yet set).
pub open spec fn spoke_after(
    old: SpokeCell,
    cells: Seq<GameCell<Piece>>,
    i: int,
    radius: int,
    team: Team,
    dd: int,
    kk: int,
    j: int,
    dir: int,
) -> Team {
    if j == i && dir < dd {
        seen_team(cells, i, dir_of_index(dir), radius)
    } else if j != i && opp(dir) < dd && on_walk(i, j, dir_of_index(opp(dir)), reach(cells, i, dir_of_index(opp(dir)), radius)) {
        team
    } else if j != i && opp(dir) == dd && on_walk(i, j, dir_of_index(dd), kk) {
        team
    } else {
        old.raw[dir]
    }
}

impl SpokeInfo {
    /// Updates the spokes after a piece of `team` was placed at `a`'s cell in
    /// `game` (the position after the move): every cell from which the new
    /// piece is now the first one seen records `team` towards it, and the
    /// cell itself records what it sees. Returns what each walk met. A pass
    /// changes nothing.
    #[verifier::rlimit(80)]
    #[verifier::spinoff_prover]
    pub fn process_move_better(
        &mut self,
        a: NormalMove,
        team: Team,
        world: &MyWorld,
        game: &GameState,
    ) -> (t: SpokeTempInfo)
        requires
            old(self).wf(),
            world.wf(),
            game.factions.wf(),
            a.coord.0 == PASS_MOVE_INDEX || land_cell(a.coord.0 as int, world.radius - 1),
        ensures
            final(self).wf(),
            a.coord.0 == PASS_MOVE_INDEX ==> final(self).data@ == old(self).data@
                && forall|d: int| 0 <= d < 6 ==> #[trigger] t.data[d] == (0i8, None::<EndPoint>),
            a.coord.0 != PASS_MOVE_INDEX ==> {
                &&& forall|d: int| 0 <= d < 6 ==> #[trigger] t.data[d] == end_point(
                    game.factions.cells@,
                    a.coord.0 as int,
                    dir_of_index(d),
                    world.radius as int,
                )
                &&& forall|j: int, dir: int|
                    0 <= j < SPOKE_CELLS && 0 <= dir < 6 ==> #[trigger] final(self).data[j].raw[dir] == spoke_after(
                        old(self).data[j],
                        game.factions.cells@,
                        a.coord.0 as int,
                        world.radius as int,
                        team,
                        6,
                        0,
                        j,
                        dir,
                    )
            },
    {
        if a.coord.0 == PASS_MOVE_INDEX {
            return SpokeTempInfo { data: [(0, None), (0, None), (0, None), (0, None), (0, None), (0, None)] };
        }
        let index = a.coord.0;
        let ghost cells = game.factions.cells@;
        let ghost radius = world.radius as int;
        let ghost old_data = self.data@;
        let start = Axial::from_index(index);
        proof {
            crate::hex::lemma_index_roundtrip(index as int);
        }
        let dirs = HDir::all();
        let mut out: Vec<(i8, Option<EndPoint>)> = Vec::new();
        let mut di: usize = 0;
        while di < 6
            invariant
                world.wf(),
                game.factions.wf(),
                game.factions.cells@ == cells,
                radius == world.radius as int,
                land_cell(index as int, radius - 1),
                start == crate::hex::index_axial(index as int),
                dirs@ == crate::hex::all_dirs(),
                self.wf(),
                old_data.len() == SPOKE_CELLS,
                di <= 6,
                out.len() == di,
                forall|d: int| 0 <= d < di ==> #[trigger] out[d] == end_point(cells, index as int, dir_of_index(d), radius),
                forall|j: int, dir: int|
                    0 <= j < SPOKE_CELLS && 0 <= dir < 6 ==> #[trigger] self.data[j].raw[dir] == spoke_after(
                        old_data[j], cells, index as int, radius, team, di as int, 0, j, dir),
            decreases 6 - di,
        {
            let dd = dirs[di];
            assert(dd == dir_of_index(di as int));
            let (dis, it) = ray(start, dd, world);
            let ghost n = dis as int;
            let back = dd.rotate_180();
            assert(dir_index(back) == opp(di as int));
            let mut k: usize = 0;
            let mut hit: Option<EndPoint> = None;
            while k < it.len() && hit.is_none()
                invariant
                    world.wf(),
                    game.factions.wf(),
                    game.factions.cells@ == cells,
                    radius == world.radius as int,
                    land_cell(index as int, radius - 1),
                    self.wf(),
                    old_data.len() == SPOKE_CELLS,
                    di < 6,
                    dd == dir_of_index(di as int),
                    dir_index(back) == opp(di as int),
                    n == walk_len(index as int, dd, radius),
                    it.len() == n - 1,
                    forall|j: int| 0 <= j < it.len() ==> #[trigger] it[j] == ray_index(index as int, dd, j + 1)
                        && land_cell(it[j] as int, radius - 1),
                    k <= it.len(),
                    hit.is_none() ==> first_piece(cells, index as int, dd, 1, n) == first_piece(cells, index as int, dd, k + 1, n),
                    hit.is_some() ==> k >= 1 && first_piece(cells, index as int, dd, 1, n) == k
                        && hit == end_point(cells, index as int, dd, radius).1,
                    forall|j: int, dir: int|
                        0 <= j < SPOKE_CELLS && 0 <= dir < 6 ==> #[trigger] self.data[j].raw[dir] == spoke_after(
                            old_data[j], cells, index as int, radius, team, di as int, k as int, j, dir),
                decreases it.len() - k,
            {
                let index2 = it[k] as usize;
                proof {
                    lemma_land_not_pass(index2 as int, radius);
                    assert(first_piece(cells, index as int, dd, k + 1, n) == if cells[index2 as int] is Piece {
                        k + 1
                    } else {
                        first_piece(cells, index as int, dd, k + 2, n)
                    });
                }
                let ghost before = self.data@;
                self.set(index2, back, team);
                proof {
                    assert forall|j: int, dir: int|
                        0 <= j < SPOKE_CELLS && 0 <= dir < 6 implies #[trigger] self.data[j].raw[dir] == spoke_after(
                            old_data[j], cells, index as int, radius, team, di as int, k + 1, j, dir) by {
                        if j == index2 {
                            assert(ray_index(index as int, dd, k + 1) == j);
                            assert(j != index) by {
                                if j == index {
                                    lemma_ray_injective(index as int, dd, k + 1, 0);
                                }
                            }
                        } else {
                            assert(self.data[j] == before[j]);
                            if opp(dir) == di && j != index {
                                if on_walk(index as int, j, dd, k + 1) {
                                    let kk = choose|kk: int| 1 <= kk <= k + 1 && #[trigger] ray_index(index as int, dd, kk) == j;
                                    assert(kk != k + 1);
                                    assert(on_walk(index as int, j, dd, k as int));
                                }
                                if on_walk(index as int, j, dd, k as int) {
                                    let kk = choose|kk: int| 1 <= kk <= k && #[trigger] ray_index(index as int, dd, kk) == j;
                                    assert(on_walk(index as int, j, dd, k + 1));
                                }
                            }
                        }
                    }
                }
                match game.factions.get_cell_inner(index2) {
                    GameCell::Piece(piece) => {
                        hit = Some(EndPoint { index: index2, piece });
                        proof {
                            assert(first_piece(cells, index as int, dd, 1, n) == k + 1);
                        }
                    },
                    GameCell::Empty => {},
                }
                k = k + 1;
            }
            proof {
                lemma_first_piece(cells, index as int, dd, 1, n);
                if hit.is_none() {
                    assert(first_piece(cells, index as int, dd, n, n) == n);
                }
                assert(reach(cells, index as int, dd, radius) == k);
            }
            let t = match hit {
                Some(e) => e.piece.team,
                None => Team::Neutral,
            };
            let ghost before = self.data@;
            self.set(index, dd, t);
            let entry = match hit {
                Some(e) => (k as i8, Some(e)),
                None => (dis, None),
            };
            out.push(entry);
            proof {
                assert(entry == end_point(cells, index as int, dd, radius));
                assert forall|j: int, dir: int|
                    0 <= j < SPOKE_CELLS && 0 <= dir < 6 implies #[trigger] self.data[j].raw[dir] == spoke_after(
                        old_data[j], cells, index as int, radius, team, di + 1, 0, j, dir) by {
                    if j != index {
                        assert(self.data[j] == before[j]);
                        assert(!on_walk(index as int, j, dir_of_index(di + 1), 0));
                    } else if dir != di {
                        assert(!on_walk(index as int, j, dir_of_index(di + 1), 0));
                    }
                }
            }
            di = di + 1;
        }
        SpokeTempInfo { data: [out[0], out[1], out[2], out[3], out[4], out[5]] }
    }
}

/// Whether a recorded walk result `t` agrees with `e` on the distance, on
/// whether a piece was met and on that piece's team.
pub open spec fn temp_agrees(t: (i8, Option<EndPoint>), e: (i8, Option<EndPoint>)) -> bool {
    &&& t.0 == e.0
    &&& t.1.is_some() == e.1.is_some()
    &&& t.1.is_some() ==> t.1.unwrap().piece.team == e.1.unwrap().piece.team
}

/// The team that cells looking back at `i` in direction `dir` see once a move
/// at `i` with effect `effect` is undone: the piece the move replaced, or else
/// the first piece beyond `i`.
pub open spec fn undo_team(effect: NormalMoveEffect, cells: Seq<GameCell<Piece>>, i: int, dir: int, radius: int) -> Team {
    match effect.destroyed_unit {
        Some(du) => du.team,
        None => seen_team(cells, i, dir_of_index(dir), radius),
    }
}

impl SpokeInfo {
    /// Takes back `process_move_better` for the move `a` with effect `effect`:
    /// every cell from which the placed piece was the first one seen records
    /// again what it saw before, the replaced piece or what lies beyond.
    /// `game` is the position with the move still on the board and
    /// `spoke_temp` what `process_move_better` returned for it.
    #[verifier::rlimit(80)]
    #[verifier::spinoff_prover]
    pub fn undo_move(
        &mut self,
        a: NormalMove,
        effect: &NormalMoveEffect,
        team: Team,
        world: &MyWorld,
        game: &GameState,
        spoke_temp: SpokeTempInfo,
    )
        requires
            old(self).wf(),
            world.wf(),
            game.factions.wf(),
            a.coord.0 == PASS_MOVE_INDEX || land_cell(a.coord.0 as int, world.radius - 1),
            a.coord.0 != PASS_MOVE_INDEX ==> forall|d: int| 0 <= d < 6 ==> #[trigger] temp_agrees(spoke_temp.data[d], end_point(
                game.factions.cells@,
                a.coord.0 as int,
                dir_of_index(d),
                world.radius as int,
            )),
        ensures
            final(self).wf(),
            a.coord.0 == PASS_MOVE_INDEX ==> final(self).data@ == old(self).data@,
            a.coord.0 != PASS_MOVE_INDEX ==> forall|j: int, dir: int|
                0 <= j < SPOKE_CELLS && 0 <= dir < 6 ==> #[trigger] final(self).data[j].raw[dir] == if j != a.coord.0
                    && on_walk(a.coord.0 as int, j, dir_of_index(opp(dir)), reach(game.factions.cells@, a.coord.0 as int, dir_of_index(opp(dir)), world.radius as int)) {
                    undo_team(*effect, game.factions.cells@, a.coord.0 as int, dir, world.radius as int)
                } else {
                    old(self).data[j].raw[dir]
                },
    {
        if a.coord.0 == PASS_MOVE_INDEX {
            return;
        }
        let index = a.coord.0;
        let ghost cells = game.factions.cells@;
        let ghost radius = world.radius as int;
        let ghost old_data = self.data@;
        let start = Axial::from_index(index);
        proof {
            crate::hex::lemma_index_roundtrip(index as int);
        }
        let dirs = HDir::all();
        let mut di: usize = 0;
        while di < 6
            invariant
                world.wf(),
                game.factions.wf(),
                game.factions.cells@ == cells,
                radius == world.radius as int,
                land_cell(index as int, radius - 1),
                start == crate::hex::index_axial(index as int),
                dirs@ == crate::hex::all_dirs(),
                forall|d: int| 0 <= d < 6 ==> #[trigger] temp_agrees(spoke_temp.data[d], end_point(cells, index as int, dir_of_index(d), radius)),
                self.wf(),
                old_data.len() == SPOKE_CELLS,
                di <= 6,
                forall|j: int, dir: int|
                    0 <= j < SPOKE_CELLS && 0 <= dir < 6 ==> #[trigger] self.data[j].raw[dir] == if j != index
                        && opp(dir) < di
                        && on_walk(index as int, j, dir_of_index(opp(dir)), reach(cells, index as int, dir_of_index(opp(dir)), radius)) {
                        undo_team(*effect, cells, index as int, dir, radius)
                    } else {
                        old_data[j].raw[dir]
                    },
            decreases 6 - di,
        {
            let dd = dirs[di];
            assert(dd == dir_of_index(di as int));
            let back = dd.rotate_180();
            let bi = back.to_u8() as usize;
            assert(bi == opp(di as int));
            let (dis, rest) = spoke_temp.data[di];
            let st: i8 = if rest.is_some() { 1 } else { 0 };
            let oppt = if let Some(du) = effect.destroyed_unit {
                du.team
            } else {
                match spoke_temp.data[bi].1 {
                    Some(end) => end.piece.team,
                    None => Team::Neutral,
                }
            };
            proof {
                assert(opp(bi as int) == di);
                assert(temp_agrees(spoke_temp.data[bi as int], end_point(cells, index as int, dir_of_index(bi as int), radius)));
                assert(temp_agrees(spoke_temp.data[di as int], end_point(cells, index as int, dir_of_index(di as int), radius)));
                assert(oppt == undo_team(*effect, cells, index as int, bi as int, radius));
            }
            let (n, it) = ray(start, dd, world);
            proof {
                let nn = walk_len(index as int, dd, radius);
                lemma_first_piece(cells, index as int, dd, 1, nn);
                assert(dis - 1 + st == reach(cells, index as int, dd, radius));
            }
            let steps = (dis - 1 + st) as usize;
            let mut k: usize = 0;
            while k < steps
                invariant
                    self.wf(),
                    old_data.len() == SPOKE_CELLS,
                    di < 6,
                    dd == dir_of_index(di as int),
                    dir_index(back) == opp(di as int),
                    bi == opp(di as int),
                    land_cell(index as int, radius - 1),
                    oppt == undo_team(*effect, cells, index as int, bi as int, radius),
                    world.wf(),
                    radius == world.radius as int,
                    steps == reach(cells, index as int, dd, radius),
                    steps <= it.len(),
                    forall|j: int| 0 <= j < it.len() ==> #[trigger] it[j] == ray_index(index as int, dd, j + 1)
                        && land_cell(it[j] as int, radius - 1),
                    k <= steps,
                    forall|j: int, dir: int|
                        0 <= j < SPOKE_CELLS && 0 <= dir < 6 ==> #[trigger] self.data[j].raw[dir] == if j != index
                            && opp(dir) < di
                            && on_walk(index as int, j, dir_of_index(opp(dir)), reach(cells, index as int, dir_of_index(opp(dir)), radius)) {
                            undo_team(*effect, cells, index as int, dir, radius)
                        } else if j != index && opp(dir) == di && on_walk(index as int, j, dd, k as int) {
                            oppt
                        } else {
                            old_data[j].raw[dir]
                        },
                decreases steps - k,
            {
                let index2 = it[k] as usize;
                let ghost before = self.data@;
                self.set(index2, back, oppt);
                proof {
                    assert forall|j: int, dir: int|
                        0 <= j < SPOKE_CELLS && 0 <= dir < 6 implies #[trigger] self.data[j].raw[dir] == if j != index
                            && opp(dir) < di
                            && on_walk(index as int, j, dir_of_index(opp(dir)), reach(cells, index as int, dir_of_index(opp(dir)), radius)) {
                            undo_team(*effect, cells, index as int, dir, radius)
                        } else if j != index && opp(dir) == di && on_walk(index as int, j, dd, k + 1) {
                            oppt
                        } else {
                            old_data[j].raw[dir]
                        } by {
                        if j == index2 {
                            assert(ray_index(index as int, dd, k + 1) == j);
                            assert(j != index) by {
                                if j == index {
                                    lemma_ray_injective(index as int, dd, k + 1, 0);
                                }
                            }
                            assert(on_walk(index as int, j, dd, k + 1));
                        } else {
                            assert(self.data[j] == before[j]);
                            if opp(dir) == di && j != index {
                                if on_walk(index as int, j, dd, k + 1) {
                                    let kk = choose|kk: int| 1 <= kk <= k + 1 && #[trigger] ray_index(index as int, dd, kk) == j;
                                    assert(kk != k + 1);
                                    assert(on_walk(index as int, j, dd, k as int));
                                }
                                if on_walk(index as int, j, dd, k as int) {
                                    let kk = choose|kk: int| 1 <= kk <= k && #[trigger] ray_index(index as int, dd, kk) == j;
                                    assert(on_walk(index as int, j, dd, k + 1));
                                }
                            }
                        }
                    }
                }
                k = k + 1;
            }
            proof {
                assert forall|j: int, dir: int|
                    0 <= j < SPOKE_CELLS && 0 <= dir < 6 implies #[trigger] self.data[j].raw[dir] == if j != index
                        && opp(dir) < di + 1
                        && on_walk(index as int, j, dir_of_index(opp(dir)), reach(cells, index as int, dir_of_index(opp(dir)), radius)) {
                        undo_team(*effect, cells, index as int, dir, radius)
                    } else {
                        old_data[j].raw[dir]
                    } by {
                    if opp(dir) == di {
                        assert(dir == bi);
                    }
                }
            }
            di = di + 1;
        }
    }
}


/// Whether the cell at table index `c` can be written on a board of radius `radius`.
pub open spec fn index_drawable(c: usize, radius: i8) -> bool {
    c < 2176 && crate::hex::axial_drawable(crate::hex::index_axial(c as int), radius)
}

impl crate::hex::HexDraw for Coordinate {
    open spec fn drawable(&self, radius: i8) -> bool {
        index_drawable(self.0, radius)
    }

    open spec fn text(&self, radius: i8) -> Seq<char> {
        crate::hex::axial_text(crate::hex::index_axial(self.0 as int), radius)
    }

    fn fmt(&self, radius: i8) -> (s: String) {
        assert(self.drawable(radius));
        assert(index_drawable(self.0, radius));
        let a = Axial::from_index(self.0);
        assert(a == crate::hex::index_axial(self.0 as int));
        assert(crate::hex::axial_drawable(a, radius));
        assert(a.drawable(radius) == crate::hex::axial_drawable(a, radius));
        let s = a.fmt(radius);
        assert(a.text(radius) == crate::hex::axial_text(a, radius));
        assert(self.text(radius) == crate::hex::axial_text(a, radius));
        s
    }
}

} // verus!
