//! Teams, stacks, pieces and the table of cells that makes up a game state.
use vstd::prelude::*;
use crate::board::{
    determine_stride, dis_to_hex_of_hexagon, hex_dis, land_cell, lemma_ray_in_land,
    lemma_ray_leaves_land, ray_index, stride, MyWorld,
};
use crate::hex::{
    axial_index, dir_of_index, in_table, index_axial, lemma_axial_roundtrip, Axial, HDir,
    PASS_MOVE_INDEX,
};
use crate::mesh::TABLE_SIZE;
use crate::board::enumerates;
use crate::mesh::SmallMesh;
use crate::history::{CanPass, HistoryOneMove, MoveHistory};
use crate::move_build::GenericMove;

verus! {

/// A side of the game. `Neutral` pieces belong to neither player.
#[derive(Hash, Ord, PartialOrd, Debug, Copy, Clone, Eq, PartialEq, Structural)]
pub enum Team {
    White,
    Black,
    Neutral,
}

/// The other player; `Neutral` stays `Neutral`.
pub open spec fn team_not(t: Team) -> Team {
    match t {
        Team::White => Team::Black,
        Team::Black => Team::White,
        Team::Neutral => Team::Neutral,
    }
}

/// `1` for white, `-1` for black, `0` for neutral.
pub open spec fn team_value(t: Team) -> int {
    match t {
        Team::White => 1,
        Team::Black => -1,
        Team::Neutral => 0,
    }
}

/// The slot of a player in a two-element array: white `0`, black `1`.
pub open spec fn team_index(t: Team) -> int {
    match t {
        Team::White => 0,
        Team::Black => 1,
        Team::Neutral => 2,
    }
}

impl Team {
    /// `1` for white, `-1` for black, `0` for neutral.
    pub fn value(&self) -> (v: i64)
        ensures
            v == team_value(*self),
    {
        match self {
            Team::White => 1,
            Team::Black => -1,
            Team::Neutral => 0,
        }
    }

    /// The slot of a player in a two-element array.
    pub fn index(&self) -> (i: usize)
        requires
            *self != Team::Neutral,
        ensures
            i == team_index(*self),
            i < 2,
    {
        match self {
            Team::White => 0,
            _ => 1,
        }
    }

    /// Whether this is the white player.
    pub fn is_white(&self) -> (b: bool)
        ensures
            b == (*self == Team::White),
    {
        if let Team::White = self {
            true
        } else {
            false
        }
    }

    /// The first `count` turns of play starting with this team: this team,
    /// the other, this team again, and so on.
    pub fn iter(&self, count: usize) -> (v: Vec<Team>)
        ensures
            v.len() == count,
            forall|k: int|
                0 <= k < count ==> #[trigger] v[k] == if k % 2 == 0 {
                    *self
                } else {
                    team_not(*self)
                },
    {
        let mut v: Vec<Team> = Vec::new();
        let mut k: usize = 0;
        let mut t = *self;
        while k < count
            invariant
                k <= count,
                v.len() == k,
                t == if k % 2 == 0 {
                    *self
                } else {
                    team_not(*self)
                },
                forall|j: int|
                    0 <= j < k ==> #[trigger] v[j] == if j % 2 == 0 {
                        *self
                    } else {
                        team_not(*self)
                    },
            decreases count - k,
        {
            v.push(t);
            t = t.not();
            k = k + 1;
        }
        v
    }

    /// The other player; `Neutral` stays `Neutral`.
    pub fn not(&self) -> (t: Team)
        ensures
            t == team_not(*self),
    {
        match self {
            Team::White => Team::Black,
            Team::Black => Team::White,
            Team::Neutral => Team::Neutral,
        }
    }
}

/// Reads the slot of `team` in a two-element array.
pub fn at_team(arr: &[i64; 2], team: Team) -> (v: i64)
    requires
        team != Team::Neutral,
    ensures
        v == arr[team_index(team)],
{
    arr[team.index()]
}

/// The outcome of a finished game.
#[derive(Debug, Clone, Copy, PartialEq, Eq, Structural)]
pub enum GameOver {
    WhiteWon,
    BlackWon,
    Tie,
}

/// The height of a stack, from zero to six.
#[derive(Default, Debug, Eq, Ord, PartialEq, PartialOrd, Hash, Copy, Clone, Structural)]
pub enum StackHeight {
    Stack0,
    #[default]
    Stack1,
    Stack2,
    Stack3,
    Stack4,
    Stack5,
    Stack6,
}

/// The number of a stack height.
pub open spec fn height_num(h: StackHeight) -> int {
    match h {
        StackHeight::Stack0 => 0,
        StackHeight::Stack1 => 1,
        StackHeight::Stack2 => 2,
        StackHeight::Stack3 => 3,
        StackHeight::Stack4 => 4,
        StackHeight::Stack5 => 5,
        StackHeight::Stack6 => 6,
    }
}

impl StackHeight {
    /// The number of this height.
    pub fn to_num(&self) -> (n: i8)
        ensures
            n == height_num(*self),
            0 <= n <= 6,
    {
        match self {
            StackHeight::Stack0 => 0,
            StackHeight::Stack1 => 1,
            StackHeight::Stack2 => 2,
            StackHeight::Stack3 => 3,
            StackHeight::Stack4 => 4,
            StackHeight::Stack5 => 5,
            StackHeight::Stack6 => 6,
        }
    }

    /// The height with number `num`.
    pub fn from_num(num: i8) -> (h: StackHeight)
        requires
            0 <= num <= 6,
        ensures
            height_num(h) == num,
    {
        match num {
            0 => StackHeight::Stack0,
            1 => StackHeight::Stack1,
            2 => StackHeight::Stack2,
            3 => StackHeight::Stack3,
            4 => StackHeight::Stack4,
            5 => StackHeight::Stack5,
            _ => StackHeight::Stack6,
        }
    }
}

/// A stack on a cell: its height, its team and whether it carries a lighthouse.
#[derive(PartialOrd, Ord, Copy, Debug, Eq, PartialEq, Hash, Clone, Structural)]
pub struct Piece {
    pub height: StackHeight,
    pub team: Team,
    pub has_lighthouse: bool,
}

/// The kind of piece a player can place.
#[derive(Hash, PartialEq, Eq, Debug, Clone, Copy, PartialOrd, Ord, Structural)]
pub enum PieceType {
    Normal,
    Lighthouse,
}

/// A cell of the board: a piece or nothing.
#[derive(PartialOrd, Ord, Debug, Default, Eq, PartialEq, Hash, Clone, Copy, Structural)]
pub enum GameCell<T> {
    Piece(T),
    #[default]
    Empty,
}

/// A piece found at the end of a line of sight, with its table index.
#[derive(Debug, PartialEq, Eq, Clone, Copy, Structural)]
pub struct EndPoint {
    pub index: usize,
    pub piece: Piece,
}

/// The kinds of unit.
#[derive(PartialOrd, Ord, Eq, PartialEq, Copy, Clone, Debug, Structural)]
pub enum UnitType {
    Mouse,
    Rabbit,
}

/// Cell counts of a finished position.
#[derive(Debug, Eq, PartialEq, Clone, Copy, Structural)]
pub struct ScoreData {
    pub white: usize,
    pub black: usize,
    pub neutral: usize,
}

/// All cells of the board table.
#[derive(Debug, Default, Eq, PartialEq, Hash)]
pub struct Tribe {
    pub cells: Vec<GameCell<Piece>>,
}

impl Clone for Tribe {
    /// A copy of every cell.
    fn clone(&self) -> (t: Tribe)
        ensures
            t.cells@ == self.cells@,
    {
        let mut cells: Vec<GameCell<Piece>> = Vec::new();
        let mut k: usize = 0;
        while k < self.cells.len()
            invariant
                k <= self.cells.len(),
                cells.len() == k,
                forall|j: int| 0 <= j < k ==> #[trigger] cells[j] == self.cells[j],
            decreases self.cells.len() - k,
        {
            cells.push(self.cells[k]);
            k = k + 1;
        }
        assert(cells@ =~= self.cells@);
        Tribe { cells }
    }
}

impl Tribe {
    /// One cell per table index.
    pub open spec fn wf(&self) -> bool {
        self.cells.len() == TABLE_SIZE
    }

    /// A table of empty cells.
    pub fn new() -> (t: Tribe)
        ensures
            t.wf(),
            forall|i: int| 0 <= i < TABLE_SIZE ==> #[trigger] t.cells[i] == GameCell::<Piece>::Empty,
    {
        let mut cells: Vec<GameCell<Piece>> = Vec::new();
        let mut k: usize = 0;
        while k < TABLE_SIZE
            invariant
                k <= TABLE_SIZE,
                cells.len() == k,
                forall|i: int| 0 <= i < k ==> #[trigger] cells[i] == GameCell::<Piece>::Empty,
            decreases TABLE_SIZE - k,
        {
            cells.push(GameCell::Empty);
            k = k + 1;
        }
        Tribe { cells }
    }

    /// Empties the cell `a`.
    pub fn remove(&mut self, a: Axial)
        requires
            old(self).wf(),
            in_table(a),
        ensures
            final(self).cells@ == old(self).cells@.update(axial_index(a), GameCell::Empty),
    {
        let a = a.to_index();
        self.remove_inner(a);
    }

    /// Empties the cell at table index `a`.
    pub fn remove_inner(&mut self, a: usize)
        requires
            a < old(self).cells.len(),
        ensures
            final(self).cells@ == old(self).cells@.update(a as int, GameCell::Empty),
    {
        self.cells.set(a, GameCell::Empty);
    }

    /// Copies the cell at `index` from `other` when `other` holds a piece there.
    pub fn copy_cell_if_occupied(&mut self, other: &Tribe, index: usize)
        requires
            index != PASS_MOVE_INDEX,
            index < old(self).cells.len(),
            index < other.cells.len(),
        ensures
            final(self).cells@ == match other.cells[index as int] {
                GameCell::Piece(o) => old(self).cells@.update(index as int, GameCell::Piece(o)),
                GameCell::Empty => old(self).cells@,
            },
    {
        match other.cells[index] {
            GameCell::Piece(o) => {
                self.cells.set(index, GameCell::Piece(o));
            },
            GameCell::Empty => {},
        }
    }

    /// The cell at table index `index`.
    pub fn get_cell_inner(&self, index: usize) -> (c: GameCell<Piece>)
        requires
            index != PASS_MOVE_INDEX,
            index < self.cells.len(),
        ensures
            c == self.cells[index as int],
    {
        self.cells[index]
    }

    /// The cell `a`.
    pub fn get_cell(&self, a: Axial) -> (c: GameCell<Piece>)
        requires
            self.wf(),
            in_table(a),
            axial_index(a) != PASS_MOVE_INDEX,
        ensures
            c == self.cells[axial_index(a)],
    {
        self.get_cell_inner(a.to_index())
    }

    /// Puts a piece at table index `a`.
    pub fn add_cell_inner(&mut self, a: usize, stack: StackHeight, team: Team, has_lighthouse: bool)
        requires
            a < old(self).cells.len(),
        ensures
            final(self).cells@ == old(self).cells@.update(
                a as int,
                GameCell::Piece(Piece { height: stack, team, has_lighthouse }),
            ),
    {
        self.cells.set(a, GameCell::Piece(Piece { team, height: stack, has_lighthouse }));
    }

    /// Puts a piece at the cell `a`.
    pub fn add_cell(&mut self, a: Axial, stack: StackHeight, team: Team, has_lighthouse: bool)
        requires
            old(self).wf(),
            in_table(a),
        ensures
            final(self).cells@ == old(self).cells@.update(
                axial_index(a),
                GameCell::Piece(Piece { height: stack, team, has_lighthouse }),
            ),
    {
        let a = a.to_index();
        self.add_cell_inner(a, stack, team, has_lighthouse);
    }
}

/// A position: the contents of every cell.
#[derive(Debug, Default, Eq, PartialEq, Hash)]
pub struct GameState {
    pub factions: Tribe,
}

impl Clone for GameState {
    /// A copy of the position.
    fn clone(&self) -> (g: GameState)
        ensures
            g.factions.cells@ == self.factions.cells@,
    {
        GameState { factions: self.factions.clone() }
    }
}

impl GameState {
    /// The position with every cell empty.
    pub fn new() -> (g: GameState)
        ensures
            g.factions.wf(),
            forall|i: int| 0 <= i < TABLE_SIZE ==> #[trigger] g.factions.cells[i] == GameCell::<Piece>::Empty,
    {
        GameState { factions: Tribe::new() }
    }
}

/// The piece of a cell that holds one.
pub open spec fn piece_of(c: GameCell<Piece>) -> Piece {
    match c {
        GameCell::Piece(p) => p,
        GameCell::Empty => Piece { height: StackHeight::Stack0, team: Team::Neutral, has_lighthouse: false },
    }
}

/// The border distance of the walk from table index `i` in direction `d`.
pub open spec fn walk_len(i: int, d: HDir, radius: int) -> int {
    hex_dis(i / 16 - 8, i % 16 - 8, d, radius)
}

/// The first step `k' >= k`, below `n`, of the walk from `i` in direction `d`
/// that reaches a piece; `n` when there is none.
pub open spec fn first_piece(cells: Seq<GameCell<Piece>>, i: int, d: HDir, k: int, n: int) -> int
    decreases n - k,
{
    if k >= n {
        n
    } else if cells[ray_index(i, d, k)] is Piece {
        k
    } else {
        first_piece(cells, i, d, k + 1, n)
    }
}

/// What is seen from table index `i` looking in direction `d` on a board of
/// radius `radius`: the number of steps to the first piece and that piece,
/// or the border distance and nothing.
pub open spec fn end_point(cells: Seq<GameCell<Piece>>, i: int, d: HDir, radius: int) -> (i8, Option<EndPoint>) {
    let n = walk_len(i, d, radius);
    let e = first_piece(cells, i, d, 1, n);
    if e < n {
        (e as i8, Some(EndPoint { index: ray_index(i, d, e) as usize, piece: piece_of(cells[ray_index(i, d, e)]) }))
    } else {
        (n as i8, None)
    }
}

/// The team of the first piece seen from `i` in direction `d`, or `Neutral`.
pub open spec fn seen_team(cells: Seq<GameCell<Piece>>, i: int, d: HDir, radius: int) -> Team {
    match end_point(cells, i, d, radius).1 {
        Some(e) => e.piece.team,
        None => Team::Neutral,
    }
}

/// The first piece found from `k` on lies between `k` and `n`, and every
/// step before it is empty.
pub proof fn lemma_first_piece(cells: Seq<GameCell<Piece>>, i: int, d: HDir, k: int, n: int)
    requires
        k <= n,
    ensures
        k <= first_piece(cells, i, d, k, n) <= n,
        first_piece(cells, i, d, k, n) < n ==> cells[ray_index(i, d, first_piece(cells, i, d, k, n))] is Piece,
        forall|j: int| k <= j < first_piece(cells, i, d, k, n) ==> !(cells[#[trigger] ray_index(i, d, j)] is Piece),
    decreases n - k,
{
    if k < n && !(cells[ray_index(i, d, k)] is Piece) {
        lemma_first_piece(cells, i, d, k + 1, n);
    }
}

/// The table indices of the cells met walking from `start` in direction `dd`,
/// short of the border, with the border distance.
pub fn ray(start: Axial, dd: HDir, world: &MyWorld) -> (res: (i8, Vec<isize>))
    requires
        world.wf(),
        crate::hex::in_hexagon(start.q as int, start.r as int, world.radius - 1),
    ensures
        land_cell(axial_index(start), world.radius - 1),
        res.0 == walk_len(axial_index(start), dd, world.radius as int),
        res.0 >= 1,
        res.1.len() == res.0 - 1,
        forall|k: int| 0 <= k < res.1.len() ==> #[trigger] res.1[k] == ray_index(axial_index(start), dd, k + 1)
            && land_cell(res.1[k] as int, world.radius - 1),
{
    let ghost i = axial_index(start);
    proof {
        lemma_axial_roundtrip(start);
        lemma_ray_leaves_land(i, dd, world.radius as int);
    }
    let stride = determine_stride(dd) as isize;
    let dis = dis_to_hex_of_hexagon(start, dd, world.radius as i8);
    let mut index2 = start.to_index() as isize;
    let mut v: Vec<isize> = Vec::new();
    let mut d: i8 = 1;
    while d < dis
        invariant
            world.wf(),
            land_cell(i, world.radius - 1),
            1 <= d <= dis,
            dis == walk_len(i, dd, world.radius as int),
            stride == crate::board::stride(dd),
            index2 == ray_index(i, dd, d - 1),
            v.len() == d - 1,
            forall|k: int| 0 <= k < v.len() ==> #[trigger] v[k] == ray_index(i, dd, k + 1)
                && land_cell(v[k] as int, world.radius - 1),
        decreases dis - d,
    {
        proof {
            lemma_ray_in_land(i, dd, world.radius as int, d as int);
            lemma_ray_in_land(i, dd, world.radius as int, d - 1);
            assert((d - 1) * stride + stride == d * stride) by (nonlinear_arith);
        }
        index2 = index2 + stride;
        v.push(index2);
        d = d + 1;
    }
    (dis, v)
}

/// A land cell of a board of radius at most eight is never the pass index.
pub proof fn lemma_land_not_pass(i: int, radius: int)
    requires
        radius <= 8,
        land_cell(i, radius - 1),
    ensures
        i != PASS_MOVE_INDEX,
{
}

impl Tribe {
    /// Whether the cell at table index `i` is empty.
    pub fn cell_is_empty(&self, i: usize) -> (b: bool)
        requires
            i < self.cells.len(),
        ensures
            b == !(self.cells[i as int] is Piece),
    {
        match self.cells[i] {
            GameCell::Piece(_) => false,
            GameCell::Empty => true,
        }
    }

    /// What is seen from the land cell `index` in each of the six directions:
    /// the first piece and its distance, or the border distance.
    pub fn iter_end_points(&self, world: &MyWorld, index: usize) -> (v: Vec<(i8, Option<EndPoint>)>)
        requires
            self.wf(),
            world.wf(),
            land_cell(index as int, world.radius - 1),
        ensures
            v.len() == 6,
            forall|d: int| 0 <= d < 6 ==> #[trigger] v[d] == end_point(self.cells@, index as int, dir_of_index(d), world.radius as int),
    {
        let dirs = HDir::all();
        let start = Axial::from_index(index);
        proof {
            crate::hex::lemma_index_roundtrip(index as int);
            assert(start == index_axial(index as int));
        }
        let mut v: Vec<(i8, Option<EndPoint>)> = Vec::new();
        let mut di: usize = 0;
        while di < 6
            invariant
                self.wf(),
                world.wf(),
                land_cell(index as int, world.radius - 1),
                axial_index(start) == index,
                crate::hex::in_hexagon(start.q as int, start.r as int, world.radius - 1),
                dirs@ == crate::hex::all_dirs(),
                v.len() == di,
                di <= 6,
                forall|d: int| 0 <= d < di ==> #[trigger] v[d] == end_point(self.cells@, index as int, dir_of_index(d), world.radius as int),
            decreases 6 - di,
        {
            let dd = dirs[di];
            assert(dd == dir_of_index(di as int));
            let (dis, it) = ray(start, dd, world);
            let ghost n = dis as int;
            let mut k: usize = 0;
            while k < it.len() && self.cell_is_empty(it[k] as usize)
                invariant
                    self.wf(),
                    world.wf(),
                    n == walk_len(index as int, dd, world.radius as int),
                    it.len() == n - 1,
                    forall|j: int| 0 <= j < it.len() ==> #[trigger] it[j] == ray_index(index as int, dd, j + 1)
                        && land_cell(it[j] as int, world.radius - 1),
                    k <= it.len(),
                    first_piece(self.cells@, index as int, dd, 1, n) == first_piece(self.cells@, index as int, dd, k + 1, n),
                decreases it.len() - k,
            {
                proof {
                    assert(first_piece(self.cells@, index as int, dd, k + 1, n) == first_piece(self.cells@, index as int, dd, k + 2, n));
                }
                k = k + 1;
            }
            let (dist, found) = if k < it.len() {
                let index2 = it[k] as usize;
                proof {
                    lemma_land_not_pass(index2 as int, world.radius as int);
                    assert(first_piece(self.cells@, index as int, dd, k + 1, n) == k + 1);
                }
                let piece = match self.get_cell_inner(index2) {
                    GameCell::Piece(p) => p,
                    GameCell::Empty => Piece { height: StackHeight::Stack0, team: Team::Neutral, has_lighthouse: false },
                };
                ((k + 1) as i8, Some(EndPoint { index: index2, piece }))
            } else {
                proof {
                    assert(first_piece(self.cells@, index as int, dd, n, n) == n);
                }
                (dis, None)
            };
            v.push((dist, found));
            di = di + 1;
        }
        v
    }
}


/// `1` when the first piece seen from `i` in the direction at position `d`
/// belongs to `t`, else `0`.
pub open spec fn sees(cells: Seq<GameCell<Piece>>, i: int, d: int, radius: int, t: Team) -> int {
    if seen_team(cells, i, dir_of_index(d), radius) == t {
        1
    } else {
        0
    }
}

/// The number of directions from `i` in which the first piece seen belongs to `t`.
pub open spec fn seen_count(cells: Seq<GameCell<Piece>>, i: int, radius: int, t: Team) -> int {
    sees(cells, i, 0, radius, t) + sees(cells, i, 1, radius, t) + sees(cells, i, 2, radius, t) + sees(
        cells,
        i,
        3,
        radius,
        t,
    ) + sees(cells, i, 4, radius, t) + sees(cells, i, 5, radius, t)
}

/// Who a land cell counts for at the end: its stack's team, or for an empty
/// cell the player whose pieces see it more often (`Neutral` on a tie).
pub open spec fn cell_owner(cells: Seq<GameCell<Piece>>, i: int, radius: int) -> Team {
    match cells[i] {
        GameCell::Piece(p) => p.team,
        GameCell::Empty => {
            let w = seen_count(cells, i, radius, Team::White);
            let b = seen_count(cells, i, radius, Team::Black);
            if w > b {
                Team::White
            } else if w < b {
                Team::Black
            } else {
                Team::Neutral
            }
        },
    }
}

/// The number of cells listed in `lv` that count for `t`.
pub open spec fn owned_count(cells: Seq<GameCell<Piece>>, lv: Seq<usize>, radius: int, t: Team) -> int
    decreases lv.len(),
{
    if lv.len() == 0 {
        0
    } else {
        owned_count(cells, lv.drop_last(), radius, t) + if cell_owner(cells, lv.last() as int, radius) == t {
            1int
        } else {
            0int
        }
    }
}

impl GameState {
    /// The score: for each player the land cells that count for it, and the
    /// land cells that count for neither.
    #[verifier::rlimit(40)]
    pub fn score(&self, world: &MyWorld) -> (sd: ScoreData)
        requires
            self.factions.wf(),
            world.wf(),
        ensures
            sd.white == owned_count(self.factions.cells@, world.land_as_vec@, world.radius as int, Team::White),
            sd.black == owned_count(self.factions.cells@, world.land_as_vec@, world.radius as int, Team::Black),
            sd.neutral == owned_count(self.factions.cells@, world.land_as_vec@, world.radius as int, Team::Neutral),
    {
        let ghost cells = self.factions.cells@;
        let ghost radius = world.radius as int;
        let ones = world.get_game_cells().iter_ones();
        proof {
            assert(enumerates(ones@, crate::board::is_land(radius))) by {
                assert forall|i: int| 0 <= i < TABLE_SIZE && #[trigger] crate::board::is_land(radius)(i) implies ones@.contains(i as usize) by {
                    assert(world.land@[i]);
                }
                assert forall|k: int| 0 <= k < ones.len() implies #[trigger] ones@[k] < TABLE_SIZE && crate::board::is_land(radius)(ones@[k] as int) by {
                    assert(world.land@[ones[k] as int]);
                }
            }
            crate::board::lemma_enumeration_unique(ones@, world.land_as_vec@, crate::board::is_land(radius));
            crate::ai::lemma_enumeration_len(ones@, crate::board::is_land(radius));
        }
        let mut neutral: usize = 0;
        let mut white_score: usize = 0;
        let mut black_score: usize = 0;
        let mut k: usize = 0;
        while k < ones.len()
            invariant
                self.factions.wf(),
                world.wf(),
                cells == self.factions.cells@,
                radius == world.radius as int,
                enumerates(ones@, crate::board::is_land(radius)),
                ones.len() <= TABLE_SIZE,
                k <= ones.len(),
                white_score == owned_count(cells, ones@.subrange(0, k as int), radius, Team::White),
                black_score == owned_count(cells, ones@.subrange(0, k as int), radius, Team::Black),
                neutral == owned_count(cells, ones@.subrange(0, k as int), radius, Team::Neutral),
                white_score + black_score + neutral == k,
            decreases ones.len() - k,
        {
            let index = ones[k];
            proof {
                assert(crate::board::is_land(radius)(index as int));
                lemma_land_not_pass(index as int, radius);
            }
            let ends = self.factions.iter_end_points(world, index);
            let mut num_white: i64 = 0;
            let mut num_black: i64 = 0;
            let mut d: usize = 0;
            while d < 6
                invariant
                    ends.len() == 6,
                    forall|dd: int| 0 <= dd < 6 ==> #[trigger] ends[dd] == end_point(cells, index as int, dir_of_index(dd), radius),
                    d <= 6,
                    num_white == sees_upto(cells, index as int, radius, Team::White, d as int),
                    num_black == sees_upto(cells, index as int, radius, Team::Black, d as int),
                    0 <= num_white <= d,
                    0 <= num_black <= d,
                decreases 6 - d,
            {
                if let Some(e) = ends[d].1 {
                    match e.piece.team {
                        Team::White => {
                            num_white = num_white + 1;
                        },
                        Team::Black => {
                            num_black = num_black + 1;
                        },
                        Team::Neutral => {},
                    }
                }
                d = d + 1;
            }
            proof {
                reveal_with_fuel(sees_upto, 7);
                assert(num_white == seen_count(cells, index as int, radius, Team::White));
                assert(num_black == seen_count(cells, index as int, radius, Team::Black));
            }
            match self.factions.get_cell_inner(index) {
                GameCell::Piece(p) => {
                    match p.team {
                        Team::White => {
                            white_score = white_score + 1;
                        },
                        Team::Black => {
                            black_score = black_score + 1;
                        },
                        Team::Neutral => {
                            neutral = neutral + 1;
                        },
                    }
                },
                GameCell::Empty => {
                    let ownership = num_white - num_black;
                    if ownership > 0 {
                        white_score = white_score + 1;
                    } else if ownership < 0 {
                        black_score = black_score + 1;
                    } else {
                        neutral = neutral + 1;
                    }
                },
            }
            proof {
                assert(ones@.subrange(0, k + 1).drop_last() =~= ones@.subrange(0, k as int));
                assert(ones@.subrange(0, k + 1).last() == index);
            }
            k = k + 1;
        }
        proof {
            assert(ones@.subrange(0, ones.len() as int) =~= ones@);
        }
        ScoreData { white: white_score, black: black_score, neutral }
    }
}

/// `sees` summed over the directions at positions below `d`.
pub open spec fn sees_upto(cells: Seq<GameCell<Piece>>, i: int, radius: int, t: Team, d: int) -> int
    decreases d,
{
    if d <= 0 {
        0
    } else {
        sees_upto(cells, i, radius, t, d - 1) + sees(cells, i, d - 1, radius, t)
    }
}


/// Whether a recorded move is a pass.
pub open spec fn history_pass(m: HistoryOneMove) -> bool {
    match m.r {
        GenericMove::Normal(o) => o.0.coord.0 == PASS_MOVE_INDEX,
        GenericMove::Lighthouse(_) => false,
    }
}

/// The outcome once the last two moves of `h` were both passes: the player
/// with more cells counting for it wins, or it is a tie; `None` before that.
pub open spec fn game_over_outcome(cells: Seq<GameCell<Piece>>, lv: Seq<usize>, radius: int, h: Seq<HistoryOneMove>) -> Option<GameOver> {
    let white = owned_count(cells, lv, radius, Team::White);
    let black = owned_count(cells, lv, radius, Team::Black);
    if h.len() >= 2 && history_pass(h[h.len() - 2]) && history_pass(h[h.len() - 1]) {
        if white > black {
            Some(GameOver::WhiteWon)
        } else if white < black {
            Some(GameOver::BlackWon)
        } else {
            Some(GameOver::Tie)
        }
    } else {
        None
    }
}

/// Every listed cell counts for exactly one of white, black or nobody.
pub proof fn lemma_owned_partition(cells: Seq<GameCell<Piece>>, lv: Seq<usize>, radius: int)
    ensures
        owned_count(cells, lv, radius, Team::White) + owned_count(cells, lv, radius, Team::Black) + owned_count(
            cells,
            lv,
            radius,
            Team::Neutral,
        ) == lv.len(),
    decreases lv.len(),
{
    if lv.len() > 0 {
        lemma_owned_partition(cells, lv.drop_last(), radius);
    }
}

/// A stack counts for its own team, and an empty cell for the player whose
/// pieces see it more often.
pub proof fn lemma_cell_owner(cells: Seq<GameCell<Piece>>, i: int, radius: int)
    ensures
        cells[i] matches GameCell::Piece(p) ==> cell_owner(cells, i, radius) == p.team,
        cells[i] is Empty && seen_count(cells, i, radius, Team::White) > seen_count(cells, i, radius, Team::Black)
            ==> cell_owner(cells, i, radius) == Team::White,
        cells[i] is Empty && seen_count(cells, i, radius, Team::White) < seen_count(cells, i, radius, Team::Black)
            ==> cell_owner(cells, i, radius) == Team::Black,
        cells[i] is Empty && seen_count(cells, i, radius, Team::White) == seen_count(cells, i, radius, Team::Black)
            ==> cell_owner(cells, i, radius) == Team::Neutral,
{
}

/// Once the last two moves were both passes the game is over: white wins
/// exactly when more cells count for white than for black, black wins
/// exactly when fewer do, and equally many is a tie. Before that the game
/// goes on.
pub proof fn lemma_outcome_by_counts(cells: Seq<GameCell<Piece>>, lv: Seq<usize>, radius: int, h: Seq<HistoryOneMove>)
    ensures
        ({
            let white = owned_count(cells, lv, radius, Team::White);
            let black = owned_count(cells, lv, radius, Team::Black);
            let over = h.len() >= 2 && history_pass(h[h.len() - 2]) && history_pass(h[h.len() - 1]);
            let r = game_over_outcome(cells, lv, radius, h);
            &&& !over ==> r.is_none()
            &&& over ==> (r == Some(GameOver::Tie) <==> white == black)
            &&& over ==> (r == Some(GameOver::WhiteWon) <==> white > black)
            &&& over ==> (r == Some(GameOver::BlackWon) <==> white < black)
        }),
{
}

impl GameState {
    /// The game is over once the last two moves were both passes; then the
    /// player with more cells counting for it wins, or it is a tie.
    pub fn game_is_over(&self, world: &MyWorld, _team: Team, history: &MoveHistory<HistoryOneMove>) -> (r: Option<GameOver>)
        requires
            self.factions.wf(),
            world.wf(),
        ensures
            r == game_over_outcome(self.factions.cells@, world.land_as_vec@, world.radius as int, history.inner@),
    {
        let score_data = self.score(world);
        let n = history.inner.len();
        if n < 2 {
            return None;
        }
        let a = &history.inner[n - 2];
        let b = &history.inner[n - 1];
        if a.is_pass() && b.is_pass() {
            if score_data.white > score_data.black {
                return Some(GameOver::WhiteWon);
            } else if score_data.white < score_data.black {
                return Some(GameOver::BlackWon);
            } else {
                return Some(GameOver::Tie);
            }
        }
        None
    }
}


/// One step past the land from a land cell is still inside the board table,
/// and is never the pass index.
pub proof fn lemma_exit_cell(i: int, d: HDir, radius: int)
    requires
        radius <= 8,
        land_cell(i, radius - 1),
    ensures
        walk_len(i, d, radius) >= 1,
        ray_index(i, d, walk_len(i, d, radius)) == ray_index(i, d, walk_len(i, d, radius) - 1) + stride(d),
        0 <= ray_index(i, d, walk_len(i, d, radius)) < TABLE_SIZE,
        ray_index(i, d, walk_len(i, d, radius)) != PASS_MOVE_INDEX,
{
    let n = walk_len(i, d, radius);
    lemma_ray_leaves_land(i, d, radius);
    lemma_ray_in_land(i, d, radius, n - 1);
    let l = ray_index(i, d, n - 1);
    assert(n * stride(d) == (n - 1) * stride(d) + stride(d)) by (nonlinear_arith);
    assert(crate::hex::in_hexagon(l / 16 - 8, l % 16 - 8, radius - 1));
    assert(l == (l / 16) * 16 + l % 16) by {
        vstd::arithmetic::div_mod::lemma_fundamental_div_mod(l, 16);
    }
}

impl Tribe {
    /// The cells seen from the land cell `index`: in each direction the cells
    /// up to and including the first piece met, or up to and including the
    /// first cell past the land.
    #[verifier::rlimit(40)]
    pub fn filter_los(&self, index: usize, world: &MyWorld) -> (s: SmallMesh)
        requires
            self.wf(),
            world.wf(),
            land_cell(index as int, world.radius - 1),
        ensures
            forall|j: int| 0 <= j < TABLE_SIZE ==> #[trigger] s@[j] == exists|d: int|
                0 <= d < 6 && #[trigger] crate::moves::on_walk(
                    index as int,
                    j,
                    dir_of_index(d),
                    first_piece(self.cells@, index as int, dir_of_index(d), 1, walk_len(index as int, dir_of_index(d), world.radius as int)),
                ),
    {
        let ghost cells = self.cells@;
        let ghost radius = world.radius as int;
        let ghost i = index as int;
        let mut s = SmallMesh::new();
        let start = Axial::from_index(index);
        proof {
            crate::hex::lemma_index_roundtrip(i);
            lemma_axial_roundtrip(start);
        }
        let mut di: usize = 0;
        while di < 6
            invariant
                self.wf(),
                world.wf(),
                cells == self.cells@,
                radius == world.radius as int,
                i == index,
                land_cell(i, radius - 1),
                start == index_axial(i),
                axial_index(start) == i,
                crate::hex::in_hexagon(start.q as int, start.r as int, radius - 1),
                di <= 6,
                forall|j: int| 0 <= j < TABLE_SIZE ==> #[trigger] s@[j] == exists|d: int|
                    0 <= d < di && #[trigger] crate::moves::on_walk(
                        i,
                        j,
                        dir_of_index(d),
                        first_piece(cells, i, dir_of_index(d), 1, walk_len(i, dir_of_index(d), radius)),
                    ),
            decreases 6 - di,
        {
            let dd = HDir::from_u8(di as u8);
            let st = crate::board::STRIDES[di] as isize;
            proof {
                lemma_exit_cell(i, dd, radius);
                lemma_ray_leaves_land(i, dd, radius);
                assert(st == stride(dd));
            }
            let dis = dis_to_hex_of_hexagon(start, dd, world.radius as i8);
            let ghost n = dis as int;
            let ghost e = first_piece(cells, i, dd, 1, n);
            proof {
                lemma_first_piece(cells, i, dd, 1, n);
            }
            let ghost before = s@;
            let mut index2 = index as isize;
            let mut k: i8 = 0;
            let mut stop = false;
            while k < dis && !stop
                invariant
                    self.wf(),
                    world.wf(),
                    cells == self.cells@,
                    radius == world.radius as int,
                    land_cell(i, radius - 1),
                    n == walk_len(i, dd, radius),
                    n >= 1,
                    dis == n,
                    st == stride(dd),
                    e == first_piece(cells, i, dd, 1, n),
                    1 <= e <= n,
                    e < n ==> cells[ray_index(i, dd, e)] is Piece,
                    forall|m: int| 1 <= m < e ==> !(cells[#[trigger] ray_index(i, dd, m)] is Piece),
                    0 <= ray_index(i, dd, n) < TABLE_SIZE,
                    ray_index(i, dd, n) != PASS_MOVE_INDEX,
                    0 <= k <= n,
                    index2 == ray_index(i, dd, k as int),
                    !stop ==> k < e || e == n,
                    stop ==> k == e,
                    forall|j: int| 0 <= j < TABLE_SIZE ==> #[trigger] s@[j] == (before[j] || crate::moves::on_walk(i, j, dd, k as int)),
                decreases n - k,
            {
                proof {
                    if k + 1 < n {
                        lemma_ray_in_land(i, dd, radius, k + 1);
                        lemma_land_not_pass(ray_index(i, dd, k + 1), radius);
                    }
                    assert(ray_index(i, dd, k + 1) == ray_index(i, dd, k as int) + stride(dd)) by (nonlinear_arith);
                    assert forall|j: int| 0 <= j < TABLE_SIZE implies crate::moves::on_walk(i, j, dd, k + 1) == (crate::moves::on_walk(i, j, dd, k as int) || j == ray_index(i, dd, k + 1)) by {
                        crate::ai::lemma_on_walk_step(i, j, dd, k as int);
                    }
                }
                index2 = index2 + st;
                let ix = index2 as usize;
                s.set_index(ix, true);
                match self.get_cell_inner(ix) {
                    GameCell::Piece(_) => {
                        stop = true;
                    },
                    GameCell::Empty => {},
                }
                k = k + 1;
            }
            proof {
                assert(k == e);
                assert forall|j: int| 0 <= j < TABLE_SIZE implies #[trigger] s@[j] == exists|d: int|
                    0 <= d < di + 1 && #[trigger] crate::moves::on_walk(
                        i,
                        j,
                        dir_of_index(d),
                        first_piece(cells, i, dir_of_index(d), 1, walk_len(i, dir_of_index(d), radius)),
                    ) by {
                    if exists|d: int|
                        0 <= d < di + 1 && #[trigger] crate::moves::on_walk(
                            i,
                            j,
                            dir_of_index(d),
                            first_piece(cells, i, dir_of_index(d), 1, walk_len(i, dir_of_index(d), radius)),
                        ) {
                        let d = choose|d: int|
                            0 <= d < di + 1 && #[trigger] crate::moves::on_walk(
                                i,
                                j,
                                dir_of_index(d),
                                first_piece(cells, i, dir_of_index(d), 1, walk_len(i, dir_of_index(d), radius)),
                            );
                        if d < di {
                            assert(before[j]);
                        }
                    }
                }
            }
            di = di + 1;
        }
        s
    }
}


/// How far a stack with a lighthouse sees.
pub const LIGHTHOUSE_RANGE: i8 = 2;

/// How far a stack without a lighthouse sees.
pub const NORMAL_RANGE: i8 = 1;

/// How far a stack sees: two cells with a lighthouse, one without.
pub open spec fn sight(p: Piece) -> int {
    if p.has_lighthouse {
        2
    } else {
        1
    }
}

/// The table index of the cell at offset `(dq, dr)` from table index `a`.
pub open spec fn offset_index(a: int, dq: int, dr: int) -> int {
    (a / 16 + dq) * 16 + a % 16 + dr
}

/// Whether a stack of `team` on land cell `a` sees the cell with table
/// index `j`.
pub open spec fn lights(cells: Seq<GameCell<Piece>>, radius: int, team: Team, a: int, j: int) -> bool {
    &&& land_cell(a, radius - 1)
    &&& cells[a] matches GameCell::Piece(p)
    &&& p.team == team
    &&& exists|dq: int, dr: int| crate::hex::in_hexagon(dq, dr, sight(p)) && #[trigger] offset_index(a, dq, dr) == j
}

/// Every cell that a stack of `team` on land sees lies inside the board table.
pub open spec fn sight_in_table(cells: Seq<GameCell<Piece>>, radius: int, team: Team) -> bool {
    forall|a: int, dq: int, dr: int|
        land_cell(a, radius - 1) && (cells[a] matches GameCell::Piece(p) && p.team == team && crate::hex::in_hexagon(dq, dr, sight(p)))
            ==> 0 <= #[trigger] offset_index(a, dq, dr) < TABLE_SIZE
}

/// How far a stack sees is given by the range constants: a lighthouse
/// sees two cells far, any other stack one.
pub proof fn lemma_sight_ranges(p: Piece)
    ensures
        sight(p) == if p.has_lighthouse { LIGHTHOUSE_RANGE as int } else { NORMAL_RANGE as int },
        LIGHTHOUSE_RANGE == 2,
        NORMAL_RANGE == 1,
{
}

/// Two offsets of at most two steps that land on the same table index are
/// the same offset.
proof fn lemma_offset_unique(a: int, dq: int, dr: int, dq2: int, dr2: int)
    requires
        crate::hex::in_hexagon(dq, dr, 2),
        crate::hex::in_hexagon(dq2, dr2, 2),
        offset_index(a, dq, dr) == offset_index(a, dq2, dr2),
    ensures
        dq == dq2 && dr == dr2,
{
    assert((dq - dq2) * 16 == dr2 - dr) by (nonlinear_arith)
        requires
            (a / 16 + dq) * 16 + a % 16 + dr == (a / 16 + dq2) * 16 + a % 16 + dr2,
    ;
    if dq != dq2 {
        assert(dq - dq2 >= 1 || dq - dq2 <= -1);
        assert((dq - dq2) * 16 >= 16 || (dq - dq2) * 16 <= -16) by (nonlinear_arith)
            requires
                dq - dq2 >= 1 || dq - dq2 <= -1,
        ;
    }
}

/// A stack of `team` with a lighthouse on land lights every land cell at
/// most two steps away; a stack without one lights every land cell one step
/// away, and nothing two steps away.
pub proof fn lemma_stack_lights(cells: Seq<GameCell<Piece>>, radius: int, team: Team, a: int, dq: int, dr: int)
    requires
        land_cell(a, radius - 1),
        cells[a] matches GameCell::Piece(p) && p.team == team,
        land_cell(offset_index(a, dq, dr), radius - 1),
    ensures
        ({
            let p = piece_of(cells[a]);
            let j = offset_index(a, dq, dr);
            &&& p.has_lighthouse && crate::hex::in_hexagon(dq, dr, 2) ==> !dark(cells, radius, team, j)
            &&& crate::hex::in_hexagon(dq, dr, 1) ==> !dark(cells, radius, team, j)
            &&& !p.has_lighthouse && crate::hex::in_hexagon(dq, dr, 2) && !crate::hex::in_hexagon(dq, dr, 1)
                ==> !lights(cells, radius, team, a, j)
        }),
{
    let p = piece_of(cells[a]);
    let j = offset_index(a, dq, dr);
    if (p.has_lighthouse && crate::hex::in_hexagon(dq, dr, 2)) || crate::hex::in_hexagon(dq, dr, 1) {
        assert(crate::hex::in_hexagon(dq, dr, sight(p)));
        assert(lights(cells, radius, team, a, j));
    }
    if !p.has_lighthouse && crate::hex::in_hexagon(dq, dr, 2) && !crate::hex::in_hexagon(dq, dr, 1) {
        if lights(cells, radius, team, a, j) {
            let (dq2, dr2) = choose|dq2: int, dr2: int| crate::hex::in_hexagon(dq2, dr2, sight(p)) && #[trigger] offset_index(a, dq2, dr2) == j;
            lemma_offset_unique(a, dq, dr, dq2, dr2);
        }
    }
}

/// The cells `team` does not see: land that none of its stacks sees.
pub open spec fn dark(cells: Seq<GameCell<Piece>>, radius: int, team: Team, j: int) -> bool {
    land_cell(j, radius - 1) && !exists|a: int| #[trigger] lights(cells, radius, team, a, j)
}

impl GameState {
    /// The land that `team_perspective` does not see: every land cell, less
    /// the cells within sight of its stacks.
    #[verifier::rlimit(60)]
    #[verifier::spinoff_prover]
    pub fn darkness(&self, world: &MyWorld, team_perspective: Team) -> (d: SmallMesh)
        requires
            self.factions.wf(),
            world.wf(),
            sight_in_table(self.factions.cells@, world.radius as int, team_perspective),
        ensures
            forall|j: int| 0 <= j < TABLE_SIZE ==> #[trigger] d@[j] == dark(self.factions.cells@, world.radius as int, team_perspective, j),
    {
        let ghost cells = self.factions.cells@;
        let ghost radius = world.radius as int;
        let mut darkness = world.land.clone();
        let ones = world.land.iter_ones();
        let mut k: usize = 0;
        while k < ones.len()
            invariant
                self.factions.wf(),
                world.wf(),
                cells == self.factions.cells@,
                radius == world.radius as int,
                sight_in_table(cells, radius, team_perspective),
                forall|kk: int| 0 <= kk < ones.len() ==> #[trigger] ones[kk] < TABLE_SIZE && world.land@[ones[kk] as int],
                forall|i: int| 0 <= i < TABLE_SIZE && #[trigger] world.land@[i] ==> ones@.contains(i as usize),
                k <= ones.len(),
                forall|j: int| 0 <= j < TABLE_SIZE ==> #[trigger] darkness@[j] == (world.land@[j] && !exists|kk: int|
                    0 <= kk < k && #[trigger] lights(cells, radius, team_perspective, ones[kk] as int, j)),
            decreases ones.len() - k,
        {
            let a = ones[k];
            let ghost before = darkness@;
            proof {
                assert(world.land@[a as int]);
                assert(land_cell(a as int, radius - 1));
                lemma_land_not_pass(a as int, radius);
                crate::hex::lemma_index_roundtrip(a as int);
            }
            match self.factions.get_cell_inner(a) {
                GameCell::Piece(p) => {
                    if p.team == team_perspective {
                        let r: i8 = if p.has_lighthouse {
                            2
                        } else {
                            1
                        };
                        let ax = Axial::from_index(a);
                        let cube = ax.to_cube();
                        let v = cube.range(r);
                        let mut m: usize = 0;
                        while m < v.len()
                            invariant
                                sight_in_table(cells, radius, team_perspective),
                                land_cell(a as int, radius - 1),
                                cells[a as int] == GameCell::Piece(p),
                                p.team == team_perspective,
                                r == sight(p),
                                cube.ax == ax,
                                ax.q == a / 16 - 8,
                                ax.r == a % 16 - 8,
                                cube.s == -ax.q - ax.r,
                                forall|kk: int| 0 <= kk < v.len() ==> {
                                    let dq = v[kk].ax.q - cube.ax.q;
                                    let dr = v[kk].ax.r - cube.ax.r;
                                    &&& crate::hex::in_hexagon(dq, dr, r as int)
                                    &&& #[trigger] v[kk] == crate::hex::offset_cube(cube, dq, dr)
                                },
                                m <= v.len(),
                                forall|j: int| 0 <= j < TABLE_SIZE ==> #[trigger] darkness@[j] == (before[j] && !exists|mm: int|
                                    0 <= mm < m && #[trigger] axial_index(v[mm].ax) == j),
                            decreases v.len() - m,
                        {
                            let c = v[m];
                            let ghost inner_before = darkness@;
                            proof {
                                let dq = c.ax.q - cube.ax.q;
                                let dr = c.ax.r - cube.ax.r;
                                assert(crate::hex::in_hexagon(dq, dr, sight(p)));
                                assert(0 <= offset_index(a as int, dq, dr) < TABLE_SIZE);
                                assert(axial_index(c.ax) == offset_index(a as int, dq, dr));
                            }
                            darkness.set_coord(c.ax, false);
                            proof {
                                assert forall|j: int| 0 <= j < TABLE_SIZE implies #[trigger] darkness@[j] == (before[j] && !exists|mm: int|
                                    0 <= mm < m + 1 && #[trigger] axial_index(v[mm].ax) == j) by {
                                    if exists|mm: int| 0 <= mm < m + 1 && #[trigger] axial_index(v[mm].ax) == j {
                                        let mm = choose|mm: int| 0 <= mm < m + 1 && #[trigger] axial_index(v[mm].ax) == j;
                                        if mm < m {
                                            assert(!inner_before[j]);
                                        }
                                    }
                                }
                            }
                            m = m + 1;
                        }
                        proof {
                            assert forall|j: int| 0 <= j < TABLE_SIZE implies (exists|mm: int|
                                0 <= mm < v.len() && #[trigger] axial_index(v[mm].ax) == j) == lights(cells, radius, team_perspective, a as int, j) by {
                                if exists|mm: int| 0 <= mm < v.len() && #[trigger] axial_index(v[mm].ax) == j {
                                    let mm = choose|mm: int| 0 <= mm < v.len() && #[trigger] axial_index(v[mm].ax) == j;
                                    let dq = v[mm].ax.q - cube.ax.q;
                                    let dr = v[mm].ax.r - cube.ax.r;
                                    assert(offset_index(a as int, dq, dr) == j);
                                }
                                if lights(cells, radius, team_perspective, a as int, j) {
                                    let (dq, dr) = choose|dq: int, dr: int| crate::hex::in_hexagon(dq, dr, sight(p)) && #[trigger] offset_index(a as int, dq, dr) == j;
                                    assert(crate::hex::in_hexagon(dq, dr, r as int) && crate::hex::lex_less(dq, dr, r as int + 1, 0));
                                    let mm = choose|mm: int| 0 <= mm < v.len() && #[trigger] v[mm] == crate::hex::offset_cube(cube, dq, dr);
                                    assert(axial_index(v[mm].ax) == j);
                                }
                            }
                            assert forall|j: int| 0 <= j < TABLE_SIZE implies #[trigger] darkness@[j] == (before[j] && !lights(cells, radius, team_perspective, a as int, j)) by {
                                assert((exists|mm: int| 0 <= mm < v.len() && #[trigger] axial_index(v[mm].ax) == j) == lights(cells, radius, team_perspective, a as int, j));
                            }
                        }
                    }
                },
                GameCell::Empty => {},
            }
            proof {
                assert forall|j: int| 0 <= j < TABLE_SIZE implies #[trigger] darkness@[j] == (before[j] && !lights(cells, radius, team_perspective, a as int, j)) by {
                    if !(cells[a as int] matches GameCell::Piece(p) && p.team == team_perspective) {
                        assert(!lights(cells, radius, team_perspective, a as int, j));
                    }
                }
                assert forall|j: int| 0 <= j < TABLE_SIZE implies #[trigger] darkness@[j] == (world.land@[j] && !exists|kk: int|
                    0 <= kk < k + 1 && #[trigger] lights(cells, radius, team_perspective, ones[kk] as int, j)) by {
                    if exists|kk: int| 0 <= kk < k + 1 && #[trigger] lights(cells, radius, team_perspective, ones[kk] as int, j) {
                        let kk = choose|kk: int| 0 <= kk < k + 1 && #[trigger] lights(cells, radius, team_perspective, ones[kk] as int, j);
                        if kk < k {
                            assert(!before[j]);
                        } else {
                            assert(lights(cells, radius, team_perspective, a as int, j));
                        }
                    } else {
                        assert(!lights(cells, radius, team_perspective, ones[k as int] as int, j));
                    }
                }
            }
            k = k + 1;
        }
        proof {
            assert forall|j: int| 0 <= j < TABLE_SIZE implies #[trigger] darkness@[j] == dark(cells, radius, team_perspective, j) by {
                if exists|a: int| #[trigger] lights(cells, radius, team_perspective, a, j) {
                    let a = choose|a: int| #[trigger] lights(cells, radius, team_perspective, a, j);
                    assert(world.land@[a]);
                    let kk = choose|kk: int| 0 <= kk < ones.len() && ones@[kk] == a as usize;
                    assert(lights(cells, radius, team_perspective, ones[kk] as int, j));
                }
                if exists|kk: int| 0 <= kk < ones.len() && #[trigger] lights(cells, radius, team_perspective, ones[kk] as int, j) {
                    let kk = choose|kk: int| 0 <= kk < ones.len() && #[trigger] lights(cells, radius, team_perspective, ones[kk] as int, j);
                    assert(lights(cells, radius, team_perspective, ones[kk] as int, j));
                }
            }
        }
        darkness
    }

    /// The position as `team_perspective` may know it: every cell it does
    /// not see holds a neutral stack of six with a lighthouse.
    pub fn convert_to_playable(&self, world: &MyWorld, team_perspective: Team) -> (g: GameState)
        requires
            self.factions.wf(),
            world.wf(),
            sight_in_table(self.factions.cells@, world.radius as int, team_perspective),
        ensures
            g.factions.wf(),
            forall|j: int| 0 <= j < TABLE_SIZE ==> #[trigger] g.factions.cells[j] == if dark(self.factions.cells@, world.radius as int, team_perspective, j) {
                GameCell::Piece(Piece { height: StackHeight::Stack6, team: Team::Neutral, has_lighthouse: true })
            } else {
                self.factions.cells[j]
            },
    {
        let d = self.darkness(world, team_perspective);
        let mut gg = self.clone();
        let v = d.iter_mesh(Axial::zero());
        let ghost ones = choose|ones: Seq<usize>|
            {
                &&& forall|k: int| 0 <= k < ones.len() ==> #[trigger] ones[k] < TABLE_SIZE && d@[ones[k] as int]
                &&& forall|k1: int, k2: int| 0 <= k1 < k2 < ones.len() ==> #[trigger] ones[k1] < #[trigger] ones[k2]
                &&& forall|i: int| 0 <= i < TABLE_SIZE && #[trigger] d@[i] ==> ones.contains(i as usize)
                &&& v.len() == ones.len()
                &&& forall|k: int|
                    0 <= k < v.len() ==> #[trigger] v[k] == (Axial {
                        q: (0 + index_axial(ones[k] as int).q) as i8,
                        r: (0 + index_axial(ones[k] as int).r) as i8,
                    })
            };
        let ghost cells = self.factions.cells@;
        let ghost dk = Piece { height: StackHeight::Stack6, team: Team::Neutral, has_lighthouse: true };
        let mut k: usize = 0;
        while k < v.len()
            invariant
                gg.factions.wf(),
                dk == (Piece { height: StackHeight::Stack6, team: Team::Neutral, has_lighthouse: true }),
                cells == self.factions.cells@,
                v.len() == ones.len(),
                forall|kk: int| 0 <= kk < ones.len() ==> #[trigger] ones[kk] < TABLE_SIZE && d@[ones[kk] as int],
                forall|k1: int, k2: int| 0 <= k1 < k2 < ones.len() ==> #[trigger] ones[k1] < #[trigger] ones[k2],
                forall|kk: int|
                    0 <= kk < v.len() ==> #[trigger] v[kk] == (Axial {
                        q: (0 + index_axial(ones[kk] as int).q) as i8,
                        r: (0 + index_axial(ones[kk] as int).r) as i8,
                    }),
                k <= v.len(),
                forall|j: int| 0 <= j < TABLE_SIZE ==> #[trigger] gg.factions.cells[j] == if exists|kk: int| 0 <= kk < k && ones[kk] == j {
                    GameCell::Piece(dk)
                } else {
                    cells[j]
                },
            decreases v.len() - k,
        {
            let a = v[k];
            let ghost before = gg.factions.cells@;
            proof {
                crate::hex::lemma_index_roundtrip(ones[k as int] as int);
                assert(axial_index(a) == ones[k as int]);
            }
            gg.factions.remove(a);
            gg.factions.add_cell(a, StackHeight::Stack6, Team::Neutral, true);
            proof {
                assert forall|j: int| 0 <= j < TABLE_SIZE implies #[trigger] gg.factions.cells[j] == if exists|kk: int| 0 <= kk < k + 1 && ones[kk] == j {
                    GameCell::Piece(dk)
                } else {
                    cells[j]
                } by {
                    if exists|kk: int| 0 <= kk < k + 1 && ones[kk] == j {
                        let kk = choose|kk: int| 0 <= kk < k + 1 && ones[kk] == j;
                        if kk < k {
                            assert(before[j] == GameCell::Piece(dk));
                            if j == ones[k as int] {
                                assert(gg.factions.cells[j] == GameCell::Piece(dk));
                            } else {
                                assert(gg.factions.cells[j] == before[j]);
                            }
                        } else {
                            assert(j == axial_index(a));
                            assert(gg.factions.cells[j] == GameCell::Piece(dk));
                        }
                    } else {
                        assert(j != ones[k as int]);
                        assert(!exists|kk: int| 0 <= kk < k && ones[kk] == j);
                    }
                }
            }
            k = k + 1;
        }
        proof {
            assert forall|j: int| 0 <= j < TABLE_SIZE implies #[trigger] gg.factions.cells[j] == if dark(cells, world.radius as int, team_perspective, j) {
                GameCell::Piece(dk)
            } else {
                cells[j]
            } by {
                if d@[j] {
                    let kk = choose|kk: int| 0 <= kk < ones.len() && ones[kk] == j as usize;
                    assert(exists|kk: int| 0 <= kk < v.len() && ones[kk] == j);
                } else {
                    if exists|kk: int| 0 <= kk < v.len() && ones[kk] == j {
                        let kk = choose|kk: int| 0 <= kk < v.len() && ones[kk] == j;
                        assert(d@[ones[kk] as int]);
                    }
                }
            }
        }
        gg
    }
}


/// A game in progress: what each player last saw, the position, and the
/// moves played.
#[derive(Clone)]
pub struct GameStateTotal {
    pub last_seen: crate::history::LastSeenObjectsAll,
    pub tactical: GameState,
    pub history: MoveHistory<HistoryOneMove>,
}




/// The terrain layers of a map and the starting cells of each player.
pub struct GameMap {
    pub ice: SmallMesh,
    pub water: SmallMesh,
    pub forests: SmallMesh,
    pub white: SmallMesh,
    pub black: SmallMesh,
}


/// Whether every cell that a stack of `team` on land sees lies inside the
/// board table (so that `darkness` can mark it).
pub fn sight_fits(game: &GameState, world: &MyWorld, team: Team) -> (b: bool)
    requires
        game.factions.wf(),
        world.wf(),
    ensures
        b == sight_in_table(game.factions.cells@, world.radius as int, team),
{
    let ghost cells = game.factions.cells@;
    let ghost radius = world.radius as int;
    let lv = &world.land_as_vec;
    let mut k: usize = 0;
    while k < lv.len()
        invariant
            game.factions.wf(),
            world.wf(),
            cells == game.factions.cells@,
            radius == world.radius as int,
            lv == &world.land_as_vec,
            k <= lv.len(),
            forall|kk: int, dq: int, dr: int|
                0 <= kk < k && (cells[lv[kk] as int] matches GameCell::Piece(p) && p.team == team && crate::hex::in_hexagon(dq, dr, sight(p)))
                    ==> 0 <= #[trigger] offset_index(lv[kk] as int, dq, dr) < TABLE_SIZE,
        decreases lv.len() - k,
    {
        let a = lv[k];
        proof {
            assert(crate::board::is_land(radius)(a as int));
            lemma_land_not_pass(a as int, radius);
        }
        match game.factions.get_cell_inner(a) {
            GameCell::Piece(p) => {
                if p.team == team {
                    let r: i64 = if p.has_lighthouse { 2 } else { 1 };
                    let q0: i64 = (a / 16) as i64;
                    let r0: i64 = (a % 16) as i64;
                    let mut dq: i64 = -r;
                    while dq <= r
                        invariant
                            -r <= dq <= r + 1,
                            r == sight(p),
                            land_cell(a as int, radius - 1),
                            cells[a as int] == GameCell::Piece(p),
                            p.team == team,
                            cells == game.factions.cells@,
                            radius == world.radius as int,
                            q0 == a / 16,
                            r0 == a % 16,
                            0 <= q0 < 32,
                            0 <= r0 < 16,
                            forall|dq2: int, dr: int|
                                -r <= dq2 < dq && crate::hex::in_hexagon(dq2, dr, r as int)
                                    ==> 0 <= #[trigger] offset_index(a as int, dq2, dr) < TABLE_SIZE,
                        decreases r + 1 - dq,
                    {
                        let mut dr: i64 = -r;
                        while dr <= r
                            invariant
                                -r <= dq <= r,
                                -r <= dr <= r + 1,
                                r == sight(p),
                                land_cell(a as int, radius - 1),
                                cells[a as int] == GameCell::Piece(p),
                                p.team == team,
                                cells == game.factions.cells@,
                                radius == world.radius as int,
                                q0 == a / 16,
                                r0 == a % 16,
                                0 <= q0 < 32,
                                0 <= r0 < 16,
                                forall|dq2: int, dr2: int|
                                    -r <= dq2 < dq && crate::hex::in_hexagon(dq2, dr2, r as int)
                                        ==> 0 <= #[trigger] offset_index(a as int, dq2, dr2) < TABLE_SIZE,
                                forall|dr2: int|
                                    -r <= dr2 < dr && crate::hex::in_hexagon(dq as int, dr2, r as int)
                                        ==> 0 <= #[trigger] offset_index(a as int, dq as int, dr2) < TABLE_SIZE,
                            decreases r + 1 - dr,
                        {
                            if -r <= dq + dr && dq + dr <= r {
                                let idx = (q0 + dq) * 16 + r0 + dr;
                                if idx < 0 || idx >= TABLE_SIZE as i64 {
                                    proof {
                                        assert(offset_index(a as int, dq as int, dr as int) == idx);
                                        assert(crate::hex::in_hexagon(dq as int, dr as int, sight(p)));
                                    }
                                    return false;
                                }
                            }
                            dr = dr + 1;
                        }
                        dq = dq + 1;
                    }
                }
            },
            GameCell::Empty => {},
        }
        k = k + 1;
    }
    proof {
        assert forall|a: int, dq: int, dr: int|
            land_cell(a, radius - 1) && (cells[a] matches GameCell::Piece(p) && p.team == team && crate::hex::in_hexagon(dq, dr, sight(p)))
                implies 0 <= #[trigger] offset_index(a, dq, dr) < TABLE_SIZE by {
            assert(crate::board::is_land(radius)(a));
            let kk = choose|kk: int| 0 <= kk < lv.len() && lv@[kk] == a as usize;
            assert(lv[kk] == a);
        }
    }
    true
}

} // verus!
