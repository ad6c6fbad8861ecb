//! Zobrist hashing of positions: one random word per (cell, stack, team),
//! combined with exclusive-or, updated move by move.
use vstd::prelude::*;
use rand_chacha::rand_core::RngCore;
use rand_chacha::rand_core::SeedableRng;
use crate::board::{is_land, MyWorld};
use crate::hex::PASS_MOVE_INDEX;
use crate::mesh::TABLE_SIZE;
use crate::move_build::{NormalMove, NormalMoveEffect};
use crate::unit::{height_num, team_value, GameCell, GameState, Piece, StackHeight, Team};

verus! {

/// The number of stack heights.
pub const NUM_STACK_HEIGHTS: usize = 7;

/// The words per cell: one for each height of each of the three teams.
pub const WORDS_PER_CELL: usize = 21;

/// The slot of a stack of `height` of `team` among a cell's words.
pub open spec fn slot(height: StackHeight, team: Team) -> int {
    height_num(height) + NUM_STACK_HEIGHTS * (team_value(team) + 1)
}

/// The slot of a stack of `height` of `team` among a cell's words: black
/// stacks first, then neutral, then white.
pub fn get_index(height: StackHeight, team: Team) -> (k: usize)
    ensures
        k == slot(height, team),
        k < WORDS_PER_CELL,
{
    let h = height.to_num();
    let k = (h as usize) + NUM_STACK_HEIGHTS * ((team.value() + 1) as usize);
    k
}

/// The words that a `ChaCha12Rng` seeded with `seed_from_u64(seed)` yields
/// from `next_u64`, the first `count` of them.
pub uninterp spec fn chacha12_words(seed: u64, count: nat) -> Seq<u64>;

/// The first `count` words of `ChaCha12Rng::seed_from_u64(seed)`, drawn with
/// `RngCore::next_u64`.
#[verifier::external_body]
fn draw_words(seed: u64, count: usize) -> (v: Vec<u64>)
    ensures
        v@ == chacha12_words(seed, count as nat),
        v.len() == count,
{
    let mut rng = rand_chacha::ChaCha12Rng::seed_from_u64(seed);
    (0..count).map(|_| rng.next_u64()).collect()
}

/// The random words: per cell of the table one word per slot, one for a
/// pass and one for white being to move.
#[derive(Clone, Debug)]
pub struct Zobrist {
    pub inner: Vec<[u64; 21]>,
    pub white_to_move: u64,
    pub pass: u64,
}

/// The seed of the word stream.
pub const ZOBRIST_SEED: u64 = 0x42;

impl Zobrist {
    /// One word per cell of the table.
    pub open spec fn wf(&self) -> bool {
        self.inner.len() == TABLE_SIZE
    }

    /// The words drawn from the seeded stream: the cells' words in table and
    /// slot order, then the pass word, then the white-to-move word.
    pub fn new() -> (z: Zobrist)
        ensures
            z.wf(),
            ({
                let w = chacha12_words(ZOBRIST_SEED, (TABLE_SIZE * WORDS_PER_CELL + 2) as nat);
                &&& forall|i: int, j: int|
                    0 <= i < TABLE_SIZE && 0 <= j < WORDS_PER_CELL ==> #[trigger] z.inner[i][j] == w[i * 21 + j]
                &&& z.pass == w[TABLE_SIZE * WORDS_PER_CELL]
                &&& z.white_to_move == w[TABLE_SIZE * WORDS_PER_CELL + 1]
            }),
    {
        let total = TABLE_SIZE * WORDS_PER_CELL + 2;
        let w = draw_words(ZOBRIST_SEED, total);
        let mut inner: Vec<[u64; 21]> = Vec::new();
        let mut i: usize = 0;
        while i < TABLE_SIZE
            invariant
                i <= TABLE_SIZE,
                w.len() == total,
                total == TABLE_SIZE * WORDS_PER_CELL + 2,
                inner.len() == i,
                forall|ii: int, j: int|
                    0 <= ii < i && 0 <= j < WORDS_PER_CELL ==> #[trigger] inner[ii][j] == w[ii * 21 + j],
            decreases TABLE_SIZE - i,
        {
            let mut row: [u64; 21] = [0; 21];
            let mut j: usize = 0;
            while j < WORDS_PER_CELL
                invariant
                    i < TABLE_SIZE,
                    j <= WORDS_PER_CELL,
                    w.len() == total,
                    total == TABLE_SIZE * WORDS_PER_CELL + 2,
                    forall|jj: int| 0 <= jj < j ==> #[trigger] row[jj] == w[i * 21 + jj],
                decreases WORDS_PER_CELL - j,
            {
                assert(i * 21 + j < 512 * 21) by (nonlinear_arith)
                    requires
                        i < 512,
                        j < 21,
                ;
                row[j] = w[i * 21 + j];
                j = j + 1;
            }
            inner.push(row);
            i = i + 1;
        }
        Zobrist { inner, pass: w[TABLE_SIZE * WORDS_PER_CELL], white_to_move: w[TABLE_SIZE * WORDS_PER_CELL + 1] }
    }
}

/// A position's hash.
#[derive(Hash, Copy, Clone, PartialEq, Eq, Debug, Structural)]
pub struct Key {
    pub key: u64,
}

/// The key after `team` plays `m` with effect `effect`.
pub open spec fn key_after_update(k: u64, base: Zobrist, m: NormalMove, team: Team, effect: NormalMoveEffect) -> u64 {
    let k1 = if team == Team::White { k ^ base.white_to_move } else { k };
    if m.coord.0 == PASS_MOVE_INDEX {
        k1 ^ base.pass
    } else {
        let k2 = match effect.destroyed_unit {
            Some(a) => k1 ^ base.inner[m.coord.0 as int][slot(a.height, a.team)],
            None => k1,
        };
        k2 ^ base.inner[m.coord.0 as int][slot(m.stack, team)]
    }
}

/// The key after taking back `team`'s move `m` with effect `effect`.
pub open spec fn key_after_undo(k: u64, base: Zobrist, m: NormalMove, team: Team, effect: NormalMoveEffect) -> u64 {
    let k1 = if m.coord.0 == PASS_MOVE_INDEX {
        k ^ base.pass
    } else {
        let k2 = k ^ base.inner[m.coord.0 as int][slot(m.stack, team)];
        match effect.destroyed_unit {
            Some(a) => k2 ^ base.inner[m.coord.0 as int][slot(a.height, a.team)],
            None => k2,
        }
    };
    if team == Team::White { k1 ^ base.white_to_move } else { k1 }
}

/// The word of a cell's contents; an empty cell contributes nothing.
pub open spec fn cell_word(base: Zobrist, cells: Seq<GameCell<Piece>>, i: int) -> u64 {
    match cells[i] {
        GameCell::Piece(p) => base.inner[i][slot(p.height, p.team)],
        GameCell::Empty => 0,
    }
}

/// The exclusive-or of the words of the cells listed in `lv`.
pub open spec fn cells_xor(base: Zobrist, cells: Seq<GameCell<Piece>>, lv: Seq<usize>) -> u64
    decreases lv.len(),
{
    if lv.len() == 0 {
        0
    } else {
        cells_xor(base, cells, lv.drop_last()) ^ cell_word(base, cells, lv.last() as int)
    }
}

impl Key {
    /// The hash of `game` with `team` to move: the words of all land cells,
    /// and the white-to-move word when white is to move.
    pub fn from_scratch(base: &Zobrist, game: &GameState, world: &MyWorld, team: Team) -> (k: Key)
        requires
            base.wf(),
            world.wf(),
            game.factions.wf(),
        ensures
            k.key == if team == Team::White {
                cells_xor(*base, game.factions.cells@, world.land_as_vec@) ^ base.white_to_move
            } else {
                cells_xor(*base, game.factions.cells@, world.land_as_vec@)
            },
    {
        let mut k = Key { key: 0 };
        let lv = &world.land_as_vec;
        let mut j: usize = 0;
        while j < lv.len()
            invariant
                base.wf(),
                world.wf(),
                game.factions.wf(),
                lv == &world.land_as_vec,
                j <= lv.len(),
                k.key == cells_xor(*base, game.factions.cells@, lv@.take(j as int)),
            decreases lv.len() - j,
        {
            let index = lv[j];
            proof {
                assert(is_land(world.radius as int)(index as int));
                crate::unit::lemma_land_not_pass(index as int, world.radius as int);
                assert(lv@.take(j + 1).drop_last() =~= lv@.take(j as int));
            }
            match game.factions.get_cell_inner(index) {
                GameCell::Piece(p) => {
                    k.key = k.key ^ base.inner[index][get_index(p.height, p.team)];
                },
                GameCell::Empty => {
                    let x = k.key;
                    assert(x ^ 0 == x) by (bit_vector);
                },
            }
            j = j + 1;
        }
        assert(lv@.take(lv.len() as int) =~= lv@);
        if let Team::White = team {
            k.key = k.key ^ base.white_to_move;
        }
        k
    }

    /// Updates the hash for `team` playing `m` with effect `effect`.
    pub fn move_update(&mut self, base: &Zobrist, m: NormalMove, team: Team, effect: &NormalMoveEffect)
        requires
            base.wf(),
            m.coord.0 < TABLE_SIZE,
        ensures
            final(self).key == key_after_update(old(self).key, *base, m, team, *effect),
    {
        if let Team::White = team {
            self.key = self.key ^ base.white_to_move;
        }
        if m.is_pass() {
            self.key = self.key ^ base.pass;
        } else {
            if let Some(a) = effect.destroyed_unit {
                self.key = self.key ^ base.inner[m.coord.0][get_index(a.height, a.team)];
            }
            self.key = self.key ^ base.inner[m.coord.0][get_index(m.stack, team)];
        }
    }

    /// Updates the hash for taking back `team`'s move `m` with effect `effect`.
    pub fn move_undo(&mut self, base: &Zobrist, m: NormalMove, team: Team, effect: &NormalMoveEffect)
        requires
            base.wf(),
            m.coord.0 < TABLE_SIZE,
        ensures
            final(self).key == key_after_undo(old(self).key, *base, m, team, *effect),
    {
        if m.is_pass() {
            self.key = self.key ^ base.pass;
        } else {
            self.key = self.key ^ base.inner[m.coord.0][get_index(m.stack, team)];
            if let Some(a) = effect.destroyed_unit {
                self.key = self.key ^ base.inner[m.coord.0][get_index(a.height, a.team)];
            }
        }
        if let Team::White = team {
            self.key = self.key ^ base.white_to_move;
        }
    }
}

/// Updating a key for a move and then for taking it back gives the key back.
pub proof fn lemma_key_update_undo(k: u64, base: Zobrist, m: NormalMove, team: Team, effect: NormalMoveEffect)
    ensures
        key_after_undo(key_after_update(k, base, m, team, effect), base, m, team, effect) == k,
{
    let w = base.white_to_move;
    let p = base.pass;
    let a = if m.coord.0 != PASS_MOVE_INDEX {
        match effect.destroyed_unit {
            Some(du) => base.inner[m.coord.0 as int][slot(du.height, du.team)],
            None => 0u64,
        }
    } else {
        0u64
    };
    let b = if m.coord.0 != PASS_MOVE_INDEX { base.inner[m.coord.0 as int][slot(m.stack, team)] } else { 0u64 };
    assert(((k ^ w) ^ p) ^ p ^ w == k) by (bit_vector);
    assert((k ^ p) ^ p == k) by (bit_vector);
    assert(((k ^ w) ^ a ^ b) ^ b ^ a ^ w == k) by (bit_vector);
    assert((k ^ a ^ b) ^ b ^ a == k) by (bit_vector);
    assert(((k ^ w) ^ b) ^ b ^ w == k) by (bit_vector);
    assert((k ^ b) ^ b == k) by (bit_vector);
}

} // verus!
