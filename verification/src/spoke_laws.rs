//! Why incremental spoke updates are right: after a piece is placed,
//! `process_move_better` leaves spokes that describe the new position, and
//! `undo_move` gives back exactly the spokes of the old position.
use vstd::prelude::*;
use crate::board::{land_cell, lemma_ray_in_land, ray_index, stride};
use crate::hex::{dir_index, dir_of_index, steps, HDir};
use crate::move_build::{destroyed_of, NormalMoveEffect};
use crate::moves::{on_walk, opp, reach, spoke_after, undo_team, SpokeCell, SpokeInfo, SPOKE_CELLS};
use crate::unit::{end_point, first_piece, lemma_first_piece, piece_of, seen_count, seen_team, walk_len, GameCell, GameState, Piece, Team};

verus! {

/// The direction opposite to `d`.
pub open spec fn rev(d: HDir) -> HDir {
    dir_of_index(opp(dir_index(d)))
}

/// Opposite directions have opposite strides.
pub proof fn lemma_rev_stride(d: HDir)
    ensures
        stride(rev(d)) == -stride(d),
        rev(rev(d)) == d,
        dir_index(rev(d)) == opp(dir_index(d)),
{
}

/// Walking `k` steps from a land cell changes the border distances ahead and
/// behind by `k`.
pub proof fn lemma_walk_shift(b: int, d: HDir, radius: int, k: int)
    requires
        radius <= 8,
        land_cell(b, radius - 1),
        0 <= k < walk_len(b, d, radius),
    ensures
        land_cell(ray_index(b, d, k), radius - 1),
        walk_len(ray_index(b, d, k), d, radius) == walk_len(b, d, radius) - k,
        walk_len(ray_index(b, d, k), rev(d), radius) == walk_len(b, rev(d), radius) + k,
{
    lemma_ray_in_land(b, d, radius, k);
}

/// Going `k` steps and then `m` back is going `k - m` steps.
pub proof fn lemma_ray_back(b: int, d: HDir, k: int, m: int)
    ensures
        ray_index(ray_index(b, d, k), rev(d), m) == ray_index(b, d, k - m),
{
    lemma_rev_stride(d);
    assert(k * stride(d) + m * (-stride(d)) == (k - m) * stride(d)) by (nonlinear_arith);
}

/// A piece at step `k` after empty steps `k0 .. k` is the first one found from `k0`.
pub proof fn lemma_first_piece_at(cells: Seq<GameCell<Piece>>, i: int, d: HDir, k0: int, k: int, n: int)
    requires
        k0 <= k < n,
        forall|m: int| k0 <= m < k ==> !(cells[#[trigger] ray_index(i, d, m)] is Piece),
        cells[ray_index(i, d, k)] is Piece,
    ensures
        first_piece(cells, i, d, k0, n) == k,
    decreases k - k0,
{
    if k0 < k {
        lemma_first_piece_at(cells, i, d, k0 + 1, k, n);
    }
}

/// With every step from `k0` on empty, no piece is found.
pub proof fn lemma_first_piece_none(cells: Seq<GameCell<Piece>>, i: int, d: HDir, k0: int, n: int)
    requires
        k0 <= n,
        forall|m: int| k0 <= m < n ==> !(cells[#[trigger] ray_index(i, d, m)] is Piece),
    ensures
        first_piece(cells, i, d, k0, n) == n,
    decreases n - k0,
{
    if k0 < n {
        lemma_first_piece_none(cells, i, d, k0 + 1, n);
    }
}

/// Two positions that agree on the steps up to the first piece of the first
/// find the same first piece.
pub proof fn lemma_first_piece_agree(c1: Seq<GameCell<Piece>>, c2: Seq<GameCell<Piece>>, i: int, d: HDir, n: int)
    requires
        1 <= n,
        forall|m: int| 1 <= m < n && m <= first_piece(c1, i, d, 1, n) ==> c1[#[trigger] ray_index(i, d, m)] == c2[ray_index(i, d, m)],
    ensures
        first_piece(c2, i, d, 1, n) == first_piece(c1, i, d, 1, n),
{
    lemma_first_piece(c1, i, d, 1, n);
    let e = first_piece(c1, i, d, 1, n);
    assert forall|m: int| 1 <= m < e implies !(c2[#[trigger] ray_index(i, d, m)] is Piece) by {
        assert(c1[ray_index(i, d, m)] == c2[ray_index(i, d, m)]);
    }
    if e < n {
        assert(c1[ray_index(i, d, e)] == c2[ray_index(i, d, e)]);
        lemma_first_piece_at(c2, i, d, 1, e, n);
    } else {
        lemma_first_piece_none(c2, i, d, 1, n);
    }
}

/// Seen from a land cell `j` within the reach of `i` in the direction
/// opposite to `dir`, the piece placed at `i` is the first one seen in `dir`.
pub proof fn lemma_seen_on_walk(
    after: Seq<GameCell<Piece>>,
    i: int,
    j: int,
    dir: int,
    radius: int,
    p: Piece,
)
    requires
        radius <= 8,
        land_cell(i, radius - 1),
        0 <= dir < 6,
        0 <= i < after.len(),
        after[i] == GameCell::Piece(p),
        on_walk(i, j, dir_of_index(opp(dir)), reach(after, i, dir_of_index(opp(dir)), radius)),
    ensures
        seen_team(after, j, dir_of_index(dir), radius) == p.team,
{
    let dd = dir_of_index(dir);
    let d = dir_of_index(opp(dir));
    assert(rev(d) == dd);
    lemma_rev_stride(d);
    let ni = walk_len(i, d, radius);
    crate::board::lemma_ray_leaves_land(i, d, radius);
    let r = reach(after, i, d, radius);
    lemma_first_piece(after, i, d, 1, ni);
    let k = choose|k: int| 1 <= k <= r && #[trigger] ray_index(i, d, k) == j;
    lemma_walk_shift(i, d, radius, k);
    let nj = walk_len(j, dd, radius);
    assert(nj == walk_len(i, dd, radius) + k);
    crate::board::lemma_ray_leaves_land(i, dd, radius);
    lemma_ray_back(i, d, k, k);
    assert(ray_index(j, dd, k) == i);
    assert forall|m: int| 1 <= m < k implies !(after[#[trigger] ray_index(j, dd, m)] is Piece) by {
        lemma_ray_back(i, d, k, m);
        assert(ray_index(j, dd, m) == ray_index(i, d, k - m));
    }
    lemma_first_piece_at(after, j, dd, 1, k, nj);
    assert(piece_of(after[ray_index(j, dd, k)]) == p);
}

/// If the placed piece at `i` were met from `j` before `j`'s first piece,
/// `j` would lie within the reach of `i`.
pub proof fn lemma_met_means_on_walk(
    before: Seq<GameCell<Piece>>,
    after: Seq<GameCell<Piece>>,
    i: int,
    j: int,
    dir: int,
    radius: int,
    p: Piece,
    m: int,
)
    requires
        radius <= 8,
        land_cell(i, radius - 1),
        land_cell(j, radius - 1),
        0 <= dir < 6,
        before.len() == crate::mesh::TABLE_SIZE,
        after == before.update(i, GameCell::Piece(p)),
        1 <= m < walk_len(j, dir_of_index(dir), radius),
        m <= first_piece(before, j, dir_of_index(dir), 1, walk_len(j, dir_of_index(dir), radius)),
        ray_index(j, dir_of_index(dir), m) == i,
    ensures
        on_walk(i, j, dir_of_index(opp(dir)), reach(after, i, dir_of_index(opp(dir)), radius)),
{
    let dd = dir_of_index(dir);
    let d = dir_of_index(opp(dir));
    assert(rev(dd) == d);
    lemma_rev_stride(dd);
    let nj = walk_len(j, dd, radius);
    lemma_first_piece(before, j, dd, 1, nj);
    lemma_walk_shift(j, dd, radius, m);
    lemma_ray_back(j, dd, m, m);
    assert(ray_index(i, d, m) == j);
    let ni = walk_len(i, d, radius);
    assert(ni == walk_len(j, d, radius) + m);
    crate::board::lemma_ray_leaves_land(j, d, radius);
    assert forall|mm: int| 1 <= mm < m implies !(after[#[trigger] ray_index(i, d, mm)] is Piece) by {
        lemma_ray_back(j, dd, m, mm);
        assert(ray_index(i, d, mm) == ray_index(j, dd, m - mm));
        if ray_index(j, dd, m - mm) == i {
            crate::moves::lemma_ray_injective(j, dd, m - mm, m);
        }
        lemma_walk_shift(j, dd, radius, m - mm);
        assert(!(before[ray_index(j, dd, m - mm)] is Piece));
    }
    lemma_first_piece(after, i, d, 1, ni);
    let fa = first_piece(after, i, d, 1, ni);
    if fa < m {
        assert(!(after[ray_index(i, d, fa)] is Piece));
    }
    let r = reach(after, i, d, radius);
    assert(m <= r);
    assert(1 <= m <= r && ray_index(i, d, m) == j);
}

/// Seen from a land cell `j` outside the reach of `i` in the direction
/// opposite to `dir`, placing a piece at `i` changes nothing in direction `dir`.
#[verifier::rlimit(40)]
pub proof fn lemma_seen_off_walk(
    before: Seq<GameCell<Piece>>,
    after: Seq<GameCell<Piece>>,
    i: int,
    j: int,
    dir: int,
    radius: int,
    p: Piece,
)
    requires
        radius <= 8,
        land_cell(i, radius - 1),
        land_cell(j, radius - 1),
        j != i,
        0 <= dir < 6,
        before.len() == crate::mesh::TABLE_SIZE,
        after == before.update(i, GameCell::Piece(p)),
        !on_walk(i, j, dir_of_index(opp(dir)), reach(after, i, dir_of_index(opp(dir)), radius)),
    ensures
        seen_team(after, j, dir_of_index(dir), radius) == seen_team(before, j, dir_of_index(dir), radius),
{
    let dd = dir_of_index(dir);
    let nj = walk_len(j, dd, radius);
    crate::board::lemma_ray_leaves_land(j, dd, radius);
    lemma_first_piece(before, j, dd, 1, nj);
    let e = first_piece(before, j, dd, 1, nj);
    assert forall|m: int| 1 <= m < nj && m <= e implies before[#[trigger] ray_index(j, dd, m)] == after[ray_index(j, dd, m)] by {
        lemma_ray_in_land(j, dd, radius, m);
        if ray_index(j, dd, m) == i {
            lemma_met_means_on_walk(before, after, i, j, dir, radius, p, m);
        }
    }
    lemma_first_piece_agree(before, after, j, dd, nj);
    if e < nj {
        assert(before[ray_index(j, dd, e)] == after[ray_index(j, dd, e)]);
    }
}

/// What a cell sees does not depend on its own contents.
pub proof fn lemma_seen_self(c1: Seq<GameCell<Piece>>, c2: Seq<GameCell<Piece>>, i: int, d: HDir, radius: int, p: GameCell<Piece>)
    requires
        radius <= 8,
        land_cell(i, radius - 1),
        c1.len() == crate::mesh::TABLE_SIZE,
        c2 == c1.update(i, p),
    ensures
        first_piece(c2, i, d, 1, walk_len(i, d, radius)) == first_piece(c1, i, d, 1, walk_len(i, d, radius)),
        seen_team(c2, i, d, radius) == seen_team(c1, i, d, radius),
        reach(c2, i, d, radius) == reach(c1, i, d, radius),
{
    let n = walk_len(i, d, radius);
    crate::board::lemma_ray_leaves_land(i, d, radius);
    assert forall|m: int| 1 <= m < n && m <= first_piece(c1, i, d, 1, n) implies c1[#[trigger] ray_index(i, d, m)] == c2[ray_index(i, d, m)] by {
        lemma_ray_in_land(i, d, radius, m);
        if ray_index(i, d, m) == i {
            crate::moves::lemma_ray_injective(i, d, m, 0);
        }
    }
    lemma_first_piece_agree(c1, c2, i, d, n);
    lemma_first_piece(c1, i, d, 1, n);
    let e = first_piece(c1, i, d, 1, n);
    if e < n {
        lemma_ray_in_land(i, d, radius, e);
        if ray_index(i, d, e) == i {
            crate::moves::lemma_ray_injective(i, d, e, 0);
        }
    }
}

/// Empty steps `a .. b` may be skipped when looking for the first piece.
pub proof fn lemma_first_piece_skip(cells: Seq<GameCell<Piece>>, j: int, d: HDir, a: int, b: int, n: int)
    requires
        a <= b <= n,
        forall|m: int| a <= m < b ==> !(cells[#[trigger] ray_index(j, d, m)] is Piece),
    ensures
        first_piece(cells, j, d, a, n) == first_piece(cells, j, d, b, n),
    decreases b - a,
{
    if a < b {
        lemma_first_piece_skip(cells, j, d, a + 1, b, n);
    }
}

/// A walk from `j` through `i = j + k steps` finds, after `i`, what the walk
/// from `i` finds, `k` steps further on.
pub proof fn lemma_first_piece_shift(cells: Seq<GameCell<Piece>>, j: int, i: int, d: HDir, k: int, m0: int, ni: int)
    requires
        ray_index(j, d, k) == i,
        m0 <= ni,
    ensures
        first_piece(cells, j, d, k + m0, ni + k) == k + first_piece(cells, i, d, m0, ni),
    decreases ni - m0,
{
    assert(ray_index(j, d, k + m0) == ray_index(i, d, m0)) by {
        assert((k + m0) * stride(d) == k * stride(d) + m0 * stride(d)) by (nonlinear_arith);
    }
    if m0 < ni {
        lemma_first_piece_shift(cells, j, i, d, k, m0 + 1, ni);
    }
}

/// After a piece is placed at land cell `i` (replacing `before[i]`), the spoke
/// entries computed by `process_move_better` describe the new position for
/// every land cell and direction, when the old ones described the old position.
pub proof fn lemma_spoke_after_describes(
    old_cell: SpokeCell,
    before: Seq<GameCell<Piece>>,
    after: Seq<GameCell<Piece>>,
    i: int,
    j: int,
    dir: int,
    radius: int,
    p: Piece,
)
    requires
        radius <= 8,
        land_cell(i, radius - 1),
        land_cell(j, radius - 1),
        0 <= dir < 6,
        before.len() == crate::mesh::TABLE_SIZE,
        after == before.update(i, GameCell::Piece(p)),
        old_cell.raw[dir] == seen_team(before, j, dir_of_index(dir), radius),
    ensures
        spoke_after(old_cell, after, i, radius, p.team, 6, 0, j, dir) == seen_team(after, j, dir_of_index(dir), radius),
{
    if j != i {
        if on_walk(i, j, dir_of_index(opp(dir)), reach(after, i, dir_of_index(opp(dir)), radius)) {
            lemma_seen_on_walk(after, i, j, dir, radius, p);
        } else {
            lemma_seen_off_walk(before, after, i, j, dir, radius, p);
        }
    }
}

/// Taking a move back with `undo_move` right after `process_move_better`
/// gives back every spoke entry of a table that described the position
/// before the move.
#[verifier::rlimit(40)]
pub proof fn lemma_undo_restores_entry(
    old_cell: SpokeCell,
    before: Seq<GameCell<Piece>>,
    after: Seq<GameCell<Piece>>,
    i: int,
    j: int,
    dir: int,
    radius: int,
    p: Piece,
    effect: NormalMoveEffect,
)
    requires
        radius <= 8,
        land_cell(i, radius - 1),
        0 <= j < SPOKE_CELLS,
        0 <= dir < 6,
        before.len() == crate::mesh::TABLE_SIZE,
        after == before.update(i, GameCell::Piece(p)),
        effect.destroyed_unit == destroyed_of(before[i], p.team),
        land_cell(j, radius - 1) ==> old_cell.raw[dir] == seen_team(before, j, dir_of_index(dir), radius),
    ensures
        (if j != i && on_walk(i, j, dir_of_index(opp(dir)), reach(after, i, dir_of_index(opp(dir)), radius)) {
            undo_team(effect, after, i, dir, radius)
        } else {
            spoke_after(old_cell, after, i, radius, p.team, 6, 0, j, dir)
        }) == old_cell.raw[dir],
{
    let dd = dir_of_index(dir);
    let d = dir_of_index(opp(dir));
    assert(rev(d) == dd);
    lemma_rev_stride(d);
    lemma_seen_self(before, after, i, dd, radius, GameCell::Piece(p));
    lemma_seen_self(before, after, i, d, radius, GameCell::Piece(p));
    if j == i {
    } else if on_walk(i, j, d, reach(after, i, d, radius)) {
        let r = reach(after, i, d, radius);
        let ni = walk_len(i, d, radius);
        crate::board::lemma_ray_leaves_land(i, d, radius);
        lemma_first_piece(after, i, d, 1, ni);
        let k = choose|k: int| 1 <= k <= r && #[trigger] ray_index(i, d, k) == j;
        lemma_walk_shift(i, d, radius, k);
        assert(land_cell(j, radius - 1));
        match before[i] {
            GameCell::Piece(q) => {
                lemma_seen_on_walk(before, i, j, dir, radius, q);
            },
            GameCell::Empty => {
                // The walk from `j` passes the now empty `i` and continues as the walk from `i`.
                let nj = walk_len(j, dd, radius);
                let nii = walk_len(i, dd, radius);
                assert(nj == nii + k);
                lemma_ray_back(i, d, k, k);
                assert(ray_index(j, dd, k) == i);
                assert forall|m: int| 1 <= m < k + 1 implies !(before[#[trigger] ray_index(j, dd, m)] is Piece) by {
                    lemma_ray_back(i, d, k, m);
                    assert(ray_index(j, dd, m) == ray_index(i, d, k - m));
                    if m < k {
                        lemma_ray_in_land(i, d, radius, k - m);
                        if ray_index(i, d, k - m) == i {
                            crate::moves::lemma_ray_injective(i, d, k - m, 0);
                        }
                        assert(!(after[ray_index(i, d, k - m)] is Piece));
                    }
                }
                crate::board::lemma_ray_leaves_land(i, dd, radius);
                lemma_first_piece_skip(before, j, dd, 1, k + 1, nj);
                lemma_first_piece_shift(before, j, i, dd, k, 1, nii);
                let fi = first_piece(before, i, dd, 1, nii);
                lemma_first_piece(before, i, dd, 1, nii);
                if fi < nii {
                    assert(ray_index(j, dd, k + fi) == ray_index(i, dd, fi)) by {
                        assert((k + fi) * stride(dd) == k * stride(dd) + fi * stride(dd)) by (nonlinear_arith);
                    }
                }
            },
        }
    }
}

/// Spoke tables with the same entries in every cell and direction.
pub open spec fn same_spokes(a: Seq<SpokeCell>, b: Seq<SpokeCell>) -> bool {
    &&& a.len() == b.len()
    &&& forall|j: int, dir: int| 0 <= j < a.len() && 0 <= dir < 6 ==> #[trigger] a[j].raw[dir] == b[j].raw[dir]
    &&& forall|j: int| 0 <= j < a.len() ==> #[trigger] a[j].num_attack[0] == b[j].num_attack[0] && a[j].num_attack[1] == b[j].num_attack[1]
}

/// Spoke tables with the same entries are the same table.
pub proof fn lemma_same_spokes_equal(a: Seq<SpokeCell>, b: Seq<SpokeCell>)
    requires
        same_spokes(a, b),
    ensures
        a == b,
{
    assert forall|j: int| 0 <= j < a.len() implies a[j] == b[j] by {
        assert forall|d: int| 0 <= d < 6 implies a[j].raw[d] == b[j].raw[d] by {
            assert(a[j].raw[d] == b[j].raw[d]);
        }
        assert(a[j].raw =~= b[j].raw);
        assert(a[j].num_attack[0] == b[j].num_attack[0]);
        assert(a[j].num_attack =~= b[j].num_attack);
    }
    assert(a =~= b);
}

/// Well-formed spoke cells with the same directions have the same counts.
pub proof fn lemma_counts_from_raw(a: SpokeCell, b: SpokeCell)
    requires
        a.wf(),
        b.wf(),
        forall|dir: int| 0 <= dir < 6 ==> #[trigger] a.raw[dir] == b.raw[dir],
    ensures
        a.num_attack[0] == b.num_attack[0],
        a.num_attack[1] == b.num_attack[1],
{
    assert(a.raw@ =~= b.raw@);
}

/// After a piece is placed on a land cell, the spokes that
/// `process_move_better` leaves describe the new position, when the spokes
/// it started from described the old one.
pub proof fn lemma_process_describes(
    old_s: SpokeInfo,
    new_s: SpokeInfo,
    before: GameState,
    after: GameState,
    i: int,
    radius: int,
    p: Piece,
)
    requires
        radius <= 8,
        land_cell(i, radius - 1),
        before.factions.wf(),
        old_s.describes(&before, radius),
        after.factions.cells@ == before.factions.cells@.update(i, GameCell::Piece(p)),
        new_s.wf(),
        forall|j: int, dir: int|
            0 <= j < SPOKE_CELLS && 0 <= dir < 6 ==> #[trigger] new_s.data[j].raw[dir] == spoke_after(
                old_s.data[j],
                after.factions.cells@,
                i,
                radius,
                p.team,
                6,
                0,
                j,
                dir,
            ),
    ensures
        new_s.describes(&after, radius),
{
    assert forall|j: int, dir: int| land_cell(j, radius - 1) && 0 <= dir < 6 implies #[trigger] new_s.data[j].raw[dir] == seen_team(
        after.factions.cells@,
        j,
        dir_of_index(dir),
        radius,
    ) by {
        assert(old_s.data[j].raw[dir] == seen_team(before.factions.cells@, j, dir_of_index(dir), radius));
        lemma_spoke_after_describes(old_s.data[j], before.factions.cells@, after.factions.cells@, i, j, dir, radius, p);
    }
}

/// `undo_move` right after `process_move_better` gives back exactly the
/// spokes of the position before the move, when those spokes described it.
pub proof fn lemma_undo_restores(
    old_s: SpokeInfo,
    mid: SpokeInfo,
    fin: SpokeInfo,
    before: GameState,
    after: GameState,
    i: int,
    radius: int,
    p: Piece,
    effect: NormalMoveEffect,
)
    requires
        radius <= 8,
        land_cell(i, radius - 1),
        before.factions.wf(),
        old_s.describes(&before, radius),
        after.factions.cells@ == before.factions.cells@.update(i, GameCell::Piece(p)),
        effect.destroyed_unit == destroyed_of(before.factions.cells[i], p.team),
        forall|j: int, dir: int|
            0 <= j < SPOKE_CELLS && 0 <= dir < 6 ==> #[trigger] mid.data[j].raw[dir] == spoke_after(
                old_s.data[j],
                after.factions.cells@,
                i,
                radius,
                p.team,
                6,
                0,
                j,
                dir,
            ),
        fin.wf(),
        forall|j: int, dir: int|
            0 <= j < SPOKE_CELLS && 0 <= dir < 6 ==> #[trigger] fin.data[j].raw[dir] == if j != i
                && on_walk(i, j, dir_of_index(opp(dir)), reach(after.factions.cells@, i, dir_of_index(opp(dir)), radius)) {
                undo_team(effect, after.factions.cells@, i, dir, radius)
            } else {
                mid.data[j].raw[dir]
            },
    ensures
        same_spokes(fin.data@, old_s.data@),
{
    assert forall|j: int, dir: int| 0 <= j < fin.data.len() && 0 <= dir < 6 implies #[trigger] fin.data@[j].raw[dir] == old_s.data@[j].raw[dir] by {
        if land_cell(j, radius - 1) {
            assert(old_s.data[j].raw[dir] == seen_team(before.factions.cells@, j, dir_of_index(dir), radius));
        }
        lemma_undo_restores_entry(old_s.data[j], before.factions.cells@, after.factions.cells@, i, j, dir, radius, p, effect);
    }
    assert forall|j: int| 0 <= j < fin.data.len() implies #[trigger] fin.data@[j].num_attack[0] == old_s.data@[j].num_attack[0]
        && fin.data@[j].num_attack[1] == old_s.data@[j].num_attack[1] by {
        assert(fin.data[j].wf());
        assert(old_s.data[j].wf());
        assert forall|dir: int| 0 <= dir < 6 implies #[trigger] fin.data[j].raw[dir] == old_s.data[j].raw[dir] by {
            assert(fin.data@[j].raw[dir] == old_s.data@[j].raw[dir]);
        }
        lemma_counts_from_raw(fin.data[j], old_s.data[j]);
    }
}


/// Two cells hold stacks of the same height and team, or are both empty;
/// lighthouses aside.
pub open spec fn same_stack(x: GameCell<Piece>, y: GameCell<Piece>) -> bool {
    match x {
        GameCell::Piece(p) => y matches GameCell::Piece(q) && q.height == p.height && q.team == p.team,
        GameCell::Empty => y is Empty,
    }
}

/// Two positions with the same stacks everywhere, lighthouses aside.
pub open spec fn same_stacks(a: Seq<GameCell<Piece>>, b: Seq<GameCell<Piece>>) -> bool {
    &&& a.len() == b.len()
    &&& forall|i: int| 0 <= i < a.len() ==> same_stack(#[trigger] a[i], b[i])
}

/// Positions with the same stacks meet their first piece at the same step.
proof fn lemma_first_piece_same_stacks(
    a: Seq<GameCell<Piece>>,
    b: Seq<GameCell<Piece>>,
    i: int,
    d: HDir,
    radius: int,
    k: int,
)
    requires
        radius <= 8,
        land_cell(i, radius - 1),
        a.len() == crate::mesh::TABLE_SIZE,
        same_stacks(a, b),
        0 <= k,
    ensures
        first_piece(a, i, d, k, walk_len(i, d, radius)) == first_piece(b, i, d, k, walk_len(i, d, radius)),
    decreases walk_len(i, d, radius) - k,
{
    let n = walk_len(i, d, radius);
    if k < n {
        lemma_ray_in_land(i, d, radius, k);
        assert(same_stack(a[ray_index(i, d, k)], b[ray_index(i, d, k)]));
        lemma_first_piece_same_stacks(a, b, i, d, radius, k + 1);
    }
}

/// What is seen from a land cell depends only on the stacks, not on the
/// lighthouses: positions with the same stacks have the same reach, the
/// same team seen, and end points that agree on distance, presence and team.
pub proof fn lemma_same_stacks_views(a: Seq<GameCell<Piece>>, b: Seq<GameCell<Piece>>, i: int, d: HDir, radius: int)
    requires
        radius <= 8,
        land_cell(i, radius - 1),
        a.len() == crate::mesh::TABLE_SIZE,
        same_stacks(a, b),
    ensures
        first_piece(a, i, d, 1, walk_len(i, d, radius)) == first_piece(b, i, d, 1, walk_len(i, d, radius)),
        reach(a, i, d, radius) == reach(b, i, d, radius),
        seen_team(a, i, d, radius) == seen_team(b, i, d, radius),
        crate::moves::temp_agrees(end_point(a, i, d, radius), end_point(b, i, d, radius)),
{
    let n = walk_len(i, d, radius);
    lemma_first_piece_same_stacks(a, b, i, d, radius, 1);
    lemma_first_piece(a, i, d, 1, n);
    let e = first_piece(a, i, d, 1, n);
    if e < n {
        lemma_ray_in_land(i, d, radius, e);
        assert(same_stack(a[ray_index(i, d, e)], b[ray_index(i, d, e)]));
    }
}

/// Spokes that describe a position describe every position with the same
/// stacks.
pub proof fn lemma_describes_same_stacks(s: SpokeInfo, g1: GameState, g2: GameState, radius: int)
    requires
        radius <= 8,
        g1.factions.wf(),
        s.describes(&g1, radius),
        same_stacks(g1.factions.cells@, g2.factions.cells@),
    ensures
        s.describes(&g2, radius),
{
    assert forall|i: int, d: int| land_cell(i, radius - 1) && 0 <= d < 6 implies #[trigger] s.data[i].raw[d] == seen_team(
        g2.factions.cells@,
        i,
        dir_of_index(d),
        radius,
    ) by {
        lemma_same_stacks_views(g1.factions.cells@, g2.factions.cells@, i, dir_of_index(d), radius);
    }
}

/// Two positions with pieces of the same teams on the same cells, heights
/// and lighthouses aside.
pub open spec fn same_occupants(a: Seq<GameCell<Piece>>, b: Seq<GameCell<Piece>>) -> bool {
    &&& a.len() == b.len()
    &&& forall|i: int| 0 <= i < a.len() ==> ((#[trigger] a[i] is Empty) <==> (b[i] is Empty)) && piece_of(a[i]).team == piece_of(b[i]).team
}

/// Positions with the same occupants meet their first piece at the same step.
proof fn lemma_first_piece_same_occupants(
    a: Seq<GameCell<Piece>>,
    b: Seq<GameCell<Piece>>,
    i: int,
    d: HDir,
    radius: int,
    k: int,
)
    requires
        radius <= 8,
        land_cell(i, radius - 1),
        a.len() == crate::mesh::TABLE_SIZE,
        same_occupants(a, b),
        0 <= k,
    ensures
        first_piece(a, i, d, k, walk_len(i, d, radius)) == first_piece(b, i, d, k, walk_len(i, d, radius)),
    decreases walk_len(i, d, radius) - k,
{
    let n = walk_len(i, d, radius);
    if k < n {
        lemma_ray_in_land(i, d, radius, k);
        assert(a[ray_index(i, d, k)] is Empty <==> b[ray_index(i, d, k)] is Empty);
        lemma_first_piece_same_occupants(a, b, i, d, radius, k + 1);
    }
}

/// The team seen from a land cell depends only on which team occupies each
/// cell.
pub proof fn lemma_seen_same_occupants(a: Seq<GameCell<Piece>>, b: Seq<GameCell<Piece>>, i: int, d: HDir, radius: int)
    requires
        radius <= 8,
        land_cell(i, radius - 1),
        a.len() == crate::mesh::TABLE_SIZE,
        same_occupants(a, b),
    ensures
        seen_team(a, i, d, radius) == seen_team(b, i, d, radius),
{
    let n = walk_len(i, d, radius);
    lemma_first_piece_same_occupants(a, b, i, d, radius, 1);
    lemma_first_piece(a, i, d, 1, n);
    let e = first_piece(a, i, d, 1, n);
    if e < n {
        lemma_ray_in_land(i, d, radius, e);
        assert(piece_of(a[ray_index(i, d, e)]).team == piece_of(b[ray_index(i, d, e)]).team);
    }
}

/// The number of `t`'s pieces that see a land cell depends only on which
/// team occupies each cell.
pub proof fn lemma_seen_count_same_occupants(a: Seq<GameCell<Piece>>, b: Seq<GameCell<Piece>>, i: int, radius: int, t: Team)
    requires
        radius <= 8,
        land_cell(i, radius - 1),
        a.len() == crate::mesh::TABLE_SIZE,
        same_occupants(a, b),
    ensures
        seen_count(a, i, radius, t) == seen_count(b, i, radius, t),
{
    lemma_seen_same_occupants(a, b, i, dir_of_index(0), radius);
    lemma_seen_same_occupants(a, b, i, dir_of_index(1), radius);
    lemma_seen_same_occupants(a, b, i, dir_of_index(2), radius);
    lemma_seen_same_occupants(a, b, i, dir_of_index(3), radius);
    lemma_seen_same_occupants(a, b, i, dir_of_index(4), radius);
    lemma_seen_same_occupants(a, b, i, dir_of_index(5), radius);
}

} // verus!
