//! Hexagonal grid coordinates: axial `(q, r)` and cube `(q, r, s)` forms,
//! the six directions, rotations, rings, ranges and the board-table index.
use vstd::prelude::*;

verus! {

/// The integer type of one coordinate.
pub type CoordNum = i8;

/// Unit offsets of the six directions, in cube coordinates, in the order of [`HDir`].
pub const OFFSETS: [[CoordNum; 3]; 6] = [
    [1, 0, -1],
    [1, -1, 0],
    [0, -1, 1],
    [-1, 0, 1],
    [-1, 1, 0],
    [0, 1, -1],
];

/// The six directions of the flat-topped hexagonal grid.
#[derive(Copy, Clone, Default, Hash, Debug, PartialEq, Eq, Structural)]
pub enum HDir {
    #[default]
    BottomRight,
    Bottom,
    BottomLeft,
    TopLeft,
    Top,
    TopRight,
}

/// The position of a direction in the clockwise order `BottomRight .. TopRight`.
pub open spec fn dir_index(d: HDir) -> int {
    match d {
        HDir::BottomRight => 0,
        HDir::Bottom => 1,
        HDir::BottomLeft => 2,
        HDir::TopLeft => 3,
        HDir::Top => 4,
        HDir::TopRight => 5,
    }
}

/// The direction at position `i` (taken modulo 6).
pub open spec fn dir_of_index(i: int) -> HDir {
    let k = i % 6;
    if k == 0 {
        HDir::BottomRight
    } else if k == 1 {
        HDir::Bottom
    } else if k == 2 {
        HDir::BottomLeft
    } else if k == 3 {
        HDir::TopLeft
    } else if k == 4 {
        HDir::Top
    } else {
        HDir::TopRight
    }
}

/// The cube offset `(q, r, s)` of one step in direction `d`.
pub open spec fn dir_dq(d: HDir) -> int {
    match d {
        HDir::BottomRight => 1,
        HDir::Bottom => 1,
        HDir::BottomLeft => 0,
        HDir::TopLeft => -1,
        HDir::Top => -1,
        HDir::TopRight => 0,
    }
}

pub open spec fn dir_dr(d: HDir) -> int {
    match d {
        HDir::BottomRight => 0,
        HDir::Bottom => -1,
        HDir::BottomLeft => -1,
        HDir::TopLeft => 0,
        HDir::Top => 1,
        HDir::TopRight => 1,
    }
}

pub open spec fn dir_ds(d: HDir) -> int {
    -dir_dq(d) - dir_dr(d)
}

/// The six directions in clockwise order.
pub open spec fn all_dirs() -> Seq<HDir> {
    seq![
        HDir::BottomRight,
        HDir::Bottom,
        HDir::BottomLeft,
        HDir::TopLeft,
        HDir::Top,
        HDir::TopRight,
    ]
}

impl HDir {
    /// The direction whose position is `value`.
    pub fn from_u8(value: u8) -> (d: HDir)
        requires
            value < 6,
        ensures
            dir_index(d) == value,
            d == dir_of_index(value as int),
    {
        match value {
            0 => HDir::BottomRight,
            1 => HDir::Bottom,
            2 => HDir::BottomLeft,
            3 => HDir::TopLeft,
            4 => HDir::Top,
            _ => HDir::TopRight,
        }
    }

    /// The position of this direction in the clockwise order.
    pub fn to_u8(&self) -> (v: u8)
        ensures
            v == dir_index(*self),
            v < 6,
    {
        match self {
            HDir::BottomRight => 0,
            HDir::Bottom => 1,
            HDir::BottomLeft => 2,
            HDir::TopLeft => 3,
            HDir::Top => 4,
            HDir::TopRight => 5,
        }
    }

    /// All six directions, clockwise from `BottomRight`.
    pub fn all() -> (v: Vec<HDir>)
        ensures
            v@ == all_dirs(),
    {
        let v = vec![
            HDir::BottomRight,
            HDir::Bottom,
            HDir::BottomLeft,
            HDir::TopLeft,
            HDir::Top,
            HDir::TopRight,
        ];
        assert(v@ =~= all_dirs());
        v
    }

    /// The opposite direction.
    pub fn rotate_180(&self) -> (d: HDir)
        ensures
            dir_index(d) == (dir_index(*self) + 3) % 6,
            dir_dq(d) == -dir_dq(*self),
            dir_dr(d) == -dir_dr(*self),
    {
        match self {
            HDir::BottomRight => HDir::TopLeft,
            HDir::Bottom => HDir::Top,
            HDir::BottomLeft => HDir::TopRight,
            HDir::TopLeft => HDir::BottomRight,
            HDir::Top => HDir::Bottom,
            HDir::TopRight => HDir::BottomLeft,
        }
    }

    /// The next direction clockwise.
    pub fn rotate60_right(&self) -> (d: HDir)
        ensures
            dir_index(d) == (dir_index(*self) + 1) % 6,
            d == dir_of_index(dir_index(*self) + 1),
    {
        HDir::from_u8((self.to_u8() + 1) % 6)
    }

    /// The next direction counter-clockwise.
    pub fn rotate60_left(&self) -> (d: HDir)
        ensures
            dir_index(d) == (dir_index(*self) + 5) % 6,
            d == dir_of_index(dir_index(*self) + 5),
    {
        HDir::from_u8((self.to_u8() + 5) % 6)
    }

    /// One step in this direction, as an axial offset.
    pub fn to_relative(&self) -> (a: Axial)
        ensures
            a.q == dir_dq(*self),
            a.r == dir_dr(*self),
    {
        Cube::direction(*self).to_axial()
    }
}

/// Axial coordinates of a cell.
#[derive(Hash, Default, Debug, Copy, Clone, PartialEq, Eq, Structural, PartialOrd, Ord)]
pub struct Axial {
    pub q: CoordNum,
    pub r: CoordNum,
}

/// Cube coordinates: an axial pair together with `s`, which for a cell of the
/// grid is `-q - r`.
#[derive(Copy, Clone, Debug)]
pub struct Cube {
    pub ax: Axial,
    pub s: CoordNum,
}

/// A cube whose three coordinates are the given integers.
pub open spec fn cube_of(q: int, r: int, s: int) -> Cube {
    Cube { ax: Axial { q: q as i8, r: r as i8 }, s: s as i8 }
}

/// Whether `x` fits in a coordinate.
pub open spec fn fits(x: int) -> bool {
    -128 <= x <= 127
}

/// Whether a cube lies on the grid plane `q + r + s == 0`.
pub open spec fn on_plane(c: Cube) -> bool {
    c.ax.q + c.ax.r + c.s == 0
}

/// Whether `Cube::new(q, r)` computes `-q - r` without overflow.
pub open spec fn new_ok(q: int, r: int) -> bool {
    fits(q) && fits(r) && q != -128 && fits(-q - r)
}

/// Whether `rotate_60_right` on `c` stays within the coordinate range.
pub open spec fn right_ok(c: Cube) -> bool {
    c.s != -128 && c.ax.q != -128 && fits(c.s + c.ax.q)
}

/// Whether `rotate_60_left` on `c` stays within the coordinate range.
pub open spec fn left_ok(c: Cube) -> bool {
    c.ax.r != -128 && c.s != -128 && fits(c.ax.r + c.s)
}

/// A rotation by sixty degrees clockwise about the origin.
pub open spec fn rot_right(c: Cube) -> Cube {
    cube_of(-c.s, -c.ax.q, c.s + c.ax.q)
}

/// A rotation by sixty degrees counter-clockwise about the origin.
pub open spec fn rot_left(c: Cube) -> Cube {
    cube_of(-c.ax.r, -c.s, c.ax.r + c.s)
}

/// Whether `Cube::rotate(c, d)` stays within the coordinate range.
pub open spec fn rotate_ok(c: Cube, d: HDir) -> bool {
    match d {
        HDir::BottomRight => true,
        HDir::Bottom => right_ok(c),
        HDir::BottomLeft => right_ok(c) && right_ok(rot_right(c)),
        HDir::TopLeft => right_ok(c) && right_ok(rot_right(c)) && right_ok(
            rot_right(rot_right(c)),
        ),
        HDir::Top => left_ok(c) && left_ok(rot_left(c)),
        HDir::TopRight => left_ok(c),
    }
}

/// The result of `Cube::rotate(c, d)`.
pub open spec fn rotated(c: Cube, d: HDir) -> Cube {
    match d {
        HDir::BottomRight => c,
        HDir::Bottom => rot_right(c),
        HDir::BottomLeft => rot_right(rot_right(c)),
        HDir::TopLeft => rot_right(rot_right(rot_right(c))),
        HDir::Top => rot_left(rot_left(c)),
        HDir::TopRight => rot_left(c),
    }
}

/// Whether `a + b` fits componentwise.
pub open spec fn add_ok(a: Cube, b: Cube) -> bool {
    fits(a.ax.q + b.ax.q) && fits(a.ax.r + b.ax.r) && fits(a.s + b.s)
}

/// Whether `a - b` fits componentwise.
pub open spec fn sub_ok(a: Cube, b: Cube) -> bool {
    fits(a.ax.q - b.ax.q) && fits(a.ax.r - b.ax.r) && fits(a.s - b.s)
}

/// The componentwise sum.
pub open spec fn cube_add(a: Cube, b: Cube) -> Cube {
    cube_of(a.ax.q + b.ax.q, a.ax.r + b.ax.r, a.s + b.s)
}

/// The cube `c + k * (dq, dr, ds)`.
pub open spec fn cube_shift(c: Cube, k: int, dq: int, dr: int, ds: int) -> Cube {
    cube_of(c.ax.q + k * dq, c.ax.r + k * dr, c.s + k * ds)
}

/// Whether `c + k * (dq, dr, ds)` fits.
pub open spec fn shift_ok(c: Cube, k: int, dq: int, dr: int, ds: int) -> bool {
    fits(c.ax.q + k * dq) && fits(c.ax.r + k * dr) && fits(c.s + k * ds)
}

/// The hexagonal distance between two cubes.
pub open spec fn cube_dist(a: Cube, b: Cube) -> int {
    (abs(b.ax.q - a.ax.q) + abs(b.ax.r - a.ax.r) + abs(b.s - a.s)) / 2
}

pub open spec fn abs(x: int) -> int {
    if x < 0 {
        -x
    } else {
        x
    }
}

/// A cell is at distance zero from itself, and `k` steps in one direction
/// take a cell exactly `k` away; in particular each of the six neighbours
/// is at distance one.
pub proof fn lemma_dist_along_direction(c: Cube, d: HDir, k: int)
    requires
        k >= 0,
        shift_ok(c, k, dir_dq(d), dir_dr(d), dir_ds(d)),
        fits(c.ax.q as int) && fits(c.ax.r as int) && fits(c.s as int),
    ensures
        cube_dist(c, c) == 0,
        cube_dist(c, cube_shift(c, k, dir_dq(d), dir_dr(d), dir_ds(d))) == k,
        cube_dist(cube_shift(c, k, dir_dq(d), dir_dr(d), dir_ds(d)), c) == k,
{
    let e = cube_shift(c, k, dir_dq(d), dir_dr(d), dir_ds(d));
    assert(k * 1 == k && k * 0 == 0 && k * -1 == -k) by (nonlinear_arith);
    match d {
        HDir::BottomRight => {
            assert(e.ax.q == c.ax.q + k && e.ax.r == c.ax.r && e.s == c.s - k);
        },
        HDir::Bottom => {
            assert(e.ax.q == c.ax.q + k && e.ax.r == c.ax.r - k && e.s == c.s);
        },
        HDir::BottomLeft => {
            assert(e.ax.q == c.ax.q && e.ax.r == c.ax.r - k && e.s == c.s + k);
        },
        HDir::TopLeft => {
            assert(e.ax.q == c.ax.q - k && e.ax.r == c.ax.r && e.s == c.s + k);
        },
        HDir::Top => {
            assert(e.ax.q == c.ax.q - k && e.ax.r == c.ax.r + k && e.s == c.s);
        },
        HDir::TopRight => {
            assert(e.ax.q == c.ax.q && e.ax.r == c.ax.r + k && e.s == c.s - k);
        },
    }
}

/// The origin.
pub open spec fn origin() -> Cube {
    cube_of(0, 0, 0)
}

/// Rotating sixty degrees clockwise and back gives the cube again, keeps it
/// on the grid plane, keeps its distance from the origin, and turns each of
/// the six directions into the next one clockwise.
pub proof fn lemma_rotation(c: Cube, i: int)
    requires
        on_plane(c),
        -100 <= c.ax.q <= 100 && -100 <= c.ax.r <= 100 && -100 <= c.s <= 100,
        0 <= i < 6,
    ensures
        rot_left(rot_right(c)) == c,
        rot_right(rot_left(c)) == c,
        on_plane(rot_right(c)),
        cube_dist(origin(), rot_right(c)) == cube_dist(origin(), c),
        cube_dist(origin(), rot_left(c)) == cube_dist(origin(), c),
        ({
            let d = dir_of_index(i);
            let e = dir_of_index(if i == 5 { 0 } else { i + 1 });
            rot_right(cube_of(dir_dq(d), dir_dr(d), dir_ds(d))) == cube_of(dir_dq(e), dir_dr(e), dir_ds(e))
        }),
{
}

/// Distance does not depend on the order of the two cells.
pub proof fn lemma_dist_symmetric(a: Cube, b: Cube)
    ensures
        cube_dist(a, b) == cube_dist(b, a),
{
}

impl Cube {
    /// The `s` coordinate.
    pub fn s(&self) -> (s: CoordNum)
        ensures
            s == self.s,
    {
        self.s
    }

    /// The cube with the three given coordinates.
    pub fn from_arr(arr: [CoordNum; 3]) -> (c: Cube)
        ensures
            c.ax.q == arr[0],
            c.ax.r == arr[1],
            c.s == arr[2],
    {
        Cube { ax: Axial { q: arr[0], r: arr[1] }, s: arr[2] }
    }

    /// The three coordinates in the order `q, r, s`.
    pub fn to_arr(&self) -> (arr: [CoordNum; 3])
        ensures
            arr[0] == self.ax.q,
            arr[1] == self.ax.r,
            arr[2] == self.s,
    {
        [self.ax.q, self.ax.r, self.s]
    }

    /// The cube on the grid plane with axial part `(q, r)`.
    pub fn new(q: CoordNum, r: CoordNum) -> (c: Cube)
        requires
            new_ok(q as int, r as int),
        ensures
            c.ax.q == q,
            c.ax.r == r,
            c.s == -q - r,
            on_plane(c),
    {
        Cube { ax: Axial { q, r }, s: -q - r }
    }

    /// Rotates sixty degrees clockwise about the origin.
    pub fn rotate_60_right(self) -> (c: Cube)
        requires
            right_ok(self),
        ensures
            c == rot_right(self),
            c.ax.q == -self.s,
            c.ax.r == -self.ax.q,
            c.s == self.s + self.ax.q,
    {
        Cube::new(-self.s, -self.ax.q)
    }

    /// Rotates sixty degrees counter-clockwise about the origin.
    pub fn rotate_60_left(self) -> (c: Cube)
        requires
            left_ok(self),
        ensures
            c == rot_left(self),
            c.ax.q == -self.ax.r,
            c.ax.r == -self.s,
            c.s == self.ax.r + self.s,
    {
        Cube::new(-self.ax.r, -self.s)
    }

    /// Rotates by as many sixty-degree steps clockwise as the position of `dir`.
    pub fn rotate(self, dir: HDir) -> (c: Cube)
        requires
            rotate_ok(self, dir),
        ensures
            c == rotated(self, dir),
    {
        let k = self;
        match dir {
            HDir::BottomRight => k,
            HDir::Bottom => k.rotate_60_right(),
            HDir::BottomLeft => k.rotate_60_right().rotate_60_right(),
            HDir::TopLeft => k.rotate_60_right().rotate_60_right().rotate_60_right(),
            HDir::Top => k.rotate_60_left().rotate_60_left(),
            HDir::TopRight => k.rotate_60_left(),
        }
    }

    /// Undoes `rotate(dir)`: rotates as many steps counter-clockwise.
    pub fn rotate_back(self, dir: HDir) -> (c: Cube)
        requires
            rotate_ok(self, HDir::from_index_spec(6 - dir_index(dir))),
        ensures
            c == rotated(self, HDir::from_index_spec(6 - dir_index(dir))),
    {
        let k = self;
        match dir {
            HDir::BottomRight => k,
            HDir::TopRight => k.rotate_60_right(),
            HDir::Top => k.rotate_60_right().rotate_60_right(),
            HDir::TopLeft => k.rotate_60_right().rotate_60_right().rotate_60_right(),
            HDir::BottomLeft => k.rotate_60_left().rotate_60_left(),
            HDir::Bottom => k.rotate_60_left(),
        }
    }

    /// The axial part.
    pub fn to_axial(&self) -> (a: Axial)
        ensures
            a == self.ax,
    {
        self.ax
    }

    /// One step from the origin in direction `dir`.
    pub fn direction(dir: HDir) -> (c: Cube)
        ensures
            c.ax.q == dir_dq(dir),
            c.ax.r == dir_dr(dir),
            c.s == dir_ds(dir),
    {
        match dir {
            HDir::BottomRight => Cube::from_arr([1, 0, -1]),
            HDir::Bottom => Cube::from_arr([1, -1, 0]),
            HDir::BottomLeft => Cube::from_arr([0, -1, 1]),
            HDir::TopLeft => Cube::from_arr([-1, 0, 1]),
            HDir::Top => Cube::from_arr([-1, 1, 0]),
            HDir::TopRight => Cube::from_arr([0, 1, -1]),
        }
    }

    /// The neighbouring cube in direction `dir`.
    pub fn neighbour(&self, dir: HDir) -> (c: Cube)
        requires
            shift_ok(*self, 1, dir_dq(dir), dir_dr(dir), dir_ds(dir)),
        ensures
            c == cube_shift(*self, 1, dir_dq(dir), dir_dr(dir), dir_ds(dir)),
            c.ax.q == self.ax.q + dir_dq(dir),
            c.ax.r == self.ax.r + dir_dr(dir),
            c.s == self.s + dir_ds(dir),
    {
        self.add(Cube::direction(dir))
    }

    /// The componentwise sum.
    pub fn add(self, other: Cube) -> (c: Cube)
        requires
            add_ok(self, other),
        ensures
            c == cube_add(self, other),
            c.ax.q == self.ax.q + other.ax.q,
            c.ax.r == self.ax.r + other.ax.r,
            c.s == self.s + other.s,
    {
        Cube {
            ax: Axial { q: self.ax.q + other.ax.q, r: self.ax.r + other.ax.r },
            s: self.s + other.s,
        }
    }

    /// The componentwise difference.
    pub fn sub(self, other: Cube) -> (c: Cube)
        requires
            sub_ok(self, other),
        ensures
            c.ax.q == self.ax.q - other.ax.q,
            c.ax.r == self.ax.r - other.ax.r,
            c.s == self.s - other.s,
    {
        Cube {
            ax: Axial { q: self.ax.q - other.ax.q, r: self.ax.r - other.ax.r },
            s: self.s - other.s,
        }
    }

    /// Every coordinate multiplied by `n`.
    pub fn scale(self, n: CoordNum) -> (c: Cube)
        requires
            fits(self.ax.q * n),
            fits(self.ax.r * n),
            fits(self.s * n),
        ensures
            c.ax.q == self.ax.q * n,
            c.ax.r == self.ax.r * n,
            c.s == self.s * n,
    {
        Cube { ax: Axial { q: self.ax.q * n, r: self.ax.r * n }, s: self.s * n }
    }

    /// The hexagonal distance to `other`.
    pub fn dist(&self, other: &Cube) -> (d: CoordNum)
        requires
            fits(abs(other.ax.q - self.ax.q) + abs(other.ax.r - self.ax.r) + abs(
                other.s - self.s,
            )),
        ensures
            d == cube_dist(*self, *other),
    {
        let dq = other.ax.q as i16 - self.ax.q as i16;
        let dr = other.ax.r as i16 - self.ax.r as i16;
        let ds = other.s as i16 - self.s as i16;
        let aq: i16 = if dq < 0 { -dq } else { dq };
        let ar: i16 = if dr < 0 { -dr } else { dr };
        let as_: i16 = if ds < 0 { -ds } else { ds };
        ((aq + ar + as_) / 2) as i8
    }
}

/// Whether `dq, dr` is an offset within hexagonal distance `n` of the origin.
pub open spec fn in_hexagon(dq: int, dr: int, n: int) -> bool {
    -n <= dq <= n && -n <= dr <= n && -n <= dq + dr <= n
}

/// Lexicographic order on `(q, r)` pairs.
pub open spec fn lex_less(q1: int, r1: int, q2: int, r2: int) -> bool {
    q1 < q2 || (q1 == q2 && r1 < r2)
}

/// The cube at offset `(dq, dr)` from `c`, its `s` moved by `-dq - dr`.
pub open spec fn offset_cube(c: Cube, dq: int, dr: int) -> Cube {
    cube_of(c.ax.q + dq, c.ax.r + dr, c.s - dq - dr)
}

/// Every offset `(dq, dr)` of the hexagon of radius `n` that comes before
/// `(q, r)` in lexicographic order has its cube in `res`.
pub open spec fn range_covers(res: Seq<Cube>, c: Cube, n: int, q: int, r: int) -> bool {
    forall|dq: int, dr: int|
        #![trigger in_hexagon(dq, dr, n), lex_less(dq, dr, q, r)]
        in_hexagon(dq, dr, n) && lex_less(dq, dr, q, r) ==> exists|k: int|
            0 <= k < res.len() && #[trigger] res[k] == offset_cube(c, dq, dr)
}

/// Whether every coordinate of `c` can move by up to `n` either way.
pub open spec fn spread_ok(c: Cube, n: int) -> bool {
    fits(c.ax.q - n) && fits(c.ax.q + n) && fits(c.ax.r - n) && fits(c.ax.r + n) && fits(
        c.s - n,
    ) && fits(c.s + n)
}

/// The corner of the ring of radius `n` at which side `i` starts, as an offset
/// from the centre.
pub open spec fn corner_q(i: int, n: int) -> int {
    if i == 0 {
        -n
    } else if i == 1 {
        0
    } else if i == 2 {
        n
    } else if i == 3 {
        n
    } else if i == 4 {
        0
    } else {
        -n
    }
}

pub open spec fn corner_r(i: int, n: int) -> int {
    if i == 0 {
        n
    } else if i == 1 {
        n
    } else if i == 2 {
        0
    } else if i == 3 {
        -n
    } else if i == 4 {
        -n
    } else {
        0
    }
}

/// `j * u` for a unit step `u` in `{-1, 0, 1}`.
pub open spec fn steps(j: int, u: int) -> int {
    if u == 1 {
        j
    } else if u == -1 {
        -j
    } else {
        0
    }
}

/// The `j`-th cell of side `i` of the clockwise ring of radius `n` about `c`.
/// The ring starts `n` steps from `c` in direction `Top`; side `i` walks in
/// the direction at position `i`.
pub open spec fn ring_q(c: Cube, n: int, i: int, j: int) -> int {
    c.ax.q + corner_q(i, n) + steps(j, dir_dq(dir_of_index(i)))
}

pub open spec fn ring_r(c: Cube, n: int, i: int, j: int) -> int {
    c.ax.r + corner_r(i, n) + steps(j, dir_dr(dir_of_index(i)))
}

pub open spec fn ring_s(c: Cube, n: int, i: int, j: int) -> int {
    c.s - corner_q(i, n) - corner_r(i, n) + steps(j, dir_ds(dir_of_index(i)))
}

pub open spec fn ring_point(c: Cube, n: int, i: int, j: int) -> Cube {
    cube_of(ring_q(c, n, i, j), ring_r(c, n, i, j), ring_s(c, n, i, j))
}

/// Every cell of a side of the ring, including the corner that ends it,
/// moves each coordinate of the centre by at most `n`.
pub proof fn lemma_ring_point_bounds(c: Cube, n: int, i: int, j: int)
    requires
        0 <= i < 6,
        0 <= j <= n,
    ensures
        c.ax.q - n <= ring_q(c, n, i, j) <= c.ax.q + n,
        c.ax.r - n <= ring_r(c, n, i, j) <= c.ax.r + n,
        c.s - n <= ring_s(c, n, i, j) <= c.s + n,
{
    if i == 0 {
        assert(dir_of_index(i) == HDir::BottomRight);
    } else if i == 1 {
        assert(dir_of_index(i) == HDir::Bottom);
    } else if i == 2 {
        assert(dir_of_index(i) == HDir::BottomLeft);
    } else if i == 3 {
        assert(dir_of_index(i) == HDir::TopLeft);
    } else if i == 4 {
        assert(dir_of_index(i) == HDir::Top);
    } else {
        assert(dir_of_index(i) == HDir::TopRight);
    }
    if i + 1 == 1 {
        assert(dir_of_index(i + 1) == HDir::Bottom);
    } else if i + 1 == 2 {
        assert(dir_of_index(i + 1) == HDir::BottomLeft);
    } else if i + 1 == 3 {
        assert(dir_of_index(i + 1) == HDir::TopLeft);
    } else if i + 1 == 4 {
        assert(dir_of_index(i + 1) == HDir::Top);
    } else if i + 1 == 5 {
        assert(dir_of_index(i + 1) == HDir::TopRight);
    }
}

/// The corner that ends side `i` starts side `i + 1`.
pub proof fn lemma_ring_corner(c: Cube, n: int, i: int)
    requires
        0 <= i < 5,
    ensures
        ring_q(c, n, i, n) == ring_q(c, n, i + 1, 0),
        ring_r(c, n, i, n) == ring_r(c, n, i + 1, 0),
        ring_s(c, n, i, n) == ring_s(c, n, i + 1, 0),
{
    if i == 0 {
        assert(dir_of_index(i) == HDir::BottomRight);
    } else if i == 1 {
        assert(dir_of_index(i) == HDir::Bottom);
    } else if i == 2 {
        assert(dir_of_index(i) == HDir::BottomLeft);
    } else if i == 3 {
        assert(dir_of_index(i) == HDir::TopLeft);
    } else if i == 4 {
        assert(dir_of_index(i) == HDir::Top);
    } else {
        assert(dir_of_index(i) == HDir::TopRight);
    }
    if i + 1 == 1 {
        assert(dir_of_index(i + 1) == HDir::Bottom);
    } else if i + 1 == 2 {
        assert(dir_of_index(i + 1) == HDir::BottomLeft);
    } else if i + 1 == 3 {
        assert(dir_of_index(i + 1) == HDir::TopLeft);
    } else if i + 1 == 4 {
        assert(dir_of_index(i + 1) == HDir::Top);
    } else if i + 1 == 5 {
        assert(dir_of_index(i + 1) == HDir::TopRight);
    }
}

impl HDir {
    /// The direction at position `i` modulo 6, as a spec function.
    pub open spec fn from_index_spec(i: int) -> HDir {
        dir_of_index(i)
    }
}

impl Cube {
    /// The clockwise ring of radius `n` about this cube: `6 * n` cells,
    /// starting `n` steps away in direction `Top`, each side walking in the
    /// next direction of the clockwise order.
    pub fn ring(&self, n: CoordNum) -> (v: Vec<Cube>)
        requires
            0 <= n,
            spread_ok(*self, n as int),
        ensures
            v.len() == 6 * n,
            forall|i: int, j: int|
                0 <= i < 6 && 0 <= j < n ==> #[trigger] v[i * n + j] == ring_point(
                    *self,
                    n as int,
                    i,
                    j,
                ),
    {
        let c = *self;
        let top = Cube::direction(HDir::Top);
        let mut hex = c.add(Cube { ax: Axial { q: -n, r: n }, s: 0 });
        assert(top.ax.q == -1 && top.ax.r == 1 && top.s == 0);
        let mut v: Vec<Cube> = Vec::new();
        let mut i: u8 = 0;
        proof {
            assert(dir_of_index(0) == HDir::BottomRight);
        }
        while i < 6
            invariant
                0 <= i <= 6,
                0 <= n,
                spread_ok(c, n as int),
                v.len() == i * n,
                i < 6 ==> hex == ring_point(c, n as int, i as int, 0),
                forall|ii: int, j: int|
                    0 <= ii < i && 0 <= j < n ==> #[trigger] v[ii * n + j] == ring_point(
                        c,
                        n as int,
                        ii,
                        j,
                    ),
            decreases 6 - i,
        {
            let dir = HDir::from_u8(i);
            let mut j: i8 = 0;
            let ghost base = v@;
            while j < n
                invariant
                    0 <= i < 6,
                    0 <= j <= n,
                    spread_ok(c, n as int),
                    dir == dir_of_index(i as int),
                    v.len() == i * n + j,
                    hex == ring_point(c, n as int, i as int, j as int),
                    forall|k: int| 0 <= k < i * n ==> #[trigger] v[k] == base[k],
                    base.len() == i * n,
                    forall|jj: int| 0 <= jj < j ==> #[trigger] v[i * n + jj] == ring_point(
                        c,
                        n as int,
                        i as int,
                        jj,
                    ),
                decreases n - j,
            {
                proof {
                    lemma_ring_point_bounds(c, n as int, i as int, j as int);
                    lemma_ring_point_bounds(c, n as int, i as int, j + 1);
                    lemma_ring_step(c, n as int, i as int, j as int);
                }
                v.push(hex);
                hex = hex.neighbour(dir);
                j = j + 1;
            }
            proof {
                if i < 5 {
                    lemma_ring_corner(c, n as int, i as int);
                    lemma_ring_point_bounds(c, n as int, i as int, n as int);
                    lemma_ring_point_bounds(c, n as int, i + 1, 0);
                }
                assert forall|ii: int, jj: int|
                    0 <= ii < i + 1 && 0 <= jj < n implies #[trigger] v[ii * n + jj]
                    == ring_point(c, n as int, ii, jj) by {
                    if ii < i {
                        lemma_side_index(ii, jj, n as int, i as int);
                        assert(v[ii * n + jj] == base[ii * n + jj]);
                    }
                }
                assert((i + 1) * n == i * n + n) by (nonlinear_arith);
            }
            i = i + 1;
        }
        v
    }
}

/// Cells of earlier sides sit before the cells of side `i`.
proof fn lemma_side_index(ii: int, jj: int, n: int, i: int)
    requires
        0 <= ii < i,
        0 <= jj < n,
    ensures
        0 <= ii * n + jj < i * n,
{
    assert(ii * n + jj < (ii + 1) * n) by (nonlinear_arith)
        requires
            jj < n,
    ;
    assert((ii + 1) * n <= i * n) by (nonlinear_arith)
        requires
            ii + 1 <= i,
            0 < n,
    ;
    assert(0 <= ii * n) by (nonlinear_arith)
        requires
            0 <= ii,
            0 < n,
    ;
}

/// One step along side `i` moves to the next cell of that side.
proof fn lemma_ring_step(c: Cube, n: int, i: int, j: int)
    requires
        0 <= i < 6,
        0 <= j < n,
    ensures
        ring_q(c, n, i, j + 1) == ring_q(c, n, i, j) + dir_dq(dir_of_index(i)),
        ring_r(c, n, i, j + 1) == ring_r(c, n, i, j) + dir_dr(dir_of_index(i)),
        ring_s(c, n, i, j + 1) == ring_s(c, n, i, j) + dir_ds(dir_of_index(i)),
{
}

impl Cube {
    /// The cubes of the hexagon of radius `n` about this cube, ordered by their
    /// `(q, r)` offset from it, lexicographically. Empty when `n < 0`. From
    /// `n = 64` on, the bound `-q + n` of the offsets no longer fits a
    /// coordinate (at `q = -n`), so `n` is at most 63.
    pub fn range(&self, n: CoordNum) -> (v: Vec<Cube>)
        requires
            -127 <= n <= 63,
            n >= 0 ==> spread_ok(*self, n as int),
        ensures
            forall|k: int|
                0 <= k < v.len() ==> {
                    let dq = v[k].ax.q - self.ax.q;
                    let dr = v[k].ax.r - self.ax.r;
                    &&& in_hexagon(dq, dr, n as int)
                    &&& #[trigger] v[k] == offset_cube(*self, dq, dr)
                },
            forall|k1: int, k2: int|
                0 <= k1 < k2 < v.len() ==> lex_less(
                    #[trigger] v[k1].ax.q as int,
                    v[k1].ax.r as int,
                    #[trigger] v[k2].ax.q as int,
                    v[k2].ax.r as int,
                ),
            range_covers(v@, *self, n as int, n as int + 1, 0),
    {
        let o = *self;
        let mut v: Vec<Cube> = Vec::new();
        if n < 0 {
            return v;
        }
        let mut q: i8 = -n;
        while q <= n
            invariant
                0 <= n <= 63,
                -n <= q <= n + 1,
                spread_ok(o, n as int),
                forall|k: int|
                    0 <= k < v.len() ==> {
                        let dq = v[k].ax.q - o.ax.q;
                        let dr = v[k].ax.r - o.ax.r;
                        &&& in_hexagon(dq, dr, n as int)
                        &&& dq < q
                        &&& #[trigger] v[k] == offset_cube(o, dq, dr)
                    },
                forall|k1: int, k2: int|
                    0 <= k1 < k2 < v.len() ==> lex_less(
                        #[trigger] v[k1].ax.q as int,
                        v[k1].ax.r as int,
                        #[trigger] v[k2].ax.q as int,
                        v[k2].ax.r as int,
                    ),
                range_covers(v@, o, n as int, q as int, -1000),
            decreases n + 1 - q,
        {
            let lo: i8 = if -n > -q - n {
                -n
            } else {
                -q - n
            };
            let hi: i8 = if n < -q + n {
                n
            } else {
                -q + n
            };
            let mut r: i8 = lo;
            proof {
                assert forall|dq: int, dr: int|
                    #![trigger in_hexagon(dq, dr, n as int), lex_less(dq, dr, q as int, r as int)]
                    in_hexagon(dq, dr, n as int) && lex_less(dq, dr, q as int, r as int)
                    implies exists|k: int|
                    0 <= k < v.len() && #[trigger] v[k] == offset_cube(o, dq, dr) by {
                    assert(lex_less(dq, dr, q as int, -1000));
                }
            }
            while r <= hi
                invariant
                    0 <= n <= 63,
                    -n <= q <= n,
                    lo <= r <= hi + 1,
                    lo as int == if -n > -q - n { -n as int } else { -q - n },
                    hi as int == if n < -q + n { n as int } else { -q + n },
                    spread_ok(o, n as int),
                    forall|k: int|
                        0 <= k < v.len() ==> {
                            let dq = v[k].ax.q - o.ax.q;
                            let dr = v[k].ax.r - o.ax.r;
                            &&& in_hexagon(dq, dr, n as int)
                            &&& lex_less(dq, dr, q as int, r as int)
                            &&& #[trigger] v[k] == offset_cube(o, dq, dr)
                        },
                    forall|k1: int, k2: int|
                        0 <= k1 < k2 < v.len() ==> lex_less(
                            #[trigger] v[k1].ax.q as int,
                            v[k1].ax.r as int,
                            #[trigger] v[k2].ax.q as int,
                            v[k2].ax.r as int,
                        ),
                    range_covers(v@, o, n as int, q as int, r as int),
                decreases hi + 1 - r,
            {
                let s = -q - r;
                let cell = o.add(Cube::from_arr([q, r, s]));
                let ghost old_v = v@;
                v.push(cell);
                proof {
                    assert(v[v.len() - 1] == offset_cube(o, q as int, r as int));
                    assert forall|dq: int, dr: int|
                        #![trigger in_hexagon(dq, dr, n as int), lex_less(dq, dr, q as int, r + 1)]
                        in_hexagon(dq, dr, n as int) && lex_less(
                            dq,
                            dr,
                            q as int,
                            r + 1,
                        ) implies exists|k: int|
                        0 <= k < v.len() && #[trigger] v[k] == offset_cube(o, dq, dr) by {
                        if dq == q && dr == r {
                            assert(v[v.len() - 1] == offset_cube(o, dq, dr));
                        } else {
                            assert(lex_less(dq, dr, q as int, r as int));
                            let k = choose|k: int|
                                0 <= k < old_v.len() && #[trigger] old_v[k] == offset_cube(
                                    o,
                                    dq,
                                    dr,
                                );
                            assert(v[k] == old_v[k]);
                        }
                    }
                }
                r = r + 1;
            }
            proof {
                assert forall|dq: int, dr: int|
                    #![trigger in_hexagon(dq, dr, n as int), lex_less(dq, dr, q + 1, -1000)]
                    in_hexagon(dq, dr, n as int) && lex_less(
                        dq,
                        dr,
                        q + 1,
                        -1000,
                    ) implies exists|k: int|
                    0 <= k < v.len() && #[trigger] v[k] == offset_cube(o, dq, dr) by {
                    assert(lex_less(dq, dr, q as int, r as int));
                }
            }
            q = q + 1;
        }
        proof {
            assert forall|dq: int, dr: int|
                #![trigger in_hexagon(dq, dr, n as int), lex_less(dq, dr, n + 1, 0)]
                in_hexagon(dq, dr, n as int) && lex_less(dq, dr, n + 1, 0) implies exists|k: int|
                0 <= k < v.len() && #[trigger] v[k] == offset_cube(o, dq, dr) by {
                assert(lex_less(dq, dr, q as int, -1000));
            }
        }
        v
    }

    /// The first `count` cubes of the ray `self + v, self + 2v, ...`.
    pub fn ray_from_vector(&self, v: Cube, count: usize) -> (res: Vec<Cube>)
        requires
            forall|k: int|
                1 <= k <= count ==> #[trigger] shift_ok(*self, k, v.ax.q as int, v.ax.r as int, v.s as int),
        ensures
            res.len() == count,
            forall|k: int|
                0 <= k < count ==> #[trigger] res[k] == cube_shift(*self, k + 1, v.ax.q as int, v.ax.r as int, v.s as int),
    {
        let mut c = *self;
        let mut res: Vec<Cube> = Vec::new();
        let mut i: usize = 0;
        while i < count
            invariant
                i <= count,
                res.len() == i,
                forall|k: int|
                    1 <= k <= count ==> #[trigger] shift_ok(*self, k, v.ax.q as int, v.ax.r as int, v.s as int),
                c == cube_shift(*self, i as int, v.ax.q as int, v.ax.r as int, v.s as int),
                i == 0 ==> c == *self,
                forall|k: int|
                    0 <= k < i ==> #[trigger] res[k] == cube_shift(*self, k + 1, v.ax.q as int, v.ax.r as int, v.s as int),
            decreases count - i,
        {
            proof {
                assert(shift_ok(*self, i + 1, v.ax.q as int, v.ax.r as int, v.s as int));
                if i > 0 {
                    assert(shift_ok(*self, i as int, v.ax.q as int, v.ax.r as int, v.s as int));
                }
                lemma_shift_succ(*self, i as int, v.ax.q as int, v.ax.r as int, v.s as int);
            }
            c = c.add(v);
            res.push(c);
            i = i + 1;
        }
        res
    }

    /// The first `count` steps of the walk from this cube in direction `dir`,
    /// each as the pair (cell before the step, cell after it).
    pub fn ray(&self, dir: HDir, count: usize) -> (res: Vec<(Cube, Cube)>)
        requires
            forall|k: int|
                1 <= k <= count ==> #[trigger] shift_ok(*self, k, dir_dq(dir), dir_dr(dir), dir_ds(dir)),
        ensures
            res.len() == count,
            forall|k: int|
                0 <= k < count ==> (#[trigger] res[k]).0 == cube_shift(*self, k, dir_dq(dir), dir_dr(dir), dir_ds(dir))
                    && res[k].1 == cube_shift(*self, k + 1, dir_dq(dir), dir_dr(dir), dir_ds(dir)),
    {
        let mut c = *self;
        let mut res: Vec<(Cube, Cube)> = Vec::new();
        let mut i: usize = 0;
        while i < count
            invariant
                i <= count,
                res.len() == i,
                forall|k: int|
                    1 <= k <= count ==> #[trigger] shift_ok(*self, k, dir_dq(dir), dir_dr(dir), dir_ds(dir)),
                c == cube_shift(*self, i as int, dir_dq(dir), dir_dr(dir), dir_ds(dir)),
                i == 0 ==> c == *self,
                forall|k: int|
                    0 <= k < i ==> (#[trigger] res[k]).0 == cube_shift(*self, k, dir_dq(dir), dir_dr(dir), dir_ds(dir))
                        && res[k].1 == cube_shift(*self, k + 1, dir_dq(dir), dir_dr(dir), dir_ds(dir)),
            decreases count - i,
        {
            proof {
                assert(shift_ok(*self, i + 1, dir_dq(dir), dir_dr(dir), dir_ds(dir)));
                if i > 0 {
                    assert(shift_ok(*self, i as int, dir_dq(dir), dir_dr(dir), dir_ds(dir)));
                }
                lemma_shift_succ(*self, i as int, dir_dq(dir), dir_dr(dir), dir_ds(dir));
            }
            let cc = c;
            let k = c.neighbour(dir);
            c = k;
            res.push((cc, k));
            i = i + 1;
        }
        res
    }

    /// The six neighbours, in the order of the directions.
    pub fn neighbours2(&self) -> (res: [Cube; 6])
        requires
            forall|d: HDir| #[trigger] shift_ok(*self, 1, dir_dq(d), dir_dr(d), dir_ds(d)),
        ensures
            forall|i: int|
                0 <= i < 6 ==> #[trigger] res[i] == cube_shift(
                    *self,
                    1,
                    dir_dq(dir_of_index(i)),
                    dir_dr(dir_of_index(i)),
                    dir_ds(dir_of_index(i)),
                ),
    {
        let res = [
            self.neighbour(HDir::BottomRight),
            self.neighbour(HDir::Bottom),
            self.neighbour(HDir::BottomLeft),
            self.neighbour(HDir::TopLeft),
            self.neighbour(HDir::Top),
            self.neighbour(HDir::TopRight),
        ];
        proof {
            assert(dir_of_index(0) == HDir::BottomRight);
            assert(dir_of_index(1) == HDir::Bottom);
            assert(dir_of_index(2) == HDir::BottomLeft);
            assert(dir_of_index(3) == HDir::TopLeft);
            assert(dir_of_index(4) == HDir::Top);
            assert(dir_of_index(5) == HDir::TopRight);
        }
        res
    }

    /// The six neighbours, as the ring of radius one.
    pub fn neighbours(&self) -> (v: Vec<Cube>)
        requires
            spread_ok(*self, 1),
        ensures
            v.len() == 6,
            forall|i: int| 0 <= i < 6 ==> #[trigger] v[i] == ring_point(*self, 1, i, 0),
    {
        let v = self.ring(1);
        assert forall|i: int| 0 <= i < 6 implies #[trigger] v[i] == ring_point(*self, 1, i, 0) by {
            assert(v[i * 1 + 0] == ring_point(*self, 1, i, 0));
        }
        v
    }
}

/// One more step of a shift is one more addition of the step.
proof fn lemma_shift_succ(c: Cube, k: int, dq: int, dr: int, ds: int)
    ensures
        c.ax.q + (k + 1) * dq == (c.ax.q + k * dq) + dq,
        c.ax.r + (k + 1) * dr == (c.ax.r + k * dr) + dr,
        c.s + (k + 1) * ds == (c.s + k * ds) + ds,
        c.ax.q + 0 * dq == c.ax.q,
        c.ax.r + 0 * dr == c.ax.r,
        c.s + 0 * ds == c.s,
{
    assert((k + 1) * dq == k * dq + dq) by (nonlinear_arith);
    assert((k + 1) * dr == k * dr + dr) by (nonlinear_arith);
    assert((k + 1) * ds == k * ds + ds) by (nonlinear_arith);
}

/// Column letters of the text notation.
pub const LETTER_COORDINATES: [char; 26] = [
    'A', 'B', 'C', 'D', 'E', 'F', 'G', 'H', 'I', 'J', 'K', 'L', 'M', 'N', 'O', 'P', 'Q', 'R', 'S',
    'T', 'U', 'V', 'W', 'X', 'Y', 'Z',
];

/// The coordinate that stands for a pass.
pub open spec fn pass_move() -> Axial {
    Axial { q: -5i8, r: -5i8 }
}

/// Whether `a` is the coordinate that stands for a pass.
pub fn is_pass_move(a: &Axial) -> (b: bool)
    ensures
        b == (*a == pass_move()),
{
    a.q == -5 && a.r == -5
}

/// The board-table index of the coordinate that stands for a pass.
pub const PASS_MOVE_INDEX: usize = 51;

/// A cell in text notation: a column letter and a row number, or a pass.
#[derive(Debug, Clone, Copy)]
pub enum TextMove {
    Pass,
    Move(char, i8),
}

/// The board-table index of an axial coordinate, before conversion to `usize`.
pub open spec fn axial_index(a: Axial) -> int {
    (a.q + 8) * 16 + a.r + 8
}

/// The axial coordinate of a board-table index.
pub open spec fn index_axial(i: int) -> Axial {
    Axial { q: (i / 16 - 8) as i8, r: (i % 16 - 8) as i8 }
}

/// Whether an axial coordinate lies within the 32 by 16 board table.
pub open spec fn in_table(a: Axial) -> bool {
    -8 <= a.q < 24 && -8 <= a.r < 8
}

/// The axial coordinate stored at table index `index`.
pub fn inverse(index: usize) -> (a: Axial)
    ensures
        a.q == ((index / 16) as int - 8) as i8,
        a.r == ((index % 16) as int - 8) as i8,
{
    let x = index / 16;
    let y = index % 16;
    Axial::from_arr([(x as isize - 8) as i8, (y as isize - 8) as i8])
}

/// The table index of an axial coordinate.
pub fn conv2(a: Axial) -> (i: usize)
    ensures
        i == axial_index(a) as usize,
        0 <= axial_index(a) ==> i == axial_index(a),
        axial_index(a) < 0 ==> i >= 512,
{
    let v: isize = (a.q as isize + 8) * 16 + (a.r as isize + 8);
    let i = v as usize;
    proof {
        if v < 0 {
            assert(i >= 512usize) by (bit_vector)
                requires
                    i == v as usize,
                    v < 0isize,
                    v >= -4096isize,
            ;
        }
    }
    i
}

/// The offset sign of `x`: `-1`, `0` or `1`.
pub open spec fn sign(x: int) -> int {
    if x < 0 {
        -1
    } else if x > 0 {
        1
    } else {
        0
    }
}

/// Whether `(dq, dr)` is the offset of one of the six directions.
pub open spec fn is_dir_offset(dq: int, dr: int) -> bool {
    exists|d: HDir| dir_dq(d) == dq && #[trigger] dir_dr(d) == dr
}

impl Axial {
    /// The axial coordinate at table index `index`.
    pub fn from_index(index: usize) -> (a: Axial)
        ensures
            a.q == ((index / 16) as int - 8) as i8,
            a.r == ((index % 16) as int - 8) as i8,
            index < 2176 ==> a == index_axial(index as int),
    {
        inverse(index)
    }

    /// The table index of this coordinate.
    pub fn to_index(&self) -> (i: usize)
        ensures
            i == axial_index(*self) as usize,
            0 <= axial_index(*self) ==> i == axial_index(*self),
            axial_index(*self) < 0 ==> i >= 512,
            in_table(*self) ==> i == axial_index(*self) && i < 512,
    {
        conv2(*self)
    }

    /// Reads a cell from text notation: column letter `foo`, row `num`, on a
    /// board of radius `radius`.
    pub fn from_letter_coord(foo: char, num: i8, radius: i8) -> (a: Axial)
        requires
            'A' <= foo <= 'Z',
            fits(num - radius),
            fits((foo as int - 'A' as int) - num + 1),
            fits((foo as int - 'A' as int) - num),
        ensures
            a.r == num - radius,
            a.q == (foo as int - 'A' as int) - num + 1,
    {
        let r = num - radius;
        let mut index: usize = 0;
        while index < 26 && LETTER_COORDINATES[index] != foo
            invariant
                index <= 26,
                'A' <= foo <= 'Z',
                forall|k: int| 0 <= k < index ==> LETTER_COORDINATES[k] != foo,
            decreases 26 - index,
        {
            index = index + 1;
        }
        proof {
            let k = foo as int - 'A' as int;
            assert(LETTER_COORDINATES[k] == foo);
            assert(index == k);
        }
        let q = index as i8 - (r + radius) + 1;
        Axial { q, r }
    }

    /// Writes this cell in text notation on a board of radius `radius`.
    pub fn to_letter_coord(&self, radius: i8) -> (t: TextMove)
        requires
            *self != pass_move() ==> {
                &&& new_ok(self.q as int, self.r as int)
                &&& fits(self.r + radius)
                &&& 0 <= self.q + self.r + radius - 1 < 26
            },
        ensures
            *self == pass_move() ==> t is Pass,
            *self != pass_move() ==> t == TextMove::Move(
                LETTER_COORDINATES[self.q + self.r + radius - 1],
                (self.r + radius) as i8,
            ),
    {
        if is_pass_move(self) {
            return TextMove::Pass;
        }
        let k = self.to_cube();
        let number = k.ax.r + radius;
        let letter = LETTER_COORDINATES[(k.ax.q + number - 1) as usize];
        TextMove::Move(letter, number)
    }

    /// Both coordinates multiplied by `dis`.
    pub fn mul(&self, dis: i8) -> (a: Axial)
        requires
            fits(self.q * dis),
            fits(self.r * dis),
        ensures
            a.q == self.q * dis,
            a.r == self.r * dis,
    {
        Axial { q: self.q * dis, r: self.r * dis }
    }

    /// Both coordinates packed in one integer: `q` shifted up by sixteen bits,
    /// combined bitwise with `r`.
    pub fn index(&self) -> (i: i32)
        ensures
            i == ((self.q as i32) << 16u32) | (self.r as i32),
    {
        ((self.q as i32) << 16u32) | (self.r as i32)
    }

    /// The `q` coordinate.
    pub fn q(&self) -> (q: CoordNum)
        ensures
            q == self.q,
    {
        self.q
    }

    /// The `r` coordinate.
    pub fn r(&self) -> (r: CoordNum)
        ensures
            r == self.r,
    {
        self.r
    }

    /// The coordinate `(arr[0], arr[1])`.
    pub fn from_arr(arr: [CoordNum; 2]) -> (a: Axial)
        ensures
            a.q == arr[0],
            a.r == arr[1],
    {
        Axial { q: arr[0], r: arr[1] }
    }

    /// The origin.
    pub fn zero() -> (a: Axial)
        ensures
            a.q == 0,
            a.r == 0,
    {
        Axial { q: 0, r: 0 }
    }

    /// The direction from this cell towards `other`: the direction whose offset
    /// has the signs of `other - self`.
    pub fn dir_to(&self, other: &Axial) -> (d: HDir)
        requires
            fits(other.q - self.q),
            fits(other.r - self.r),
            is_dir_offset(sign(other.q - self.q), sign(other.r - self.r)),
        ensures
            dir_dq(d) == sign(other.q - self.q),
            dir_dr(d) == sign(other.r - self.r),
    {
        let offset = other.sub(self);
        let q: i8 = if offset.q < -1 {
            -1
        } else if offset.q > 1 {
            1
        } else {
            offset.q
        };
        let r: i8 = if offset.r < -1 {
            -1
        } else if offset.r > 1 {
            1
        } else {
            offset.r
        };
        let c = Axial { q, r }.to_cube();
        let dirs = HDir::all();
        let mut i: usize = 0;
        while i < 6
            invariant
                i <= 6,
                dirs@ == all_dirs(),
                q == sign(other.q - self.q),
                r == sign(other.r - self.r),
                c.ax.q == q,
                c.ax.r == r,
                c.s == -q - r,
                forall|k: int| 0 <= k < i ==> !(dir_dq(#[trigger] all_dirs()[k]) == q && dir_dr(all_dirs()[k]) == r),
            decreases 6 - i,
        {
            let dir = dirs[i];
            let cand = Cube::direction(dir);
            if cand.ax.q == c.ax.q && cand.ax.r == c.ax.r && cand.s == c.s {
                assert(dir_dq(dir) == q && dir_dr(dir) == r);
                assert(q == sign(other.q - self.q));
                assert(r == sign(other.r - self.r));
                return dir;
            }
            i = i + 1;
        }
        proof {
            let d = choose|d: HDir| dir_dq(d) == q && #[trigger] dir_dr(d) == r;
            assert(d == all_dirs()[dir_index(d)]);
        }
        HDir::BottomRight
    }

    /// The cube form of this cell.
    pub fn to_cube(self) -> (c: Cube)
        requires
            new_ok(self.q as int, self.r as int),
        ensures
            c.ax == self,
            c.s == -self.q - self.r,
    {
        Cube::from_arr([self.q, self.r, -self.q - self.r])
    }

    /// One step in direction `m`.
    pub fn advance(self, m: HDir) -> (a: Axial)
        requires
            fits(self.q + dir_dq(m)),
            fits(self.r + dir_dr(m)),
        ensures
            a.q == self.q + dir_dq(m),
            a.r == self.r + dir_dr(m),
    {
        self.add(m.to_relative())
    }

    /// One step against direction `m`.
    pub fn back(self, m: HDir) -> (a: Axial)
        requires
            fits(self.q - dir_dq(m)),
            fits(self.r - dir_dr(m)),
        ensures
            a.q == self.q - dir_dq(m),
            a.r == self.r - dir_dr(m),
    {
        self.sub(&m.to_relative())
    }

    /// The componentwise difference.
    pub fn sub(self, o: &Axial) -> (a: Axial)
        requires
            fits(self.q - o.q),
            fits(self.r - o.r),
        ensures
            a.q == self.q - o.q,
            a.r == self.r - o.r,
    {
        Axial { q: self.q - o.q, r: self.r - o.r }
    }

    /// The componentwise sum.
    pub fn add(self, o: Axial) -> (a: Axial)
        requires
            fits(self.q + o.q),
            fits(self.r + o.r),
        ensures
            a.q == self.q + o.q,
            a.r == self.r + o.r,
    {
        Axial { q: self.q + o.q, r: self.r + o.r }
    }
}

/// Converting a table index to a coordinate and back gives the index again,
/// for every index whose row fits a coordinate.
pub proof fn lemma_index_roundtrip(i: int)
    requires
        0 <= i < 2176,
    ensures
        index_axial(i).q == i / 16 - 8,
        index_axial(i).r == i % 16 - 8,
        axial_index(index_axial(i)) == i,
{
}

/// Converting a coordinate of the board table to an index and back gives the
/// coordinate again.
pub proof fn lemma_axial_roundtrip(a: Axial)
    requires
        -8 <= a.q,
        -8 <= a.r < 8,
    ensures
        axial_index(a) >= 0,
        index_axial(axial_index(a)) == a,
{
    let i = axial_index(a);
    vstd::arithmetic::div_mod::lemma_fundamental_div_mod_converse(i, 16, a.q + 8, a.r + 8);
}

/// Writing a cell in text notation and reading it back gives the cell again.
pub proof fn lemma_letter_roundtrip(a: Axial, radius: i8)
    requires
        a != pass_move(),
        fits(a.r + radius),
        0 <= a.q + a.r + radius - 1 < 26,
    ensures
        ({
            let number = a.r + radius;
            let foo = LETTER_COORDINATES[a.q + number - 1];
            &&& 'A' <= foo <= 'Z'
            &&& foo as int - 'A' as int - number + 1 == a.q
            &&& number - radius == a.r
        }),
{
    let k = a.q + a.r + radius - 1;
    assert(LETTER_COORDINATES[k] as int == 'A' as int + k);
}


/// The character of decimal digit `d`.
pub open spec fn digit_char(d: int) -> char {
    ('0' as u32 + d) as char
}

/// The decimal digits of `n`, most significant first.
pub open spec fn digits(n: nat) -> Seq<char>
    decreases n,
{
    if n < 10 {
        seq![digit_char(n as int)]
    } else {
        digits(n / 10).push(digit_char((n % 10) as int))
    }
}

/// The decimal text of `n`, with a leading `-` when negative.
pub open spec fn decimal(n: int) -> Seq<char> {
    if n < 0 {
        seq!['-'] + digits((-n) as nat)
    } else {
        digits(n as nat)
    }
}

/// Appends `c` with `String::push`.
#[verifier::external_body]
pub(crate) fn push_char(s: &mut String, c: char)
    ensures
        final(s)@ == old(s)@.push(c),
{
    s.push(c);
}

/// The character of the digit `d`.
fn digit(d: u8) -> (c: char)
    requires
        d < 10,
    ensures
        c == digit_char(d as int),
{
    if d == 0 { '0' } else if d == 1 { '1' } else if d == 2 { '2' } else if d == 3 { '3' }
    else if d == 4 { '4' } else if d == 5 { '5' } else if d == 6 { '6' } else if d == 7 { '7' }
    else if d == 8 { '8' } else { '9' }
}

/// Appends the decimal text of `n`.
fn push_decimal(s: &mut String, n: i8)
    ensures
        final(s)@ == old(s)@ + decimal(n as int),
{
    let mut m: u8 = if n < 0 {
        push_char(s, '-');
        (-(n as i16)) as u8
    } else {
        n as u8
    };
    let ghost mm = m as nat;
    proof {
        reveal_with_fuel(digits, 3);
        assert(mm < 10 ==> digits(mm) == seq![digit_char(mm as int)]);
    }
    if m >= 100 {
        push_char(s, digit(m / 100));
        m = m % 100;
        push_char(s, digit(m / 10));
        push_char(s, digit(m % 10));
        proof {
            assert(digits(mm) == digits(mm / 10).push(digit_char((mm % 10) as int)));
            assert(digits(mm / 10) == digits(mm / 100).push(digit_char(((mm / 10) % 10) as int)));
            assert(digits(mm / 100) == seq![digit_char((mm / 100) as int)]);
        }
    } else if m >= 10 {
        push_char(s, digit(m / 10));
        push_char(s, digit(m % 10));
        proof {
            assert(digits(mm) == digits(mm / 10).push(digit_char((mm % 10) as int)));
            assert(digits(mm / 10) == seq![digit_char((mm / 10) as int)]);
        }
    } else {
        push_char(s, digit(m));
    }
    proof {
        assert(final(s)@ =~= old(s)@ + decimal(n as int));
    }
}

/// Things that can be written in the board's text notation.
pub trait HexDraw {
    /// Whether this can be written on a board of radius `radius`.
    spec fn drawable(&self, radius: i8) -> bool;

    /// The text of this on a board of radius `radius`.
    spec fn text(&self, radius: i8) -> Seq<char>;

    /// Writes this in text notation on a board of radius `radius`.
    fn fmt(&self, radius: i8) -> (s: String)
        requires
            self.drawable(radius),
        ensures
            s@ == self.text(radius),
    ;
}

/// The text of a cell: its column letter and row number, or `pp` for the pass.
pub open spec fn axial_text(a: Axial, radius: i8) -> Seq<char> {
    if a == pass_move() {
        seq!['p', 'p']
    } else {
        seq![LETTER_COORDINATES[a.q + a.r + radius - 1]] + decimal(a.r + radius)
    }
}

/// Whether a cell can be written on a board of radius `radius`.
pub open spec fn axial_drawable(a: Axial, radius: i8) -> bool {
    a != pass_move() ==> {
        &&& new_ok(a.q as int, a.r as int)
        &&& fits(a.r + radius)
        &&& 0 <= a.q + a.r + radius - 1 < 26
    }
}

impl HexDraw for Axial {
    open spec fn drawable(&self, radius: i8) -> bool {
        axial_drawable(*self, radius)
    }

    open spec fn text(&self, radius: i8) -> Seq<char> {
        axial_text(*self, radius)
    }

    fn fmt(&self, radius: i8) -> (s: String) {
        let mut s = String::new();
        match self.to_letter_coord(radius) {
            TextMove::Move(a, b) => {
                push_char(&mut s, a);
                push_decimal(&mut s, b);
                proof {
                    assert(s@ =~= axial_text(*self, radius));
                }
            },
            TextMove::Pass => {
                push_char(&mut s, 'p');
                push_char(&mut s, 'p');
                proof {
                    assert(s@ =~= axial_text(*self, radius));
                }
            },
        }
        s
    }
}

/// The text of a list: `[`, then each element followed by `,`, then `]`.
pub open spec fn list_text<H: HexDraw>(v: Seq<H>, radius: i8) -> Seq<char>
    decreases v.len(),
{
    if v.len() == 0 {
        seq!['[']
    } else {
        list_text(v.drop_last(), radius) + v.last().text(radius) + seq![',']
    }
}

/// Appends `t` to `s`.
fn append_string(s: &mut String, t: &String)
    ensures
        final(s)@ == old(s)@ + t@,
{
    s.append(t.as_str());
}

impl<H: HexDraw> HexDraw for Vec<H> {
    open spec fn drawable(&self, radius: i8) -> bool {
        forall|k: int| 0 <= k < self.len() ==> (#[trigger] self@[k]).drawable(radius)
    }

    open spec fn text(&self, radius: i8) -> Seq<char> {
        list_text(self@, radius) + seq![']']
    }

    fn fmt(&self, radius: i8) -> (s: String) {
        let mut s = String::new();
        push_char(&mut s, '[');
        let mut k: usize = 0;
        while k < self.len()
            invariant
                k <= self.len(),
                forall|j: int| 0 <= j < self.len() ==> (#[trigger] self@[j]).drawable(radius),
                s@ == list_text(self@.subrange(0, k as int), radius),
            decreases self.len() - k,
        {
            let t = self[k].fmt(radius);
            append_string(&mut s, &t);
            push_char(&mut s, ',');
            proof {
                assert(self@.subrange(0, k + 1).drop_last() =~= self@.subrange(0, k as int));
                assert(s@ =~= list_text(self@.subrange(0, k + 1), radius));
            }
            k = k + 1;
        }
        push_char(&mut s, ']');
        proof {
            assert(self@.subrange(0, self.len() as int) =~= self@);
        }
        s
    }
}

/// Something drawable together with the board radius to write it for.
pub struct Displayer<'a, H> {
    ax: &'a H,
    radius: i8,
}

impl<'a, H: HexDraw> Displayer<'a, H> {
    /// The value shown.
    pub closed spec fn shown(&self) -> &'a H {
        self.ax
    }

    /// The board radius used.
    pub closed spec fn shown_radius(&self) -> i8 {
        self.radius
    }

    /// The text notation of the value shown.
    pub fn to_string(&self) -> (s: String)
        requires
            self.shown().drawable(self.shown_radius()),
        ensures
            s@ == self.shown().text(self.shown_radius()),
    {
        self.ax.fmt(self.radius)
    }
}

/// Shows `a` in text notation for a board of radius `radius`.
pub fn disp<'a, H: HexDraw>(a: &'a H, radius: i8) -> (d: Displayer<'a, H>)
    ensures
        d.shown() == a,
        d.shown_radius() == radius,
{
    Displayer { ax: a, radius }
}

impl Axial {
    /// Shows this cell in text notation for a board of radius `radius`.
    pub fn disp<'a>(&'a self, radius: i8) -> (d: Displayer<'a, Axial>)
        ensures
            d.shown() == self,
            d.shown_radius() == radius,
    {
        Displayer { ax: self, radius }
    }
}


/// Whether `a` lies within the 32 by 16 board table.
pub fn in_table_check(a: Axial) -> (b: bool)
    ensures
        b == in_table(a),
{
    -8 <= a.q && a.q < 24 && -8 <= a.r && a.r < 8
}

} // verus!
