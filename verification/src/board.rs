//! The hexagonal board: its cells in the board table, distances to its border
//! along each direction, and the text form of a starting position.
use vstd::prelude::*;
use rand::Rng;
use crate::hex::{axial_index, dir_index, fits, in_hexagon, lemma_axial_roundtrip, offset_cube, Axial, Cube, HDir};
use crate::mesh::{SmallMesh, TABLE_SIZE};
use crate::hex::push_char;
use crate::unit::{height_num, GameCell, GameState, Piece, StackHeight, Team};

verus! {

/// Whether table index `i` is a cell of the hexagon of radius `r` about the origin.
pub open spec fn land_cell(i: int, r: int) -> bool {
    0 <= i < TABLE_SIZE && in_hexagon(i / 16 - 8, i % 16 - 8, r)
}

/// Whether `lv` lists, in increasing order, exactly the indices `i < TABLE_SIZE`
/// with `p(i)`.
pub open spec fn enumerates(lv: Seq<usize>, p: spec_fn(int) -> bool) -> bool {
    &&& forall|k: int| 0 <= k < lv.len() ==> #[trigger] lv[k] < TABLE_SIZE && p(lv[k] as int)
    &&& forall|k1: int, k2: int| 0 <= k1 < k2 < lv.len() ==> #[trigger] lv[k1] < #[trigger] lv[k2]
    &&& forall|i: int| 0 <= i < TABLE_SIZE && #[trigger] p(i) ==> lv.contains(i as usize)
}

/// Two increasing listings of the same indices are the same listing.
pub proof fn lemma_enumeration_unique(a: Seq<usize>, b: Seq<usize>, p: spec_fn(int) -> bool)
    requires
        enumerates(a, p),
        enumerates(b, p),
    ensures
        a == b,
    decreases a.len() + b.len(),
{
    if a.len() == 0 {
        if b.len() > 0 {
            assert(p(b[0] as int));
            assert(a.contains(b[0]));
        }
        assert(a =~= b);
    } else if b.len() == 0 {
        assert(p(a[0] as int));
        assert(b.contains(a[0]));
    } else {
        // Both start with the least index satisfying `p`.
        assert(p(a[0] as int));
        assert(b.contains(a[0]));
        let kb = choose|k: int| 0 <= k < b.len() && b[k] == a[0];
        assert(p(b[0] as int));
        assert(a.contains(b[0]));
        let ka = choose|k: int| 0 <= k < a.len() && a[k] == b[0];
        if ka > 0 {
            assert(a[0] < a[ka]);
            if kb > 0 {
                assert(b[0] < b[kb]);
            }
        }
        assert(a[0] == b[0]);
        let a2 = a.drop_first();
        let b2 = b.drop_first();
        let first = a[0];
        let q = |i: int| p(i) && i != first as int;
        assert forall|i: int| 0 <= i < TABLE_SIZE && #[trigger] q(i) implies a2.contains(
            i as usize,
        ) by {
            assert(a.contains(i as usize));
            let k = choose|k: int| 0 <= k < a.len() && a[k] == i as usize;
            assert(k != 0);
            assert(a2[k - 1] == a[k]);
        }
        assert forall|i: int| 0 <= i < TABLE_SIZE && #[trigger] q(i) implies b2.contains(
            i as usize,
        ) by {
            assert(b.contains(i as usize));
            let k = choose|k: int| 0 <= k < b.len() && b[k] == i as usize;
            assert(k != 0);
            assert(b2[k - 1] == b[k]);
        }
        assert forall|k: int| 0 <= k < a2.len() implies #[trigger] a2[k] < TABLE_SIZE && q(
            a2[k] as int,
        ) by {
            assert(a[0] < a[k + 1]);
        }
        assert forall|k: int| 0 <= k < b2.len() implies #[trigger] b2[k] < TABLE_SIZE && q(
            b2[k] as int,
        ) by {
            assert(b[0] < b[k + 1]);
        }
        assert forall|k1: int, k2: int| 0 <= k1 < k2 < a2.len() implies #[trigger] a2[k1]
            < #[trigger] a2[k2] by {
            assert(a[k1 + 1] < a[k2 + 1]);
        }
        assert forall|k1: int, k2: int| 0 <= k1 < k2 < b2.len() implies #[trigger] b2[k1]
            < #[trigger] b2[k2] by {
            assert(b[k1 + 1] < b[k2 + 1]);
        }
        lemma_enumeration_unique(a2, b2, q);
        assert forall|k: int| 0 <= k < a.len() implies a[k] == b[k] by {
            if k > 0 {
                assert(a[k] == a2[k - 1]);
                assert(b[k] == b2[k - 1]);
            }
        }
        assert(a =~= b);
    }
}

/// Steps between each direction's neighbours in the board table.
pub const STRIDES: [i32; 6] = [16, 15, -1, -16, -15, 1];

/// The change of table index for one step in direction `d`.
pub open spec fn stride(d: HDir) -> int {
    match d {
        HDir::BottomRight => 16,
        HDir::Bottom => 15,
        HDir::BottomLeft => -1,
        HDir::TopLeft => -16,
        HDir::Top => -15,
        HDir::TopRight => 1,
    }
}

pub open spec fn max0(x: int) -> int {
    if x > 0 {
        x
    } else {
        0
    }
}

/// The coordinate that a step in direction `d` increases, for the
/// distance-to-border formula.
pub open spec fn border_lead(q: int, r: int, d: HDir) -> int {
    let s = -q - r;
    match d {
        HDir::BottomRight => q,
        HDir::Bottom => q,
        HDir::BottomLeft => s,
        HDir::TopLeft => s,
        HDir::Top => r,
        HDir::TopRight => r,
    }
}

/// The coordinate whose positive part also limits a walk in direction `d`.
pub open spec fn border_side(q: int, r: int, d: HDir) -> int {
    let s = -q - r;
    match d {
        HDir::BottomRight => r,
        HDir::Bottom => s,
        HDir::BottomLeft => q,
        HDir::TopLeft => r,
        HDir::Top => s,
        HDir::TopRight => q,
    }
}

/// The distance-to-border value of `dis_to_hex_of_hexagon`: for a cell of the
/// hexagon of radius `radius - 1`, one more than the number of steps in
/// direction `d` that stay in that hexagon.
pub open spec fn hex_dis(q: int, r: int, d: HDir, radius: int) -> int {
    radius - border_lead(q, r, d) - max0(border_side(q, r, d))
}

/// The distance from `a` to the border of the hexagon of radius `radius`
/// in direction `dir`, counted as in the board's line-of-sight walks.
pub fn dis_to_hex_of_hexagon(a: Axial, dir: HDir, radius: i8) -> (d: i8)
    requires
        fits(a.q as int) && a.q != -128 && fits(-a.q - a.r),
        fits(radius - border_lead(a.q as int, a.r as int, dir)),
        fits(hex_dis(a.q as int, a.r as int, dir, radius as int)),
    ensures
        d == hex_dis(a.q as int, a.r as int, dir, radius as int),
{
    let a = a.to_cube();
    let mq: i8 = if a.ax.q > 0 { a.ax.q } else { 0 };
    let mr: i8 = if a.ax.r > 0 { a.ax.r } else { 0 };
    let ms: i8 = if a.s > 0 { a.s } else { 0 };
    match dir {
        HDir::BottomRight => radius - a.ax.q - mr,
        HDir::Bottom => radius - a.ax.q - ms,
        HDir::BottomLeft => radius - a.s - mq,
        HDir::TopLeft => radius - a.s - mr,
        HDir::Top => radius - a.ax.r - ms,
        HDir::TopRight => radius - a.ax.r - mq,
    }
}

/// The change of table index for one step in direction `a`.
pub fn determine_stride(a: HDir) -> (s: i32)
    ensures
        s == stride(a),
        s == STRIDES[dir_index(a)],
{
    match a {
        HDir::BottomRight => 16,
        HDir::Bottom => 15,
        HDir::BottomLeft => -1,
        HDir::TopLeft => -16,
        HDir::Top => -15,
        HDir::TopRight => 1,
    }
}

/// The cells of the hexagon of radius `r` about the origin.
pub fn hexagon_land(r: i8) -> (m: SmallMesh)
    requires
        -1 <= r <= 7,
    ensures
        forall|i: int| 0 <= i < TABLE_SIZE ==> (#[trigger] m@[i] <==> land_cell(i, r as int)),
{
    let origin = Cube::new(0, 0);
    let cells = origin.range(r);
    let mut axs: Vec<Axial> = Vec::new();
    let mut k: usize = 0;
    while k < cells.len()
        invariant
            k <= cells.len(),
            -1 <= r <= 7,
            origin.ax.q == 0 && origin.ax.r == 0 && origin.s == 0,
            axs.len() == k,
            forall|j: int| 0 <= j < k ==> #[trigger] axs[j] == cells[j].ax,
            forall|j: int|
                0 <= j < cells.len() ==> {
                    let dq = cells[j].ax.q - origin.ax.q;
                    let dr = cells[j].ax.r - origin.ax.r;
                    &&& in_hexagon(dq, dr, r as int)
                    &&& #[trigger] cells[j] == offset_cube(origin, dq, dr)
                },
        decreases cells.len() - k,
    {
        axs.push(cells[k].to_axial());
        k = k + 1;
    }
    assert forall|j: int| 0 <= j < axs.len() implies crate::mesh::valid_rel(#[trigger] axs[j]) by {
        assert(cells[j] == offset_cube(origin, cells[j].ax.q as int, cells[j].ax.r as int));
    }
    let m = SmallMesh::from_iter(&axs);
    assert forall|i: int| 0 <= i < TABLE_SIZE implies (#[trigger] m@[i] <==> land_cell(i, r as int)) by {
        if land_cell(i, r as int) {
            let dq = i / 16 - 8;
            let dr = i % 16 - 8;
            assert(crate::hex::in_hexagon(dq, dr, r as int) && crate::hex::lex_less(dq, dr, r + 1, 0));
            let j = choose|j: int| 0 <= j < cells.len() && #[trigger] cells[j] == offset_cube(origin, dq, dr);
            assert(axs[j] == cells[j].ax);
            assert(axial_index(axs[j]) == i);
        }
        if m@[i] {
            let j = choose|j: int| 0 <= j < axs.len() && axial_index(#[trigger] axs[j]) == i;
            assert(cells[j] == offset_cube(origin, cells[j].ax.q as int, cells[j].ax.r as int));
            lemma_axial_roundtrip(axs[j]);
        }
    }
    m
}

/// `rand::thread_rng().gen_range(0..n)`: a random integer below `n`.
#[verifier::external_body]
fn random_below(n: u64) -> (v: u64)
    requires
        n > 0,
    ensures
        v < n,
{
    rand::thread_rng().gen_range(0..n)
}

/// A random choice among the board layouts.
#[derive(Clone, Debug, Hash, Eq, PartialEq, Structural)]
pub struct WorldSeed {
    foo: u64,
}

impl WorldSeed {
    /// The number that picks the layout.
    pub closed spec fn value(&self) -> u64 {
        self.foo
    }

    /// A seed drawn at random from `0..180`.
    pub fn new() -> (w: WorldSeed)
        ensures
            w.value() < 180,
    {
        let num = random_below(180);
        WorldSeed { foo: num }
    }
}

impl Default for WorldSeed {
    fn default() -> (w: WorldSeed)
        ensures
            w.value() < 180,
    {
        Self::new()
    }
}

/// The board: its cells, its radius and the position a game starts from.
#[derive(Clone)]
pub struct MyWorld {
    pub land: SmallMesh,
    pub radius: u8,
    pub starting_state: GameState,
    pub land_as_vec: Vec<usize>,
}

/// The land cells of a board of radius `radius`: the hexagon of radius `radius - 1`.
pub open spec fn is_land(radius: int) -> spec_fn(int) -> bool {
    |i: int| land_cell(i, radius - 1)
}

impl MyWorld {
    /// The land is the hexagon of radius `radius - 1`, listed in increasing
    /// order in `land_as_vec`, and the starting position covers the table.
    pub open spec fn wf(&self) -> bool {
        &&& self.radius <= 8
        &&& forall|i: int|
            0 <= i < TABLE_SIZE ==> (#[trigger] self.land@[i] <==> land_cell(
                i,
                self.radius - 1,
            ))
        &&& enumerates(self.land_as_vec@, is_land(self.radius as int))
        &&& self.starting_state.factions.wf()
    }

    /// The land cells.
    pub fn get_game_cells(&self) -> (m: &SmallMesh)
        ensures
            m == &self.land,
    {
        &self.land
    }
}

/// The piece that a character of the text form stands for: `j`..`o` neutral
/// stacks of one to six, `r`..`w` white, `b`..`g` black, `x` and `y` the white
/// and black lighthouses (stacks of zero).
pub open spec fn char_piece(c: char) -> Option<(StackHeight, Team)> {
    if c == 'j' { Some((StackHeight::Stack1, Team::Neutral)) }
    else if c == 'k' { Some((StackHeight::Stack2, Team::Neutral)) }
    else if c == 'l' { Some((StackHeight::Stack3, Team::Neutral)) }
    else if c == 'm' { Some((StackHeight::Stack4, Team::Neutral)) }
    else if c == 'n' { Some((StackHeight::Stack5, Team::Neutral)) }
    else if c == 'o' { Some((StackHeight::Stack6, Team::Neutral)) }
    else if c == 'r' { Some((StackHeight::Stack1, Team::White)) }
    else if c == 's' { Some((StackHeight::Stack2, Team::White)) }
    else if c == 't' { Some((StackHeight::Stack3, Team::White)) }
    else if c == 'u' { Some((StackHeight::Stack4, Team::White)) }
    else if c == 'v' { Some((StackHeight::Stack5, Team::White)) }
    else if c == 'w' { Some((StackHeight::Stack6, Team::White)) }
    else if c == 'b' { Some((StackHeight::Stack1, Team::Black)) }
    else if c == 'c' { Some((StackHeight::Stack2, Team::Black)) }
    else if c == 'd' { Some((StackHeight::Stack3, Team::Black)) }
    else if c == 'e' { Some((StackHeight::Stack4, Team::Black)) }
    else if c == 'f' { Some((StackHeight::Stack5, Team::Black)) }
    else if c == 'g' { Some((StackHeight::Stack6, Team::Black)) }
    else if c == 'x' { Some((StackHeight::Stack0, Team::White)) }
    else if c == 'y' { Some((StackHeight::Stack0, Team::Black)) }
    else { None }
}

/// The first letter of a team's stacks in the text form, the one for a
/// stack of one: `j` for neutral, `r` for white, `b` for black.
pub open spec fn first_letter(t: Team) -> u32 {
    match t {
        Team::Neutral => 106,
        Team::White => 114,
        Team::Black => 98,
    }
}

/// The letters of a team's stacks follow the alphabet by height: the stack
/// of height `h` (one to six) is written, and read back, as the letter
/// `h - 1` places after the team's first letter (`j`, `r` or `b`).
pub proof fn lemma_letters_by_height(h: int, t: Team)
    requires
        1 <= h <= 6,
    ensures
        ({
            let c = ((first_letter(t) + (h - 1)) as u32) as char;
            &&& stack_char(h, t) == Some(c)
            &&& char_piece(c) matches Some((sh, tt)) && tt == t && height_num(sh) == h
        }),
{
    assert('j' as u32 == 106 && 'r' as u32 == 114 && 'b' as u32 == 98);
    let c = ((first_letter(t) + (h - 1)) as u32) as char;
    match t {
        Team::Neutral => {
            if h == 1 { assert(c == 'j'); } else if h == 2 { assert(c == 'k'); } else if h == 3 { assert(c == 'l'); }
            else if h == 4 { assert(c == 'm'); } else if h == 5 { assert(c == 'n'); } else { assert(c == 'o'); }
        },
        Team::White => {
            if h == 1 { assert(c == 'r'); } else if h == 2 { assert(c == 's'); } else if h == 3 { assert(c == 't'); }
            else if h == 4 { assert(c == 'u'); } else if h == 5 { assert(c == 'v'); } else { assert(c == 'w'); }
        },
        Team::Black => {
            if h == 1 { assert(c == 'b'); } else if h == 2 { assert(c == 'c'); } else if h == 3 { assert(c == 'd'); }
            else if h == 4 { assert(c == 'e'); } else if h == 5 { assert(c == 'f'); } else { assert(c == 'g'); }
        },
    }
}

/// The lighthouses are written `x` (white) and `y` (black), and no other
/// letter stands for a stack of zero.
pub proof fn lemma_lighthouse_letters(c: char)
    ensures
        char_piece('x') == Some((StackHeight::Stack0, Team::White)),
        char_piece('y') == Some((StackHeight::Stack0, Team::Black)),
        (char_piece(c) matches Some((sh, _)) && sh == StackHeight::Stack0) ==> c == 'x' || c == 'y',
{
}

/// Whether `c` may appear in the text form: a piece or `-` for an empty cell.
pub open spec fn char_ok(c: char) -> bool {
    c == '-' || char_piece(c).is_some()
}

/// The cell that character `c` describes; lighthouses are the stacks of zero.
pub open spec fn cell_of_char(c: char) -> GameCell<Piece> {
    match char_piece(c) {
        Some((h, t)) => GameCell::Piece(
            Piece { height: h, team: t, has_lighthouse: h == StackHeight::Stack0 },
        ),
        None => GameCell::Empty,
    }
}

/// Whether `size` is the board radius for a text form of `len` characters:
/// the least `size` with `3 * size * size >= len`.
pub open spec fn size_for(size: int, len: int) -> bool {
    0 <= size && 3 * (size * size) >= len && (size == 0 || 3 * ((size - 1) * (size - 1)) < len)
}

/// Whether the text form `s` describes a board: at most eight rings, one
/// character per land cell and only characters of the text form.
pub open spec fn loadable(s: Seq<char>) -> bool {
    &&& s.len() <= 192
    &&& forall|size: int, lv: Seq<usize>|
        size_for(size, s.len() as int) && #[trigger] enumerates(lv, is_land(size)) ==> lv.len()
            == s.len()
    &&& forall|k: int| 0 <= k < s.len() ==> char_ok(#[trigger] s[k])
}

/// The piece and team of a character of the text form.
fn piece_of_char(c: char) -> (r: Option<(StackHeight, Team)>)
    ensures
        r == char_piece(c),
{
    match c {
        'j' => Some((StackHeight::Stack1, Team::Neutral)),
        'k' => Some((StackHeight::Stack2, Team::Neutral)),
        'l' => Some((StackHeight::Stack3, Team::Neutral)),
        'm' => Some((StackHeight::Stack4, Team::Neutral)),
        'n' => Some((StackHeight::Stack5, Team::Neutral)),
        'o' => Some((StackHeight::Stack6, Team::Neutral)),
        'r' => Some((StackHeight::Stack1, Team::White)),
        's' => Some((StackHeight::Stack2, Team::White)),
        't' => Some((StackHeight::Stack3, Team::White)),
        'u' => Some((StackHeight::Stack4, Team::White)),
        'v' => Some((StackHeight::Stack5, Team::White)),
        'w' => Some((StackHeight::Stack6, Team::White)),
        'b' => Some((StackHeight::Stack1, Team::Black)),
        'c' => Some((StackHeight::Stack2, Team::Black)),
        'd' => Some((StackHeight::Stack3, Team::Black)),
        'e' => Some((StackHeight::Stack4, Team::Black)),
        'f' => Some((StackHeight::Stack5, Team::Black)),
        'g' => Some((StackHeight::Stack6, Team::Black)),
        'x' => Some((StackHeight::Stack0, Team::White)),
        'y' => Some((StackHeight::Stack0, Team::Black)),
        _ => None,
    }
}

impl MyWorld {
    /// Reads a board from its text form: one character per land cell, in
    /// increasing table order. The board has the least radius `size` with
    /// `3 * size * size >= s.len()`; its land is the hexagon of radius `size - 1`.
    pub fn load_from_string(s: &str) -> (res: Option<MyWorld>)
        ensures
            res.is_some() == loadable(s@),
            res matches Some(w) ==> {
                &&& w.wf()
                &&& size_for(w.radius as int, s@.len() as int)
                &&& w.land_as_vec.len() == s@.len()
                &&& forall|k: int|
                    0 <= k < s@.len() ==> #[trigger] w.starting_state.factions.cells[w.land_as_vec[k] as int]
                        == cell_of_char(s@[k])
                &&& forall|i: int|
                    0 <= i < TABLE_SIZE && !land_cell(i, w.radius - 1)
                        ==> #[trigger] w.starting_state.factions.cells[i] == GameCell::<Piece>::Empty
            },
    {
        let len = s.unicode_len();
        let mut size: usize = 0;
        let mut sq: usize = 0;
        while size <= 8 && 3 * sq < len
            invariant
                size <= 9,
                sq == size * size,
                sq <= 81,
                size == 0 || 3 * ((size - 1) * (size - 1)) < len,
            decreases 9 - size,
        {
            assert((size + 1) * (size + 1) == size * size + 2 * size + 1) by (nonlinear_arith);
            assert(size * size <= 64) by (nonlinear_arith)
                requires
                    size <= 8,
            ;
            size = size + 1;
            assert(size * size <= 81) by (nonlinear_arith)
                requires
                    size <= 9,
            ;
            sq = size * size;
        }
        if size > 8 {
            proof {
                assert(3 * (8 * 8) < len);
            }
            return None;
        }
        assert(size_for(size as int, len as int));
        let land = hexagon_land(size as i8 - 1);
        let land_as_vec = land.iter_ones();
        proof {
            assert forall|k: int| 0 <= k < land_as_vec.len() implies #[trigger] land_as_vec[k] < TABLE_SIZE
                && is_land(size as int)(land_as_vec[k] as int) by {}
            assert forall|i: int| 0 <= i < TABLE_SIZE && #[trigger] is_land(size as int)(i) implies land_as_vec@.contains(i as usize) by {
                assert(land@[i]);
            }
            assert(enumerates(land_as_vec@, is_land(size as int)));
            assert forall|sz: int, lv: Seq<usize>|
                size_for(sz, len as int) && #[trigger] enumerates(lv, is_land(sz)) implies lv == land_as_vec@ by {
                lemma_size_unique(sz, size as int, len as int);
                lemma_enumeration_unique(lv, land_as_vec@, is_land(size as int));
            }
        }
        if land_as_vec.len() != len {
            return None;
        }
        let mut g = GameState::new();
        let mut k: usize = 0;
        while k < len
            invariant
                k <= len,
                len == s@.len(),
                land_as_vec.len() == len,
                g.factions.wf(),
                enumerates(land_as_vec@, is_land(size as int)),
                forall|j: int| 0 <= j < k ==> char_ok(#[trigger] s@[j]),
                forall|j: int|
                    0 <= j < k ==> #[trigger] g.factions.cells[land_as_vec[j] as int] == cell_of_char(s@[j]),
                forall|i: int|
                    0 <= i < TABLE_SIZE && (forall|j: int| 0 <= j < k ==> land_as_vec[j] != i)
                        ==> #[trigger] g.factions.cells[i] == GameCell::<Piece>::Empty,
            decreases len - k,
        {
            let c = s.get_char(k);
            let i = land_as_vec[k];
            if c != '-' {
                match piece_of_char(c) {
                    Some((stack, team)) => {
                        let lighthouse = match stack {
                            StackHeight::Stack0 => true,
                            _ => false,
                        };
                        g.factions.add_cell_inner(i, stack, team, lighthouse);
                    },
                    None => {
                        return None;
                    },
                }
            }
            proof {
                assert forall|j: int| 0 <= j < k + 1 implies #[trigger] g.factions.cells[land_as_vec[j] as int]
                    == cell_of_char(s@[j]) by {
                    if j < k {
                        assert(land_as_vec[j] < land_as_vec[k as int]);
                    }
                }
                assert forall|ii: int|
                    0 <= ii < TABLE_SIZE && (forall|j: int| 0 <= j < k + 1 ==> land_as_vec[j] != ii)
                    implies #[trigger] g.factions.cells[ii] == GameCell::<Piece>::Empty by {
                    assert(land_as_vec[k as int] != ii);
                }
            }
            k = k + 1;
        }
        let w = MyWorld { land, radius: size as u8, starting_state: g, land_as_vec };
        proof {
            assert(size * size <= 64) by (nonlinear_arith)
                requires
                    size <= 8,
            ;
            assert(s@.len() <= 192);
            assert(loadable(s@));
            assert forall|ii: int| 0 <= ii < TABLE_SIZE && !land_cell(ii, w.radius - 1)
                implies #[trigger] w.starting_state.factions.cells[ii] == GameCell::<Piece>::Empty by {
                assert forall|j: int| 0 <= j < len implies w.land_as_vec[j] != ii by {
                    assert(is_land(size as int)(w.land_as_vec[j] as int));
                }
            }
        }
        Some(w)
    }
}

/// At most one radius suits a given length of text form.
pub proof fn lemma_size_unique(a: int, b: int, len: int)
    requires
        size_for(a, len),
        size_for(b, len),
    ensures
        a == b,
{
    if a < b {
        assert(3 * ((b - 1) * (b - 1)) >= 3 * (a * a)) by (nonlinear_arith)
            requires
                0 <= a <= b - 1,
        ;
    } else if b < a {
        assert(3 * ((a - 1) * (a - 1)) >= 3 * (b * b)) by (nonlinear_arith)
            requires
                0 <= b <= a - 1,
        ;
    }
}

/// The table index `k` steps from index `i` in direction `d`.
pub open spec fn ray_index(i: int, d: HDir, k: int) -> int {
    i + k * stride(d)
}

/// Walking `k` steps from a land cell, short of the border distance, stays on
/// land, and the table index moves by `k` strides.
pub proof fn lemma_ray_in_land(i: int, d: HDir, radius: int, k: int)
    requires
        radius <= 8,
        land_cell(i, radius - 1),
        0 <= k < hex_dis(i / 16 - 8, i % 16 - 8, d, radius),
    ensures
        land_cell(ray_index(i, d, k), radius - 1),
        ray_index(i, d, k) / 16 - 8 == i / 16 - 8 + crate::hex::steps(k, crate::hex::dir_dq(d)),
        ray_index(i, d, k) % 16 - 8 == i % 16 - 8 + crate::hex::steps(k, crate::hex::dir_dr(d)),
{
    let q = i / 16 - 8;
    let r = i % 16 - 8;
    let q2 = q + crate::hex::steps(k, crate::hex::dir_dq(d));
    let r2 = r + crate::hex::steps(k, crate::hex::dir_dr(d));
    assert(in_hexagon(q2, r2, radius - 1));
    vstd::arithmetic::div_mod::lemma_fundamental_div_mod(i, 16);
    assert(i == (q + 8) * 16 + (r + 8));
    match d {
        HDir::BottomRight => assert(k * stride(d) == k * 16),
        HDir::Bottom => assert(k * stride(d) == k * 15),
        HDir::BottomLeft => {
            assert(k * -1 == -k) by (nonlinear_arith);
        },
        HDir::TopLeft => {
            assert(k * -16 == -k * 16) by (nonlinear_arith);
        },
        HDir::Top => {
            assert(k * -15 == -k * 15) by (nonlinear_arith);
        },
        HDir::TopRight => assert(k * stride(d) == k),
    }
    assert(ray_index(i, d, k) == (q2 + 8) * 16 + (r2 + 8));
    vstd::arithmetic::div_mod::lemma_fundamental_div_mod_converse(ray_index(i, d, k), 16, q2 + 8, r2 + 8);
}

/// The walk from a land cell leaves the land at the border distance.
pub proof fn lemma_ray_leaves_land(i: int, d: HDir, radius: int)
    requires
        radius <= 8,
        land_cell(i, radius - 1),
    ensures
        hex_dis(i / 16 - 8, i % 16 - 8, d, radius) >= 1,
        ({
            let k = hex_dis(i / 16 - 8, i % 16 - 8, d, radius);
            !in_hexagon(
                i / 16 - 8 + crate::hex::steps(k, crate::hex::dir_dq(d)),
                i % 16 - 8 + crate::hex::steps(k, crate::hex::dir_dr(d)),
                radius - 1,
            )
        }),
{
}


/// The character of the text form for a stack of height `h` and team `t`;
/// stacks of zero (lighthouses) have none.
pub open spec fn stack_char(h: int, t: Team) -> Option<char> {
    if h < 1 || h > 6 {
        None
    } else {
        let k = (h - 1) as u32;
        match t {
            Team::Neutral => Some(('j' as u32 + k) as char),
            Team::White => Some(('r' as u32 + k) as char),
            Team::Black => Some(('b' as u32 + k) as char),
        }
    }
}

/// The character written for a cell: `_` when empty, the stack's character
/// otherwise, or none for a stack of zero.
pub open spec fn cell_char(c: GameCell<Piece>) -> Option<char> {
    match c {
        GameCell::Piece(p) => stack_char(height_num(p.height), p.team),
        GameCell::Empty => Some('_'),
    }
}

/// The text of the cells listed in `lv`.
pub open spec fn cells_text(cells: Seq<GameCell<Piece>>, lv: Seq<usize>) -> Seq<char>
    decreases lv.len(),
{
    if lv.len() == 0 {
        Seq::empty()
    } else {
        let rest = cells_text(cells, lv.drop_last());
        match cell_char(cells[lv.last() as int]) {
            Some(ch) => rest.push(ch),
            None => rest,
        }
    }
}

/// The character for a stack of height `h` (from one to six) of team `t`.
fn stack_letter(h: i8, t: Team) -> (c: char)
    requires
        1 <= h <= 6,
    ensures
        Some(c) == stack_char(h as int, t),
{
    let base: u32 = match t {
        Team::Neutral => 'j' as u32,
        Team::White => 'r' as u32,
        Team::Black => 'b' as u32,
    };
    let k: u32 = (h - 1) as u32;
    let v = base + k;
    let c = if v == 'j' as u32 { 'j' } else if v == 'k' as u32 { 'k' } else if v == 'l' as u32 { 'l' }
        else if v == 'm' as u32 { 'm' } else if v == 'n' as u32 { 'n' } else if v == 'o' as u32 { 'o' }
        else if v == 'r' as u32 { 'r' } else if v == 's' as u32 { 's' } else if v == 't' as u32 { 't' }
        else if v == 'u' as u32 { 'u' } else if v == 'v' as u32 { 'v' } else if v == 'w' as u32 { 'w' }
        else if v == 'b' as u32 { 'b' } else if v == 'c' as u32 { 'c' } else if v == 'd' as u32 { 'd' }
        else if v == 'e' as u32 { 'e' } else if v == 'f' as u32 { 'f' } else { 'g' };
    c
}

impl GameState {
    /// The text form of the position: one character per land cell in table
    /// order, `_` for an empty cell; stacks of zero are left out.
    pub fn into_string(&self, world: &MyWorld) -> (s: String)
        requires
            self.factions.wf(),
            world.wf(),
        ensures
            s@ == cells_text(self.factions.cells@, world.land_as_vec@),
    {
        let ghost cells = self.factions.cells@;
        let ghost radius = world.radius as int;
        let ones = world.get_game_cells().iter_ones();
        proof {
            assert(enumerates(ones@, is_land(radius))) by {
                assert forall|i: int| 0 <= i < TABLE_SIZE && #[trigger] is_land(radius)(i) implies ones@.contains(i as usize) by {
                    assert(world.land@[i]);
                }
                assert forall|k: int| 0 <= k < ones.len() implies #[trigger] ones@[k] < TABLE_SIZE && is_land(radius)(ones@[k] as int) by {
                    assert(world.land@[ones[k] as int]);
                }
            }
            lemma_enumeration_unique(ones@, world.land_as_vec@, is_land(radius));
        }
        let mut ret = String::new();
        let mut k: usize = 0;
        while k < ones.len()
            invariant
                self.factions.wf(),
                world.wf(),
                cells == self.factions.cells@,
                radius == world.radius as int,
                enumerates(ones@, is_land(radius)),
                k <= ones.len(),
                ret@ == cells_text(cells, ones@.subrange(0, k as int)),
            decreases ones.len() - k,
        {
            let index = ones[k];
            proof {
                assert(is_land(radius)(index as int));
                crate::unit::lemma_land_not_pass(index as int, radius);
                assert(ones@.subrange(0, k + 1).drop_last() =~= ones@.subrange(0, k as int));
                assert(ones@.subrange(0, k + 1).last() == index);
            }
            match self.factions.get_cell_inner(index) {
                GameCell::Piece(p) => {
                    let h = p.height.to_num();
                    if h >= 1 {
                        let c = stack_letter(h, p.team);
                        push_char(&mut ret, c);
                    }
                },
                GameCell::Empty => {
                    push_char(&mut ret, '_');
                },
            }
            k = k + 1;
        }
        proof {
            assert(ones@.subrange(0, ones.len() as int) =~= ones@);
        }
        ret
    }
}


impl MyWorld {
    /// Shows `foo` in text notation for this board.
    pub fn format<'a, H: crate::hex::HexDraw>(&self, foo: &'a H) -> (d: crate::hex::Displayer<'a, H>)
        ensures
            d.shown() == foo,
            d.shown_radius() == self.radius as i8,
    {
        crate::hex::disp(foo, self.radius as i8)
    }
}


/// The text a position loaded from `s` is written back as: `-` becomes `_`,
/// the lighthouses `x` and `y` are left out, every other character stays.
pub open spec fn reprinted(s: Seq<char>) -> Seq<char>
    decreases s.len(),
{
    if s.len() == 0 {
        Seq::empty()
    } else {
        let rest = reprinted(s.drop_last());
        let c = s.last();
        if c == '-' {
            rest.push('_')
        } else if c == 'x' || c == 'y' {
            rest
        } else {
            rest.push(c)
        }
    }
}

/// The character written for the cell that a character of the text form
/// describes.
proof fn lemma_char_back(c: char)
    requires
        char_ok(c),
    ensures
        cell_char(cell_of_char(c)) == if c == '-' {
            Some('_')
        } else if c == 'x' || c == 'y' {
            None
        } else {
            Some(c)
        },
{
}

/// Writing out a position read from a text form gives back that text, with
/// `-` written as `_` and the lighthouses left out.
pub proof fn lemma_text_form_roundtrip(s: Seq<char>, cells: Seq<GameCell<Piece>>, lv: Seq<usize>)
    requires
        lv.len() == s.len(),
        forall|k: int| 0 <= k < s.len() ==> char_ok(#[trigger] s[k]),
        forall|k: int| 0 <= k < s.len() ==> #[trigger] cells[lv[k] as int] == cell_of_char(s[k]),
    ensures
        cells_text(cells, lv) == reprinted(s),
    decreases s.len(),
{
    if s.len() > 0 {
        let n = s.len() - 1;
        assert forall|k: int| 0 <= k < n implies char_ok(#[trigger] s.drop_last()[k]) by {
            assert(s.drop_last()[k] == s[k]);
        }
        assert forall|k: int| 0 <= k < n implies #[trigger] cells[lv.drop_last()[k] as int] == cell_of_char(s.drop_last()[k]) by {
            assert(s.drop_last()[k] == s[k]);
            assert(lv.drop_last()[k] == lv[k]);
        }
        lemma_text_form_roundtrip(s.drop_last(), cells, lv.drop_last());
        assert(char_ok(s[n]));
        assert(cells[lv[n] as int] == cell_of_char(s[n]));
        lemma_char_back(s.last());
    }
}

} // verus!
