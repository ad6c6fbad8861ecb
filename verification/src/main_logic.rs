//! The decisions of the interactive game loop: what a click means while a
//! stack is selected, which cells a selected stack may move to, and taking
//! back the last two moves. Waiting for clicks, animating and drawing are
//! left to the caller, which passes the events in.
use vstd::prelude::*;
use crate::board::{land_cell, MyWorld};
use vstd::string::StringExecFns;
use crate::hex::{axial_index, Axial, PASS_MOVE_INDEX};
use crate::history::HistoryOneMove;
use crate::mesh::{SmallMesh, TABLE_SIZE};
use crate::move_build::{restored_cell, GenericMove, NormalMove, NormalMoveEffect};
use crate::moves::{Coordinate, SpokeInfo};
use crate::unit::{dark, first_piece, height_num, seen_count, seen_team, sight_in_table, walk_len, GameCell, GameState, GameStateTotal, Piece, StackHeight, Team};
use crate::moves::on_walk;
use crate::hex::dir_of_index;

verus! {

/// What the player is choosing: where the selected stack may go (with the
/// move already half made, if any), or where to build.
#[derive(Clone)]
pub enum CellSelection {
    MoveSelection(Axial, SmallMesh, Option<HaveMoved>),
    BuildSelection(Axial),
}

impl Default for CellSelection {
    /// Building at the origin.
    fn default() -> (c: CellSelection)
        ensures
            c matches CellSelection::BuildSelection(a) && a.q == 0 && a.r == 0,
    {
        CellSelection::BuildSelection(Axial { q: 0, r: 0 })
    }
}

/// An animation to show.
#[derive(Debug, Clone)]
pub enum AnimationCommand {
    Movement { unit: Axial, end: Axial },
    Terrain { pos: Axial, terrain_type: TerrainType, dir: AnimationDirection },
}

/// Whether terrain rises or sinks.
#[derive(Debug, Clone)]
pub enum AnimationDirection {
    Up,
    Down,
}

/// The kinds of terrain.
#[derive(Debug, Clone)]
pub enum TerrainType {
    Grass,
    Fog,
}

/// A move already made, with what it did.
#[derive(Clone, Debug)]
pub struct HaveMoved {
    pub the_move: Coordinate,
    pub effect: NormalMoveEffect,
}

/// A message between the game loop and the display, with the game and the
/// team it concerns.
pub struct GameWrap<T> {
    pub game: GameStateTotal,
    pub team: Team,
    pub data: T,
}

impl<T> GameWrap<T> {
    /// The same game and team with other data.
    pub fn with_data<K>(self, a: K) -> (w: GameWrap<K>)
        ensures
            w.game == self.game,
            w.team == self.team,
            w.data == a,
    {
        GameWrap { game: self.game, team: self.team, data: a }
    }
}

/// What the game loop asks of the display.
#[derive(Clone)]
pub enum Command {
    Animate(AnimationCommand),
    GetMouseInputSelection { selection: CellSelection, grey: bool },
    GetMouseInputNoSelect,
    WaitAI,
    ShowUndo,
    HideUndo,
    Popup(String),
    Poke,
    Wait,
    RepaintUI(String),
}

/// What the display answers.
#[derive(Debug)]
pub enum Response {
    Mouse(MouseEvent<Axial>),
    AnimationFinish,
    AiFinish(Coordinate),
    Ack,
}

/// A click on a cell, or on a named button.
#[derive(Debug)]
pub enum MouseEvent<T> {
    Normal(T),
    Button(String),
}

/// The stack the player has selected, and whose it is.
#[derive(Debug, Clone, Copy)]
pub struct SelectType {
    pub coord: Axial,
    pub team: Team,
}

/// How a round of selection ended.
#[derive(Debug)]
pub enum LoopRes<T> {
    EndTurn((Coordinate, NormalMoveEffect)),
    Deselect,
    Undo,
    Pass,
    Select(T),
}

/// What to do after a click while a stack is selected: finish with a
/// result, or play the move at the clicked cell.
#[derive(Debug)]
pub enum ReselectStep {
    Done(LoopRes<SelectType>),
    Play(Coordinate),
}

/// The button a click named, if it was `undo` or `pass`.
pub open spec fn button_undo(s: Seq<char>) -> bool {
    s == seq!['u', 'n', 'd', 'o']
}

/// Whether a button name is `pass`.
pub open spec fn button_pass(s: Seq<char>) -> bool {
    s == seq!['p', 'a', 's', 's']
}

/// Whether the selection should be shown greyed out: it is the other
/// player's stack, or another stack than the one already half moved.
pub fn selection_grey(selected: &SelectType, team: Team, have_moved: &Option<HaveMoved>) -> (g: bool)
    requires
        crate::hex::in_table(selected.coord),
    ensures
        g == if selected.team == team {
            match have_moved {
                Some(e) => e.the_move.0 != axial_index(selected.coord),
                None => false,
            }
        } else {
            true
        },
{
    if selected.team == team {
        match have_moved {
            Some(e) => e.the_move.0 != selected.coord.to_index(),
            None => false,
        }
    } else {
        true
    }
}

/// Compares a string with a short ASCII word.
fn is_word(s: &String, w: &str) -> (b: bool)
    ensures
        b == (s@ == w@),
{
    let a = s.as_str();
    let n = a.unicode_len();
    let m = w.unicode_len();
    if n != m {
        return false;
    }
    let mut i: usize = 0;
    while i < n
        invariant
            n == a@.len(),
            m == w@.len(),
            n == m,
            a@ == s@,
            i <= n,
            forall|j: int| 0 <= j < i ==> a@[j] == w@[j],
        decreases n - i,
    {
        if a.get_char(i) != w.get_char(i) {
            return false;
        }
        i = i + 1;
    }
    assert(a@ =~= w@);
    true
}

/// What a click means while `selected` is selected in `game` for `team`
/// to move, given `allowed`, the cells the selected stack may go to: the
/// `undo` and `pass` buttons undo or pass; clicking the stack itself (when
/// it may not go there) deselects; clicking a stack of the selected team
/// where the selected stack may not go selects it; clicking another stack
/// of the selected team while the selected one is not `team`'s, or where it
/// may not go, selects it for the other team; any other cell the stack may
/// not go to, a stack that is not `team`'s, or another stack than the one
/// already half moved, deselects; otherwise the move to the clicked cell is
/// played. Any other button is not expected.
pub fn reselect_step(
    game: &GameStateTotal,
    team: Team,
    have_moved: &Option<HaveMoved>,
    selected: SelectType,
    allowed: &SmallMesh,
    event: MouseEvent<Axial>,
) -> (r: ReselectStep)
    requires
        game.tactical.factions.wf(),
        crate::hex::in_table(selected.coord),
        event matches MouseEvent::Button(s) ==> button_undo(s@) || button_pass(s@),
        event matches MouseEvent::Normal(t) ==> crate::hex::in_table(t) && axial_index(t) != PASS_MOVE_INDEX,
    ensures
        match event {
            MouseEvent::Button(s) => if button_undo(s@) {
                r matches ReselectStep::Done(LoopRes::Undo)
            } else {
                r matches ReselectStep::Done(LoopRes::Pass)
            },
            MouseEvent::Normal(t) => {
                let contains = allowed@[axial_index(t)];
                let cell = game.tactical.factions.cells[axial_index(t)];
                let same_team = cell matches GameCell::Piece(p) && p.team == selected.team;
                if t == selected.coord && !contains {
                    r matches ReselectStep::Done(LoopRes::Deselect)
                } else if same_team && !contains {
                    r == ReselectStep::Done(LoopRes::Select(SelectType { coord: t, team: selected.team }))
                } else if same_team && selected.team != team {
                    r == ReselectStep::Done(LoopRes::Select(SelectType { coord: t, team: crate::unit::team_not(selected.team) }))
                } else if !contains || selected.team != team {
                    r matches ReselectStep::Done(LoopRes::Deselect)
                } else if have_moved matches Some(e) && axial_index(selected.coord) != e.the_move.0 {
                    r matches ReselectStep::Done(LoopRes::Deselect)
                } else {
                    r == ReselectStep::Play(Coordinate(axial_index(t) as usize))
                }
            },
        },
{
    let target_cell = match event {
        MouseEvent::Normal(t) => t,
        MouseEvent::Button(s) => {
            proof {
                reveal_strlit("undo");
                reveal_strlit("pass");
                assert("undo"@ =~= seq!['u', 'n', 'd', 'o']);
            }
            if is_word(&s, "undo") {
                return ReselectStep::Done(LoopRes::Undo);
            } else {
                return ReselectStep::Done(LoopRes::Pass);
            }
        },
    };
    let contains = allowed.is_set(target_cell);
    if target_cell == selected.coord && !contains {
        return ReselectStep::Done(LoopRes::Deselect);
    }
    let mut selected = selected;
    match game.tactical.factions.get_cell(target_cell) {
        GameCell::Piece(p) => {
            if p.team == selected.team {
                if !contains {
                    selected.coord = target_cell;
                    return ReselectStep::Done(LoopRes::Select(selected));
                }
            }
        },
        GameCell::Empty => {},
    }
    match game.tactical.factions.get_cell(target_cell) {
        GameCell::Piece(p) => {
            if p.team == selected.team {
                if selected.team != team || !contains {
                    selected.coord = target_cell;
                    selected.team = selected.team.not();
                    return ReselectStep::Done(LoopRes::Select(selected));
                }
            }
        },
        GameCell::Empty => {},
    }
    if !contains {
        return ReselectStep::Done(LoopRes::Deselect);
    }
    if selected.team != team {
        return ReselectStep::Done(LoopRes::Deselect);
    }
    if let Some(e) = have_moved {
        if selected.coord.to_index() != e.the_move.0 {
            return ReselectStep::Done(LoopRes::Deselect);
        }
    }
    ReselectStep::Play(Coordinate(target_cell.to_index()))
}


/// The counts of a cell whose spokes describe a position are the numbers of
/// directions in which each player is seen.
pub proof fn lemma_counts_are_seen(s: SpokeInfo, g: GameState, radius: int, j: int)
    requires
        s.describes(&g, radius),
        land_cell(j, radius - 1),
        radius <= 8,
    ensures
        s.data[j].num_attack[0] == seen_count(g.factions.cells@, j, radius, Team::White),
        s.data[j].num_attack[1] == seen_count(g.factions.cells@, j, radius, Team::Black),
{
    assert(s.data[j].wf());
    let raw = s.data[j].raw;
    assert(raw[0] == seen_team(g.factions.cells@, j, dir_of_index(0), radius));
    assert(raw[1] == seen_team(g.factions.cells@, j, dir_of_index(1), radius));
    assert(raw[2] == seen_team(g.factions.cells@, j, dir_of_index(2), radius));
    assert(raw[3] == seen_team(g.factions.cells@, j, dir_of_index(3), radius));
    assert(raw[4] == seen_team(g.factions.cells@, j, dir_of_index(4), radius));
    assert(raw[5] == seen_team(g.factions.cells@, j, dir_of_index(5), radius));
}

/// Whether `team` may play on the land cell `j` of `cells`, losing the stack
/// at once allowed.
pub open spec fn may_play(cells: Seq<GameCell<Piece>>, radius: int, team: Team, j: int) -> bool {
    let w = seen_count(cells, j, radius, Team::White);
    let b = seen_count(cells, j, radius, Team::Black);
    let mine = if team == Team::White { w } else { b };
    let theirs = if team == Team::White { b } else { w };
    &&& land_cell(j, radius - 1)
    &&& team != Team::Neutral
    &&& mine != 0
    &&& match cells[j] {
        GameCell::Piece(p) => mine > height_num(p.height),
        GameCell::Empty => true,
    }
}

/// The position as the selected team may know it.
pub open spec fn known_cells(cells: Seq<GameCell<Piece>>, radius: int, team: Team) -> Seq<GameCell<Piece>> {
    Seq::new(
        TABLE_SIZE as nat,
        |j: int|
            if dark(cells, radius, team, j) {
                GameCell::Piece(Piece { height: StackHeight::Stack6, team: Team::Neutral, has_lighthouse: true })
            } else {
                cells[j]
            },
    )
}

/// The cells the stack at `selected` may move to: the pass, and the cells
/// where its team may play (losing the stack at once allowed) in the
/// position as that team may know it; in both cases only cells that the
/// stack sees.
#[verifier::rlimit(60)]
#[verifier::spinoff_prover]
pub fn selection_moves(game: &GameStateTotal, world: &MyWorld, selected: &SelectType) -> (m: SmallMesh)
    requires
        game.tactical.factions.wf(),
        world.wf(),
        selected.team != Team::Neutral,
        sight_in_table(game.tactical.factions.cells@, world.radius as int, selected.team),
        land_cell(axial_index(selected.coord), world.radius - 1),
        crate::hex::in_table(selected.coord),
    ensures
        forall|j: int| 0 <= j < TABLE_SIZE ==> #[trigger] m@[j] == ((j == PASS_MOVE_INDEX || may_play(
            known_cells(game.tactical.factions.cells@, world.radius as int, selected.team),
            world.radius as int,
            selected.team,
            j,
        )) && exists|d: int|
            0 <= d < 6 && #[trigger] on_walk(
                axial_index(selected.coord),
                j,
                dir_of_index(d),
                first_piece(
                    game.tactical.factions.cells@,
                    axial_index(selected.coord),
                    dir_of_index(d),
                    1,
                    walk_len(axial_index(selected.coord), dir_of_index(d), world.radius as int),
                ),
            )),
{
    let ghost radius = world.radius as int;
    let ghost team = selected.team;
    let game2 = game.tactical.convert_to_playable(world, selected.team);
    let ghost known = known_cells(game.tactical.factions.cells@, radius, team);
    proof {
        assert(game2.factions.cells@ =~= known);
    }
    let spoke_info = SpokeInfo::new(&game2, world);
    let moves = NormalMove::possible_moves(&game2, world, selected.team, &spoke_info, true);
    let mut cca = SmallMesh::new();
    let mut k: usize = 0;
    while k < moves.len()
        invariant
            k <= moves.len(),
            forall|q: int| 0 <= q < moves.len() ==> land_cell((#[trigger] moves[q]).coord.0 as int, radius - 1),
            forall|j: int| 0 <= j < TABLE_SIZE ==> #[trigger] cca@[j] == exists|q: int| 0 <= q < k && moves[q].coord.0 == j,
        decreases moves.len() - k,
    {
        let c = moves[k].coord.0;
        let ghost before = cca@;
        cca.set_index(c, true);
        proof {
            assert forall|j: int| 0 <= j < TABLE_SIZE implies #[trigger] cca@[j] == exists|q: int| 0 <= q < k + 1 && moves[q].coord.0 == j by {
                if j != c {
                    assert(cca@[j] == before[j]);
                    if exists|q: int| 0 <= q < k + 1 && moves[q].coord.0 == j {
                        let q = choose|q: int| 0 <= q < k + 1 && moves[q].coord.0 == j;
                        assert(q < k);
                    }
                } else {
                    assert(moves[k as int].coord.0 == j);
                }
            }
        }
        k = k + 1;
    }
    proof {
        assert forall|j: int| 0 <= j < TABLE_SIZE && j != PASS_MOVE_INDEX implies #[trigger] cca@[j] == may_play(known, radius, team, j) by {
            if cca@[j] {
                let q = choose|q: int| 0 <= q < moves.len() && moves[q].coord.0 == j;
                assert(land_cell(j, radius - 1));
                lemma_counts_are_seen(spoke_info, game2, radius, j);
            }
            if may_play(known, radius, team, j) {
                lemma_counts_are_seen(spoke_info, game2, radius, j);
                assert(crate::move_build::move_allowed(&game2, &spoke_info, j, team, true));
                let q = choose|q: int| 0 <= q < moves.len() && #[trigger] moves[q].coord.0 == j;
                assert(exists|q: int| 0 <= q < moves.len() && moves[q].coord.0 == j);
            }
        }
    }
    cca.set_index(PASS_MOVE_INDEX, true);
    let c2 = game.tactical.factions.filter_los(selected.coord.to_index(), world);
    cca.intersect_with(&c2);
    cca
}


/// Whether a recorded move can be taken back: its cell is in the board
/// table, and a lighthouse move's cell is not the pass.
pub open spec fn undoable(m: HistoryOneMove) -> bool {
    match m.r {
        GenericMove::Normal(o) => o.0.coord.0 < TABLE_SIZE,
        GenericMove::Lighthouse(o) => o.0.coord.0 < TABLE_SIZE && o.0.coord.0 != PASS_MOVE_INDEX,
    }
}

/// Whether the recorded move `m` can be taken back.
pub fn is_undoable(m: &HistoryOneMove) -> (b: bool)
    ensures
        b == undoable(*m),
{
    match &m.r {
        GenericMove::Normal(o) => o.0.coord.0 < TABLE_SIZE,
        GenericMove::Lighthouse(o) => o.0.coord.0 < TABLE_SIZE && o.0.coord.0 != PASS_MOVE_INDEX,
    }
}

/// The cells after taking back the recorded move `m`.
pub open spec fn undone_cells(cells: Seq<GameCell<Piece>>, m: HistoryOneMove) -> Seq<GameCell<Piece>> {
    match m.r {
        GenericMove::Normal(o) => if o.0.coord.0 == PASS_MOVE_INDEX {
            cells
        } else {
            cells.update(o.0.coord.0 as int, restored_cell(o.1, cells[o.0.coord.0 as int]))
        },
        GenericMove::Lighthouse(o) => match o.1.inner() {
            Some(fe) => cells.update(o.0.coord.0 as int, restored_cell(fe, cells[o.0.coord.0 as int])),
            None => cells,
        },
    }
}

/// Takes back the recorded move `m` on `game`.
fn undo_recorded(m: &HistoryOneMove, game: &mut GameState)
    requires
        old(game).factions.wf(),
        undoable(*m),
    ensures
        final(game).factions.wf(),
        final(game).factions.cells@ == undone_cells(old(game).factions.cells@, *m),
{
    match &m.r {
        GenericMove::Normal(o) => o.0.undo(&o.1, game),
        GenericMove::Lighthouse(o) => o.0.undo(&o.1, game),
    }
}

/// The undo button: the last two moves (the other player's, then `team`'s
/// own) are taken back and dropped from the history.
pub fn undo_last_two(game: &mut GameStateTotal, team: Team)
    requires
        old(game).tactical.factions.wf(),
        old(game).history.inner.len() >= 2,
        undoable(old(game).history.inner@.last()),
        undoable(old(game).history.inner@[old(game).history.inner.len() - 2]),
    ensures
        final(game).tactical.factions.wf(),
        final(game).history.inner@ == old(game).history.inner@.subrange(0, old(game).history.inner.len() - 2),
        final(game).tactical.factions.cells@ == undone_cells(
            undone_cells(old(game).tactical.factions.cells@, old(game).history.inner@.last()),
            old(game).history.inner@[old(game).history.inner.len() - 2],
        ),
{
    let a = game.history.inner.pop().unwrap();
    undo_recorded(&a, &mut game.tactical);
    let a2 = game.history.inner.pop().unwrap();
    undo_recorded(&a2, &mut game.tactical);
}


/// What a click on a cell does in the map editor.
#[derive(Debug, Clone, Copy, PartialEq, Eq, Structural)]
pub enum EditTool {
    Player1,
    Player2,
    Player3,
    Empty,
}

/// The tool and stack height a button of the map editor selects: `stack1`
/// to `stack6` set the height, `empty` and `player1` to `player3` the tool;
/// `None` for any other button, which the editor ignores.
pub open spec fn editor_button_effect(s: Seq<char>, tool: EditTool, stack: u8) -> Option<(EditTool, u8)> {
    if s == seq!['s', 't', 'a', 'c', 'k', '1'] { Some((tool, 1u8)) }
    else if s == seq!['s', 't', 'a', 'c', 'k', '2'] { Some((tool, 2u8)) }
    else if s == seq!['s', 't', 'a', 'c', 'k', '3'] { Some((tool, 3u8)) }
    else if s == seq!['s', 't', 'a', 'c', 'k', '4'] { Some((tool, 4u8)) }
    else if s == seq!['s', 't', 'a', 'c', 'k', '5'] { Some((tool, 5u8)) }
    else if s == seq!['s', 't', 'a', 'c', 'k', '6'] { Some((tool, 6u8)) }
    else if s == seq!['e', 'm', 'p', 't', 'y'] { Some((EditTool::Empty, stack)) }
    else if s == seq!['p', 'l', 'a', 'y', 'e', 'r', '1'] { Some((EditTool::Player1, stack)) }
    else if s == seq!['p', 'l', 'a', 'y', 'e', 'r', '2'] { Some((EditTool::Player2, stack)) }
    else if s == seq!['p', 'l', 'a', 'y', 'e', 'r', '3'] { Some((EditTool::Player3, stack)) }
    else { None }
}

/// Applies a button of the map editor to its tool and stack height; says
/// whether the button was one the editor knows.
pub fn editor_button(tool: &mut EditTool, stack: &mut u8, s: &String) -> (known: bool)
    ensures
        known == editor_button_effect(s@, *old(tool), *old(stack)).is_some(),
        match editor_button_effect(s@, *old(tool), *old(stack)) {
            Some((t, k)) => *final(tool) == t && *final(stack) == k,
            None => *final(tool) == *old(tool) && *final(stack) == *old(stack),
        },
{
    proof {
        reveal_strlit("stack1");
        reveal_strlit("stack2");
        reveal_strlit("stack3");
        reveal_strlit("stack4");
        reveal_strlit("stack5");
        reveal_strlit("stack6");
        reveal_strlit("empty");
        reveal_strlit("player1");
        reveal_strlit("player2");
        reveal_strlit("player3");
        assert("stack1"@ =~= seq!['s', 't', 'a', 'c', 'k', '1']);
        assert("stack2"@ =~= seq!['s', 't', 'a', 'c', 'k', '2']);
        assert("stack3"@ =~= seq!['s', 't', 'a', 'c', 'k', '3']);
        assert("stack4"@ =~= seq!['s', 't', 'a', 'c', 'k', '4']);
        assert("stack5"@ =~= seq!['s', 't', 'a', 'c', 'k', '5']);
        assert("stack6"@ =~= seq!['s', 't', 'a', 'c', 'k', '6']);
        assert("empty"@ =~= seq!['e', 'm', 'p', 't', 'y']);
        assert("player1"@ =~= seq!['p', 'l', 'a', 'y', 'e', 'r', '1']);
        assert("player2"@ =~= seq!['p', 'l', 'a', 'y', 'e', 'r', '2']);
        assert("player3"@ =~= seq!['p', 'l', 'a', 'y', 'e', 'r', '3']);
    }
    if is_word(s, "stack1") {
        *stack = 1;
    } else if is_word(s, "stack2") {
        *stack = 2;
    } else if is_word(s, "stack3") {
        *stack = 3;
    } else if is_word(s, "stack4") {
        *stack = 4;
    } else if is_word(s, "stack5") {
        *stack = 5;
    } else if is_word(s, "stack6") {
        *stack = 6;
    } else if is_word(s, "empty") {
        *tool = EditTool::Empty;
    } else if is_word(s, "player1") {
        *tool = EditTool::Player1;
    } else if is_word(s, "player2") {
        *tool = EditTool::Player2;
    } else if is_word(s, "player3") {
        *tool = EditTool::Player3;
    } else {
        return false;
    }
    true
}

/// The cell the map editor leaves at a clicked cell: a stack of the chosen
/// height for the first, second or third player (white, black, neutral), or
/// nothing.
pub open spec fn edited_cell(tool: EditTool, stack: u8) -> GameCell<Piece> {
    match tool {
        EditTool::Player1 => GameCell::Piece(Piece { height: height_of(stack as int), team: Team::White, has_lighthouse: false }),
        EditTool::Player2 => GameCell::Piece(Piece { height: height_of(stack as int), team: Team::Black, has_lighthouse: false }),
        EditTool::Player3 => GameCell::Piece(Piece { height: height_of(stack as int), team: Team::Neutral, has_lighthouse: false }),
        EditTool::Empty => GameCell::Empty,
    }
}

/// The stack height with number `n`, from zero to six.
pub open spec fn height_of(n: int) -> StackHeight {
    if n == 0 { StackHeight::Stack0 }
    else if n == 1 { StackHeight::Stack1 }
    else if n == 2 { StackHeight::Stack2 }
    else if n == 3 { StackHeight::Stack3 }
    else if n == 4 { StackHeight::Stack4 }
    else if n == 5 { StackHeight::Stack5 }
    else { StackHeight::Stack6 }
}

/// A click on cell `pos` in the map editor.
pub fn editor_place(game: &mut GameState, pos: Axial, tool: EditTool, stack: u8)
    requires
        old(game).factions.wf(),
        crate::hex::in_table(pos),
        stack <= 6,
    ensures
        final(game).factions.wf(),
        final(game).factions.cells@ == old(game).factions.cells@.update(axial_index(pos), edited_cell(tool, stack)),
{
    game.factions.remove(pos);
    let h = StackHeight::from_num(stack as i8);
    proof {
        assert(h == height_of(stack as int));
    }
    match tool {
        EditTool::Player1 => game.factions.add_cell(pos, h, Team::White, false),
        EditTool::Player2 => game.factions.add_cell(pos, h, Team::Black, false),
        EditTool::Player3 => game.factions.add_cell(pos, h, Team::Neutral, false),
        EditTool::Empty => {},
    }
    proof {
        assert(game.factions.cells@ =~= old(game).factions.cells@.update(axial_index(pos), edited_cell(tool, stack)));
    }
}

/// The status line the map editor shows: `game string:` and the text form
/// of the position.
pub fn editor_status(game: &GameState, world: &MyWorld) -> (s: String)
    requires
        game.factions.wf(),
        world.wf(),
    ensures
        s@ == "game string:"@ + crate::board::cells_text(game.factions.cells@, world.land_as_vec@),
{
    let mut s = String::from_str("game string:");
    let t = game.into_string(world);
    s.append(t.as_str());
    s
}

/// The stacks of `team` that join a move at land cell `i`: for each
/// direction, in order, with a first piece seen that belongs to `team`, a
/// movement from that piece to the cell.
pub open spec fn join_animations(cells: Seq<GameCell<Piece>>, i: int, radius: int, team: Team, d: int) -> Seq<AnimationCommand>
    decreases d,
{
    if d <= 0 {
        Seq::empty()
    } else {
        let rest = join_animations(cells, i, radius, team, d - 1);
        let e = crate::unit::end_point(cells, i, dir_of_index(d - 1), radius);
        match e.1 {
            Some(p) => if p.piece.team == team {
                let a = crate::hex::index_axial(i);
                rest.push(AnimationCommand::Movement {
                    unit: Axial {
                        q: (a.q + crate::hex::OFFSETS[d - 1][0] * e.0) as i8,
                        r: (a.r + crate::hex::OFFSETS[d - 1][1] * e.0) as i8,
                    },
                    end: a,
                })
            } else {
                rest
            },
            None => rest,
        }
    }
}

/// The animations of a move by `team` at `aa` (none for the pass): each of
/// `team`'s stacks that sees the cell moves to it.
#[verifier::rlimit(40)]
pub fn move_animations(aa: &Coordinate, team: Team, state: &GameStateTotal, world: &MyWorld) -> (v: Vec<AnimationCommand>)
    requires
        state.tactical.factions.wf(),
        world.wf(),
        aa.0 == PASS_MOVE_INDEX || land_cell(aa.0 as int, world.radius - 1),
    ensures
        aa.0 == PASS_MOVE_INDEX ==> v@.len() == 0,
        aa.0 != PASS_MOVE_INDEX ==> v@ == join_animations(state.tactical.factions.cells@, aa.0 as int, world.radius as int, team, 6),
{
    let mut v: Vec<AnimationCommand> = Vec::new();
    if aa.0 == PASS_MOVE_INDEX {
        return v;
    }
    let ghost cells = state.tactical.factions.cells@;
    let ghost radius = world.radius as int;
    let end_points = state.tactical.factions.iter_end_points(world, aa.0);
    let end = Axial::from_index(aa.0);
    proof {
        crate::hex::lemma_index_roundtrip(aa.0 as int);
    }
    let mut i: usize = 0;
    while i < 6
        invariant
            end_points.len() == 6,
            forall|d: int| 0 <= d < 6 ==> #[trigger] end_points[d] == crate::unit::end_point(cells, aa.0 as int, dir_of_index(d), radius),
            land_cell(aa.0 as int, radius - 1),
            radius == world.radius as int,
            world.wf(),
            end == crate::hex::index_axial(aa.0 as int),
            -7 <= end.q <= 7,
            -7 <= end.r <= 7,
            i <= 6,
            v@ == join_animations(cells, aa.0 as int, radius, team, i as int),
        decreases 6 - i,
    {
        let (dis, rest) = end_points[i];
        proof {
            crate::board::lemma_ray_leaves_land(aa.0 as int, dir_of_index(i as int), radius);
            lemma_end_distance(cells, aa.0 as int, dir_of_index(i as int), radius);
        }
        if let Some(e) = rest {
            if e.piece.team == team {
                let o = crate::hex::Cube::from_arr(crate::hex::OFFSETS[i]);
                let unit = end.add(o.ax.mul(dis));
                v.push(AnimationCommand::Movement { unit, end });
            }
        }
        i = i + 1;
    }
    v
}

/// The distance of what is seen from a land cell is between one and eight.
proof fn lemma_end_distance(cells: Seq<GameCell<Piece>>, i: int, d: crate::hex::HDir, radius: int)
    requires
        radius <= 8,
        land_cell(i, radius - 1),
    ensures
        1 <= crate::unit::end_point(cells, i, d, radius).0 <= 16,
{
    let n = walk_len(i, d, radius);
    crate::board::lemma_ray_leaves_land(i, d, radius);
    crate::unit::lemma_first_piece(cells, i, d, 1, n);
    assert(n <= 16);
}

} // verus!
