use engine::display::{game_over_text, single_tex, GameOverGui};
use engine::ai::{calculate_secure_points, self_play_turn};
use engine::board::MyWorld;
use engine::hex::{Axial, PASS_MOVE_INDEX};
use engine::history::{HistoryOneMove, LastSeenObjectsAll, MoveHistory};
use engine::main_logic::{
    editor_button, editor_place, editor_status, move_animations, reselect_step, selection_grey,
    selection_moves, undo_last_two, AnimationCommand, EditTool, HaveMoved, LoopRes, MouseEvent,
    ReselectStep, SelectType,
};
use engine::move_build::{GenericMove, NormalMove};
use engine::moves::{Coordinate, SpokeInfo};
use engine::unit::{GameCell, GameStateTotal, Piece, StackHeight, Team};
use engine::zobrist::Zobrist;

const SMALL: &str = "rrrrfrrrrdfrrfrrrrr";

fn total(world: &MyWorld) -> GameStateTotal {
    GameStateTotal {
        last_seen: LastSeenObjectsAll::new(&world.starting_state),
        tactical: world.starting_state.clone(),
        history: MoveHistory::new(),
    }
}

#[test]
fn self_play_records_the_move() {
    let world = MyWorld::load_from_string(SMALL).unwrap();
    let mut game = world.starting_state.clone();
    let mut history: MoveHistory<HistoryOneMove> = MoveHistory::new();
    let z = Zobrist::new();
    let mut last_seen = LastSeenObjectsAll::new(&game);
    let over = self_play_turn(&mut game, &mut history, &mut last_seen, &world, Team::White, &z);
    assert!(over.is_none());
    assert_eq!(history.inner.len(), 1);
}

#[test]
fn selecting_buttons() {
    let world = MyWorld::load_from_string(SMALL).unwrap();
    let g = total(&world);
    let sel = SelectType { coord: Axial { q: 0, r: 0 }, team: Team::White };
    let allowed = engine::mesh::SmallMesh::new();
    let r = reselect_step(&g, Team::White, &None, sel, &allowed, MouseEvent::Button("undo".to_string()));
    assert!(matches!(r, ReselectStep::Done(LoopRes::Undo)));
    let r = reselect_step(&g, Team::White, &None, sel, &allowed, MouseEvent::Button("pass".to_string()));
    assert!(matches!(r, ReselectStep::Done(LoopRes::Pass)));
    let r = reselect_step(&g, Team::White, &None, sel, &allowed, MouseEvent::Normal(Axial { q: 0, r: 0 }));
    assert!(matches!(r, ReselectStep::Done(LoopRes::Deselect)));
}

#[test]
fn selecting_a_playable_cell_plays_it() {
    let world = MyWorld::load_from_string("---------r---------").unwrap();
    let g = total(&world);
    let sel = SelectType { coord: Axial { q: 0, r: 0 }, team: Team::White };
    let mut allowed = engine::mesh::SmallMesh::new();
    let target = Axial { q: 1, r: 0 };
    allowed.set_index(target.to_index(), true);
    let r = reselect_step(&g, Team::White, &None, sel, &allowed, MouseEvent::Normal(target));
    match r {
        ReselectStep::Play(c) => assert_eq!(c.0, target.to_index()),
        _ => panic!("expected a move"),
    }
    let r = reselect_step(&g, Team::Black, &None, sel, &allowed, MouseEvent::Normal(target));
    assert!(matches!(r, ReselectStep::Done(LoopRes::Deselect)));
}

#[test]
fn grey_selection() {
    let sel = SelectType { coord: Axial { q: 0, r: 0 }, team: Team::White };
    assert!(!selection_grey(&sel, Team::White, &None));
    assert!(selection_grey(&sel, Team::Black, &None));
    let hm = HaveMoved {
        the_move: Coordinate(Axial { q: 1, r: 0 }.to_index()),
        effect: engine::move_build::NormalMoveEffect { destroyed_unit: None },
    };
    assert!(selection_grey(&sel, Team::White, &Some(hm)));
}

#[test]
fn selection_moves_of_a_lone_stack() {
    let world = MyWorld::load_from_string("---------r---------").unwrap();
    let g = total(&world);
    let sel = SelectType { coord: Axial { q: 0, r: 0 }, team: Team::White };
    let m = selection_moves(&g, &world, &sel);
    assert!(m.get_index(PASS_MOVE_INDEX) == false);
    assert!(m.get_index(Axial { q: 1, r: 0 }.to_index()));
    assert!(!m.get_index(Axial { q: 0, r: 0 }.to_index()));
}

#[test]
fn undo_takes_back_two_moves() {
    let world = MyWorld::load_from_string("-------------------").unwrap();
    let mut g = total(&world);
    let m1 = NormalMove { stack: StackHeight::Stack1, coord: Coordinate(Axial { q: 0, r: 0 }.to_index()) };
    let m2 = NormalMove { stack: StackHeight::Stack2, coord: Coordinate(Axial { q: 1, r: 0 }.to_index()) };
    let e1 = m1.apply(Team::White, &mut g.tactical, &world, None);
    g.history.push_normal(HistoryOneMove { r: GenericMove::Normal((m1, e1)), fe: engine::history::LastSeenObjectsAllEffect::dummy() });
    let e2 = m2.apply(Team::Black, &mut g.tactical, &world, None);
    g.history.push_normal(HistoryOneMove { r: GenericMove::Normal((m2, e2)), fe: engine::history::LastSeenObjectsAllEffect::dummy() });
    undo_last_two(&mut g, Team::White);
    assert_eq!(g.history.inner.len(), 0);
    assert_eq!(g.tactical.factions.cells, world.starting_state.factions.cells);
}

#[test]
fn editor_steps() {
    let world = MyWorld::load_from_string("-------------------").unwrap();
    let mut game = world.starting_state.clone();
    let mut tool = EditTool::Player1;
    let mut stack: u8 = 1;
    assert!(editor_button(&mut tool, &mut stack, &"stack3".to_string()));
    assert_eq!(stack, 3);
    assert!(editor_button(&mut tool, &mut stack, &"player2".to_string()));
    assert_eq!(tool, EditTool::Player2);
    assert!(!editor_button(&mut tool, &mut stack, &"nothing".to_string()));
    editor_place(&mut game, Axial { q: 0, r: 0 }, tool, stack);
    assert_eq!(
        game.factions.cells[Axial { q: 0, r: 0 }.to_index()],
        GameCell::Piece(Piece { height: StackHeight::Stack3, team: Team::Black, has_lighthouse: false })
    );
    assert_eq!(editor_status(&game, &world), "game string:_________d_________");
}

#[test]
fn joining_stacks_animate() {
    let world = MyWorld::load_from_string("--------r-r--------").unwrap();
    let g = total(&world);
    let target = Coordinate(Axial { q: 0, r: 0 }.to_index());
    let v = move_animations(&target, Team::White, &g, &world);
    assert_eq!(v.len(), 2);
    for a in v.iter() {
        match a {
            AnimationCommand::Movement { end, .. } => assert_eq!(*end, Axial { q: 0, r: 0 }),
            _ => panic!("expected a movement"),
        }
    }
    assert_eq!(move_animations(&Coordinate(PASS_MOVE_INDEX), Team::White, &g, &world).len(), 0);
}

#[test]
fn darkness_and_playable_view() {
    let world = MyWorld::load_from_string("---------r---------").unwrap();
    let game = world.starting_state.clone();
    let d = game.darkness(&world, Team::White);
    assert!(!d.get_index(Axial { q: 0, r: 0 }.to_index()));
    assert!(!d.get_index(Axial { q: 1, r: 0 }.to_index()));
    assert!(d.get_index(Axial { q: 2, r: 0 }.to_index()));
    let p = game.convert_to_playable(&world, Team::White);
    assert_eq!(
        p.factions.cells[Axial { q: 2, r: 0 }.to_index()],
        GameCell::Piece(Piece { height: StackHeight::Stack6, team: Team::Neutral, has_lighthouse: true })
    );
    let black_view = game.darkness(&world, Team::Black);
    assert!(black_view.get_index(Axial { q: 0, r: 0 }.to_index()));
}

#[test]
fn line_of_sight() {
    let world = MyWorld::load_from_string("---------r---------").unwrap();
    let los = world.starting_state.factions.filter_los(Axial { q: 0, r: 0 }.to_index(), &world);
    assert!(los.get_index(Axial { q: 1, r: 0 }.to_index()));
    assert!(los.get_index(Axial { q: 2, r: 0 }.to_index()));
    assert!(los.get_index(Axial { q: 3, r: 0 }.to_index()));
    assert!(!los.get_index(Axial { q: 0, r: 0 }.to_index()));
    assert!(!los.get_index(Axial { q: 1, r: 1 }.to_index()));
}

#[test]
fn loud_and_interesting_moves() {
    let world = MyWorld::load_from_string("-------r-b---------").unwrap();
    let game = world.starting_state.clone();
    let spoke = SpokeInfo::new(&game, &world);
    let loud = game.generate_loud_moves(&world, Team::White, &spoke);
    let none = game.generate_loud_moves(&world, Team::Neutral, &spoke);
    assert!(none.is_empty());
    let inter = game.generate_interesting_moves(&world, Team::White, &spoke);
    for i in 0..512 {
        if loud.get_index(i) || inter.get_index(i) {
            assert!(world.land.get_index(i));
        }
    }
}

#[test]
fn secure_points_are_counted_on_land() {
    let world = MyWorld::load_from_string(SMALL).unwrap();
    let s = calculate_secure_points(&world.starting_state, &world);
    assert!(s[0] >= 0 && s[0] <= 19);
    assert!(s[1] >= 0 && s[1] <= 19);
    assert_eq!(s[0] + s[1] <= 19, true);
}

#[test]
fn outward_directions() {
    let v = engine::mesh::explore_outward_two();
    assert_eq!(v.len(), 6);
    for (d, [s, l, r]) in v.iter() {
        assert_eq!(d, s);
        assert_eq!(*l, d.rotate60_left());
        assert_eq!(*r, d.rotate60_right());
    }
}

#[test]
fn text_form_drops_lighthouses() {
    let world = MyWorld::load_from_string("x--------r-------yb").unwrap();
    assert_eq!(world.starting_state.into_string(&world), "________r_______b");
}

#[test]
fn game_over_headlines() {
    assert_eq!(game_over_text(&GameOverGui::WhiteWon), "White Won!");
    assert_eq!(game_over_text(&GameOverGui::Tie), "Its a tie!");
    let t = single_tex();
    assert_eq!((t.width, t.height), (1, 1));
    assert_eq!(t.data, vec![0, 0, 255, 255]);
}

#[test]
fn computer_move_in_a_game() {
    let world = MyWorld::load_from_string(SMALL).unwrap();
    let g = total(&world);
    let z = Zobrist::new();
    let m = engine::ai::ai_move(&g, &world, Team::Black, &z);
    assert!(m.coord.0 == PASS_MOVE_INDEX || world.land.get_index(m.coord.0));
}
