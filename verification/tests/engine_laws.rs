use engine::ai::{calculate_move, iterative_deepening2, self_play_turn, Evaluator, KillerMoves, ABAB};
use engine::board::MyWorld;
use engine::hex::{Axial, HexDraw, PASS_MOVE_INDEX};
use engine::history::{HistoryOneMove, LastSeenObjectsAll, LastSeenObjectsAllEffect, MoveHistory};
use engine::mesh::SmallMesh;
use engine::move_build::{GenericMove, NormalMove};
use engine::moves::{Coordinate, SpokeInfo};
use engine::share::{load_bytes, save_bytes};
use engine::unit::{GameCell, GameOver, StackHeight, Team};
use engine::zobrist::{Key, Zobrist};

const SMALL: &str = "rrrrfrrrrdfrrfrrrrr";
const MEDIUM: &str = "-r-sgg---wwg---wwwgg-swwwwg-wwwwgwwww";

fn cells(world: &MyWorld) -> Vec<GameCell<engine::unit::Piece>> {
    world.starting_state.factions.cells.clone()
}

#[test]
fn load_then_text_form() {
    let world = MyWorld::load_from_string(MEDIUM).unwrap();
    let s = world.starting_state.into_string(&world);
    assert_eq!(s, MEDIUM.replace('-', "_"));
}

#[test]
fn load_rejects_wrong_length() {
    assert!(MyWorld::load_from_string("rr").is_none());
    assert!(MyWorld::load_from_string("rrrrfrrrrdfrrfrrrrq").is_none());
}

#[test]
fn apply_then_undo_gives_back_the_position() {
    let world = MyWorld::load_from_string(MEDIUM).unwrap();
    let mut game = world.starting_state.clone();
    let spoke = SpokeInfo::new(&game, &world);
    let moves = NormalMove::possible_moves(&game, &world, Team::White, &spoke, true);
    assert!(!moves.is_empty());
    for m in moves {
        let before = game.factions.cells.clone();
        let effect = m.apply(Team::White, &mut game, &world, Some(&spoke));
        assert_ne!(game.factions.cells, before);
        m.undo(&effect, &mut game);
        assert_eq!(game.factions.cells, before);
    }
}

#[test]
fn key_update_then_undo_gives_back_the_key() {
    let world = MyWorld::load_from_string(MEDIUM).unwrap();
    let mut game = world.starting_state.clone();
    let z = Zobrist::new();
    let spoke = SpokeInfo::new(&game, &world);
    let mut key = Key::from_scratch(&z, &game, &world, Team::Black);
    let k0 = key;
    let moves = NormalMove::possible_moves(&game, &world, Team::Black, &spoke, false);
    let m = moves[0];
    let effect = m.apply(Team::Black, &mut game, &world, Some(&spoke));
    key.move_update(&z, m, Team::Black, &effect);
    assert_ne!(key, k0);
    key.move_undo(&z, m, Team::Black, &effect);
    assert_eq!(key, k0);
}

#[test]
fn spokes_follow_moves_and_come_back() {
    let world = MyWorld::load_from_string(MEDIUM).unwrap();
    let mut game = world.starting_state.clone();
    let mut spoke = SpokeInfo::new(&game, &world);
    let original = spoke.clone();
    let moves = NormalMove::possible_moves(&game, &world, Team::White, &spoke, true);
    for m in moves {
        let effect = m.apply(Team::White, &mut game, &world, Some(&spoke));
        let temp = spoke.process_move_better(m, Team::White, &world, &game);
        assert_eq!(spoke, SpokeInfo::new(&game, &world));
        spoke.undo_move(m, &effect, Team::White, &world, &game, temp);
        m.undo(&effect, &mut game);
        assert_eq!(spoke, original);
    }
}

#[test]
fn pass_changes_nothing() {
    let world = MyWorld::load_from_string(SMALL).unwrap();
    let mut game = world.starting_state.clone();
    let before = game.factions.cells.clone();
    let m = NormalMove::new_pass();
    assert!(m.is_pass());
    let effect = m.apply(Team::White, &mut game, &world, None);
    assert!(effect.destroyed_unit.is_none());
    assert_eq!(game.factions.cells, before);
}

#[test]
fn search_leaves_the_position_and_finds_a_move() {
    let world = MyWorld::load_from_string(SMALL).unwrap();
    let mut game = world.starting_state.clone();
    let z = Zobrist::new();
    let history: MoveHistory<HistoryOneMove> = MoveHistory::new();
    let m = calculate_move(&mut game, &world, Team::White, &history, &z);
    assert_eq!(game.factions.cells, cells(&world));
    assert!(m.coord.0 == PASS_MOVE_INDEX || world.land.get_index(m.coord.0));
}

#[test]
fn search_without_depth_finds_nothing() {
    let world = MyWorld::load_from_string(SMALL).unwrap();
    let z = Zobrist::new();
    assert!(iterative_deepening2(&world.starting_state, &world, Team::White, 0, &z).is_none());
    let r = iterative_deepening2(&world.starting_state, &world, Team::White, 2, &z).unwrap();
    assert!(!r.line.is_empty());
}

#[test]
fn search_passes_after_a_pass() {
    let world = MyWorld::load_from_string(SMALL).unwrap();
    let mut game = world.starting_state.clone();
    let z = Zobrist::new();
    let mut history: MoveHistory<HistoryOneMove> = MoveHistory::new();
    let p = NormalMove::new_pass();
    let e = p.apply(Team::Black, &mut game, &world, None);
    history.push_normal(HistoryOneMove { r: GenericMove::Normal((p, e)), fe: LastSeenObjectsAllEffect::dummy() });
    let m = calculate_move(&mut game, &world, Team::White, &history, &z);
    assert!(m.is_pass());
}

#[test]
fn game_ends_after_two_passes() {
    let world = MyWorld::load_from_string(SMALL).unwrap();
    let game = world.starting_state.clone();
    let mut history: MoveHistory<HistoryOneMove> = MoveHistory::new();
    assert!(game.game_is_over(&world, Team::White, &history).is_none());
    let p = NormalMove::new_pass();
    let mut g2 = game.clone();
    let e = p.apply(Team::White, &mut g2, &world, None);
    history.push_normal(HistoryOneMove { r: GenericMove::Normal((p, e.clone())), fe: LastSeenObjectsAllEffect::dummy() });
    assert!(game.game_is_over(&world, Team::White, &history).is_none());
    history.push_normal(HistoryOneMove { r: GenericMove::Normal((p, e)), fe: LastSeenObjectsAllEffect::dummy() });
    let s = game.score(&world);
    assert_eq!(s.white + s.black + s.neutral, 19);
    let expected = if s.white > s.black {
        GameOver::WhiteWon
    } else if s.white < s.black {
        GameOver::BlackWon
    } else {
        GameOver::Tie
    };
    assert_eq!(game.game_is_over(&world, Team::White, &history), Some(expected));
}

#[test]
fn score_counts_stacks_and_seen_cells() {
    let world = MyWorld::load_from_string(SMALL).unwrap();
    let s = world.starting_state.score(&world);
    assert_eq!(s.black, 4);
    assert_eq!(s.white, 15);
    assert_eq!(s.neutral, 0);
}

#[test]
fn empty_board_evaluates_to_zero() {
    let world = MyWorld::load_from_string("-------------------").unwrap();
    let spoke = SpokeInfo::new(&world.starting_state, &world);
    let e = Evaluator::default().absolute_evaluate(&world.starting_state, &world, &spoke, false);
    assert_eq!(e, 0);
}

#[test]
fn one_white_stack_evaluates_positive() {
    let world = MyWorld::load_from_string("---------r---------").unwrap();
    let spoke = SpokeInfo::new(&world.starting_state, &world);
    let e = Evaluator::default().absolute_evaluate(&world.starting_state, &world, &spoke, false);
    assert!(e > 0);
}

#[test]
fn share_round_trip() {
    let bytes: Vec<u8> = vec![1, 2, 3, 250, 0, 0, 7];
    let s = save_bytes(&bytes);
    assert_eq!(load_bytes(&s).unwrap(), bytes);
    assert!(load_bytes("!!notbase64!!").is_err());
}

#[test]
fn text_notation() {
    assert_eq!(Axial { q: 0, r: 0 }.fmt(3), "C3");
    assert_eq!(Axial { q: -5, r: -5 }.fmt(3), "pp");
    assert_eq!(Axial { q: 5, r: -4 }.fmt(3), "D-1");
    let v = vec![Axial { q: 0, r: 0 }, Axial { q: -5, r: -5 }];
    assert_eq!(v.fmt(3), "[C3,pp,]");
    assert_eq!(Axial { q: 0, r: 0 }.disp(3).to_string(), "C3");
    let m = NormalMove { stack: StackHeight::Stack1, coord: Coordinate(Axial { q: 0, r: 0 }.to_index()) };
    let world = MyWorld::load_from_string(SMALL).unwrap();
    assert_eq!(world.format(&m).to_string(), "C3");
}

#[test]
fn killer_moves_keep_the_newest_two() {
    let mut k = KillerMoves::new(3);
    let a = NormalMove { stack: StackHeight::Stack1, coord: Coordinate(100) };
    let b = NormalMove { stack: StackHeight::Stack1, coord: Coordinate(101) };
    let c = NormalMove { stack: StackHeight::Stack1, coord: Coordinate(102) };
    k.consider(1, a);
    k.consider(1, a);
    assert_eq!(k.get(1).len(), 1);
    k.consider(1, b);
    assert_eq!(k.get(1).len(), 2);
    k.consider(1, c);
    assert_eq!(k.get(1).get(0), c);
    assert_eq!(k.get(1).get(1), a);
    assert_eq!(k.get(0).len(), 0);
}

#[test]
fn window_negation() {
    let ab = ABAB::new();
    let n = ab.neg();
    assert_eq!(n.alpha, -ab.beta);
    assert_eq!(n.beta, -ab.alpha);
}

#[test]
fn mesh_intersection() {
    let mut a = SmallMesh::new();
    let mut b = SmallMesh::new();
    a.set_index(3, true);
    a.set_index(4, true);
    b.set_index(4, true);
    a.intersect_with(&b);
    assert!(!a.get_index(3));
    assert!(a.get_index(4));
}

#[test]
fn search_of_one_move_finds_a_line() {
    let world = MyWorld::load_from_string(SMALL).unwrap();
    let z = Zobrist::new();
    let r = iterative_deepening2(&world.starting_state, &world, Team::Black, 1, &z).unwrap();
    assert_eq!(r.line.len(), 1);
}

#[test]
fn self_play_stops_after_two_passes() {
    let world = MyWorld::load_from_string(SMALL).unwrap();
    let mut game = world.starting_state.clone();
    let z = Zobrist::new();
    let mut history: MoveHistory<HistoryOneMove> = MoveHistory::new();
    let p = NormalMove::new_pass();
    let mut g2 = game.clone();
    let e = p.apply(Team::White, &mut g2, &world, None);
    history.push_normal(HistoryOneMove { r: GenericMove::Normal((p, e.clone())), fe: LastSeenObjectsAllEffect::dummy() });
    history.push_normal(HistoryOneMove { r: GenericMove::Normal((p, e)), fe: LastSeenObjectsAllEffect::dummy() });
    let expected = game.game_is_over(&world, Team::White, &history);
    assert!(expected.is_some());
    let before = game.factions.cells.clone();
    let mut last_seen = LastSeenObjectsAll::new(&game);
    let over = self_play_turn(&mut game, &mut history, &mut last_seen, &world, Team::White, &z);
    assert_eq!(over, expected);
    assert_eq!(history.inner.len(), 2);
    assert_eq!(game.factions.cells, before);
}

#[test]
fn undo_gives_back_a_reinforced_own_lighthouse() {
    let world = MyWorld::load_from_string("---------x---------").unwrap();
    let mut game = world.starting_state.clone();
    let before = game.factions.cells.clone();
    let c = (0..game.factions.cells.len())
        .find(|&i| matches!(game.factions.cells[i], GameCell::Piece(p) if p.has_lighthouse && p.team == Team::White))
        .unwrap();
    let m = NormalMove { coord: Coordinate(c), stack: StackHeight::Stack2 };
    let effect = m.apply(Team::White, &mut game, &world, None);
    assert!(matches!(game.factions.cells[c], GameCell::Piece(p) if p.has_lighthouse && p.height == StackHeight::Stack2));
    m.undo(&effect, &mut game);
    assert_eq!(game.factions.cells, before);
}

#[test]
fn a_lost_stack_shows_its_taker() {
    let world = MyWorld::load_from_string(SMALL).unwrap();
    let before = world.starting_state.clone();
    let c = (0..before.factions.cells.len())
        .find(|&i| matches!(before.factions.cells[i], GameCell::Piece(p) if p.team == Team::White))
        .unwrap();
    let mut after = before.clone();
    let m = NormalMove { coord: Coordinate(c), stack: StackHeight::Stack6 };
    let effect = m.apply(Team::Black, &mut after, &world, None);
    assert!(effect.captured_unit(&m, &after).is_some());
    let mut last_seen = LastSeenObjectsAll::new(&before);
    let fe = last_seen.apply(&after, (&m, &effect), &world);
    assert_eq!(last_seen.fog[0].state.factions.cells[c], after.factions.cells[c]);
    assert_ne!(last_seen.fog[0].state.factions.cells[c], before.factions.cells[c]);
    assert!(fe.diff[0].diff.iter().any(|d| d.pos.0 == c));
    assert_eq!(last_seen.fog[1].state.factions.cells, before.factions.cells);
    assert!(fe.diff[1].diff.is_empty());
    last_seen.undo(&fe);
    assert_eq!(last_seen.fog[0].state.factions.cells, before.factions.cells);
}
