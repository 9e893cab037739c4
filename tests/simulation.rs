use tactical_planning::client::{unit_nearest, Client, PlanEdit};
use tactical_planning::command::Command;
use tactical_planning::display::{updates_between, Update};
use tactical_planning::geometry::{unit_can_see_pos, unit_is_in_wall, Point, Trig};
use tactical_planning::model::{Action, Snapshot, Timeline, UnitState, Weapon, NULL_ID};
use tactical_planning::scenario::{read_map, read_units, Unit};
use tactical_planning::server::Server;
use tactical_planning::table::{empty_map, IdMap};

fn pt(x: i32, y: i32) -> Point {
    Point { x, y }
}

fn unit(id: u32, x: i32, y: i32, time: u64) -> UnitState {
    UnitState {
        pos: pt(x, y),
        vel: pt(0, 0),
        weapon: Weapon::Gun,
        action: Action::Mobile,
        target_loc: pt(0, 0),
        target_id: NULL_ID,
        time,
        id,
    }
}

fn snapshot(time: u64, units: &[UnitState]) -> Snapshot {
    let mut s = Snapshot::with_time(time);
    for u in units {
        s.insert(*u);
    }
    s
}

#[test]
fn update_pos_moves_by_velocity() {
    let mut u = unit(0, 0, 0, 0);
    u.vel = pt(100, -50);
    u.update_pos(10);
    assert_eq!(u.pos, pt(1000, -500));
    assert_eq!(u.time, 10);
}

#[test]
fn update_pos_twice_same_as_once() {
    let mut u = unit(0, 30, 40, 2);
    u.vel = pt(7, -3);
    let mut once = u;
    once.update_pos(9);
    let mut twice = u;
    twice.update_pos(9);
    twice.update_pos(9);
    assert_eq!(once, twice);
    assert_eq!(once.pos, pt(79, 19));
}

#[test]
fn update_pos_saturates_at_arena_edge() {
    let mut u = unit(0, i32::MAX - 10, 0, 0);
    u.vel = pt(100, 0);
    u.update_pos(5);
    assert_eq!(u.pos.x, i32::MAX);
}

#[test]
fn nav_duration_straight() {
    let u = unit(0, 0, 0, 0);
    assert_eq!(u.command_duration(Command::Nav(pt(10000, 0))), 100);
}

#[test]
fn nav_duration_diagonal_rounds_up() {
    let u = unit(0, 0, 0, 0);
    assert_eq!(u.command_duration(Command::Nav(pt(1000, 1000))), 15);
}

#[test]
fn nav_duration_zero_length_is_one_tick() {
    let u = unit(0, 500, 500, 0);
    assert_eq!(u.command_duration(Command::Nav(pt(500, 500))), 1);
}

#[test]
fn wait_and_shoot_durations() {
    let u = unit(0, 0, 0, 0);
    assert_eq!(u.command_duration(Command::Wait(7)), 7);
    assert_eq!(u.command_duration(Command::Shoot(3)), 50);
}

#[test]
fn command_start_nav_sets_velocity() {
    let mut u = unit(0, 0, 0, 0);
    let d = u.command_start(Command::Nav(pt(10000, -5000)));
    assert_eq!(d, 112);
    assert_eq!(u.vel, pt(89, -44));
    let mut v = unit(1, 0, 0, 0);
    assert_eq!(v.command_start(Command::Nav(pt(1000, 0))), 10);
    assert_eq!(v.vel, pt(100, 0));
}

#[test]
fn command_start_and_end_shoot() {
    let mut u = unit(0, 0, 0, 0);
    assert_eq!(u.command_start(Command::Shoot(4)), 50);
    assert_eq!(u.action, Action::Shoot);
    assert_eq!(u.target_id, 4);
    u.command_end(Command::Shoot(4), 50);
    assert_eq!(u.action, Action::Mobile);
    assert_eq!(u.target_id, NULL_ID);
    assert_eq!(u.time, 50);
}

#[test]
fn command_end_nav_stops() {
    let mut u = unit(0, 0, 0, 0);
    u.command_start(Command::Nav(pt(1000, 0)));
    u.command_end(Command::Nav(pt(1000, 0)), 10);
    assert_eq!(u.pos, pt(1000, 0));
    assert_eq!(u.vel, pt(0, 0));
}

#[test]
fn infer_command_cases() {
    let mut s = unit(0, 0, 0, 3);
    s.action = Action::Shoot;
    s.target_id = 2;
    assert_eq!(s.infer_command(9), Some((53, Command::Shoot(2))));
    let mut m = unit(1, 0, 0, 0);
    m.vel = pt(10, 0);
    assert_eq!(m.infer_command(4), Some((4, Command::Nav(pt(40, 0)))));
    assert_eq!(unit(2, 0, 0, 0).infer_command(4), None);
    let mut d = unit(3, 0, 0, 0);
    d.action = Action::Dead;
    assert_eq!(d.infer_command(4), None);
}

#[test]
fn timeline_insert_merges_same_time() {
    let mut tl = Timeline::new();
    assert_eq!(tl.insert(unit(1, 0, 0, 5)), None);
    assert_eq!(tl.insert(unit(0, 0, 0, 2)), None);
    assert_eq!(tl.insert(unit(2, 0, 0, 5)), None);
    assert_eq!(tl.insert(unit(1, 9, 9, 5)), Some(unit(1, 0, 0, 5)));
    assert_eq!(tl.len(), 2);
    assert_eq!(tl.bucket_at(0).time, 2);
    assert_eq!(tl.bucket_at(1).time, 5);
    assert_eq!(tl.bucket_at(1).states.len(), 2);
    let first = tl.first();
    assert_eq!(first.time, 2);
    assert_eq!(first.states.get(0), Some(&unit(0, 0, 0, 2)));
}

#[test]
fn timeline_first_of_empty() {
    let first = Timeline::new().first();
    assert_eq!(first.time, 0);
    assert_eq!(first.states.len(), 0);
}

#[test]
fn snapshot_insert_replaces() {
    let mut s = Snapshot::new();
    assert_eq!(s.insert(unit(3, 1, 1, 0)), None);
    assert_eq!(s.insert(unit(3, 2, 2, 0)), Some(unit(3, 1, 1, 0)));
    assert_eq!(s.states.len(), 1);
}

#[test]
fn replay_catches_up_then_extrapolates() {
    let mut tl = Timeline::new();
    let mut a = unit(0, 100, 0, 5);
    a.vel = pt(10, 0);
    tl.insert(a);
    tl.insert(unit(0, 500, 0, 8));
    tl.insert(unit(1, 7, 7, 12));
    let mut s = Snapshot::new();
    s.update(&tl, 6);
    assert_eq!(s.time, 6);
    assert_eq!(s.states.get(0).unwrap().pos, pt(110, 0));
    assert_eq!(s.states.get(1), None);
    let mut later = Snapshot::new();
    later.update(&tl, 10);
    assert_eq!(later.states.get(0), Some(&unit(0, 500, 0, 10)));
    // Stepwise replay gives the same world as replay in one go.
    s.update(&tl, 10);
    assert_eq!(s.states.get(0), later.states.get(0));
}

#[test]
fn replay_skips_bucket_at_start_time() {
    let mut tl = Timeline::new();
    tl.insert(unit(0, 900, 0, 5));
    let mut s = snapshot(5, &[unit(0, 1, 1, 5)]);
    s.update(&tl, 6);
    assert_eq!(s.states.get(0).unwrap().pos, pt(1, 1));
}

#[test]
fn copy_units_overwrites() {
    let mut s = snapshot(0, &[unit(0, 0, 0, 0), unit(1, 1, 1, 0)]);
    let o = snapshot(3, &[unit(1, 5, 5, 3), unit(2, 6, 6, 3)]);
    s.copy_units(&o);
    assert_eq!(s.time, 0);
    assert_eq!(s.states.len(), 3);
    assert_eq!(s.states.get(1), Some(&unit(1, 5, 5, 3)));
}

#[test]
fn wall_and_sight_queries() {
    let walls = vec![Trig { a: pt(0, 0), b: pt(100, 0), c: pt(0, 100) }];
    assert!(unit_is_in_wall(&walls, pt(10, 10)));
    assert!(unit_is_in_wall(&walls, pt(50, 50)));
    assert!(!unit_is_in_wall(&walls, pt(60, 60)));
    assert!(!unit_can_see_pos(&walls, pt(-50, 20), pt(200, 20)));
    assert!(unit_can_see_pos(&walls, pt(-50, 200), pt(200, 200)));
}

#[test]
fn simultaneous_completions_share_a_snapshot() {
    let init = snapshot(0, &[unit(0, 0, 0, 0), unit(1, 5000, 0, 0)]);
    let mut server = Server::new(init, Vec::new());
    let moves = vec![unit(0, 1000, 0, 50), unit(1, 6000, 0, 50)];
    let snap = server.resolve(&moves).unwrap();
    assert_eq!(snap.time, 50);
    assert_eq!(snap.states.len(), 2);
    assert_eq!(snap.states.get(0), Some(&unit(0, 1000, 0, 50)));
    assert_eq!(snap.states.get(1), Some(&unit(1, 6000, 0, 50)));
    assert_eq!(server.current.time, 50);
}

#[test]
fn earliest_submission_wins() {
    let init = snapshot(0, &[unit(0, 0, 0, 0), unit(1, 5000, 0, 0)]);
    let mut server = Server::new(init, Vec::new());
    let moves = vec![unit(0, 1000, 0, 50), unit(1, 6000, 0, 20)];
    let snap = server.resolve(&moves).unwrap();
    assert_eq!(snap.time, 20);
    assert_eq!(snap.states.len(), 1);
    assert_eq!(server.current.states.get(0), Some(&unit(0, 0, 0, 0)));
    assert_eq!(server.current.states.get(1), Some(&unit(1, 6000, 0, 20)));
}

#[test]
fn resolve_rejects_unit_in_wall() {
    let walls = vec![Trig { a: pt(0, 0), b: pt(1000, 0), c: pt(0, 1000) }];
    let init = snapshot(0, &[unit(0, -500, 0, 0), unit(1, 5000, 0, 0)]);
    let mut server = Server::new(init, walls);
    let mut bad = unit(0, 100, 100, 5);
    bad.vel = pt(10, 0);
    let r = server.resolve(&vec![unit(1, 5000, 0, 5), bad]);
    assert_eq!(r.err(), Some(0));
    assert_eq!(server.current.time, 0);
    assert_eq!(server.current.states.get(0), Some(&unit(0, -500, 0, 0)));
}

#[test]
fn shot_kills_after_fifty_ticks() {
    let mut shooter = unit(0, 0, 0, 0);
    shooter.action = Action::Shoot;
    shooter.target_id = 1;
    let init = snapshot(0, &[shooter, unit(1, 10000, 0, 0)]);
    let mut server = Server::new(init, Vec::new());
    let snap = server.resolve(&Vec::new()).unwrap();
    assert_eq!(snap.time, 50);
    assert_eq!(snap.states.len(), 1);
    let dead = *snap.states.get(1).unwrap();
    assert_eq!(dead.action, Action::Dead);
    assert_eq!(dead.time, 50);
    // A dead target draws no further shot.
    let again = server.resolve(&Vec::new()).unwrap();
    assert_eq!(again.states.len(), 0);
}

#[test]
fn lost_sight_stops_shooting() {
    let walls = vec![Trig { a: pt(5000, -1000), b: pt(5000, 1000), c: pt(6000, 0) }];
    let mut shooter = unit(0, 0, 0, 0);
    shooter.action = Action::Shoot;
    shooter.target_id = 1;
    let init = snapshot(0, &[shooter, unit(1, 10000, 0, 0)]);
    let mut server = Server::new(init, walls);
    let snap = server.resolve(&Vec::new()).unwrap();
    assert_eq!(snap.time, 1);
    assert_eq!(snap.states.len(), 1);
    let s = *snap.states.get(0).unwrap();
    assert_eq!(s.target_id, NULL_ID);
    assert_eq!(s.action, Action::Mobile);
    assert_eq!(s.time, 1);
    assert_eq!(s.infer_command(2), None);
}

#[test]
fn walking_into_wall_stops_within_a_tick() {
    let walls = vec![Trig { a: pt(450, -1000), b: pt(450, 1000), c: pt(2000, 0) }];
    let mut walker = unit(0, 0, 0, 0);
    walker.vel = pt(100, 0);
    let init = snapshot(0, &[walker, unit(1, -5000, 0, 0)]);
    let mut server = Server::new(init, walls);
    let snap = server.resolve(&vec![unit(1, -5000, 0, 10)]).unwrap();
    // It enters the wall at 4.5 ticks; the sample at 5 sees it and the stop
    // is set at the last good instant, 4.
    assert_eq!(snap.time, 4);
    let s = *snap.states.get(0).unwrap();
    assert_eq!(s.pos, pt(400, 0));
    assert_eq!(s.vel, pt(0, 0));
}

fn client_with_plan(plan: Vec<Command>) -> Client {
    let init = snapshot(0, &[unit(0, 0, 0, 0)]);
    let mut c = Client::new(init, Vec::new());
    c.plans.insert(0, plan);
    c
}

#[test]
fn new_client_is_idle() {
    let c = Client::new(snapshot(0, &[unit(0, 0, 0, 0), unit(4, 1, 1, 0)]), Vec::new());
    assert_eq!(c.current_commands.len(), 2);
    assert_eq!(c.current_commands.get(4), Some(&None));
    assert_eq!(c.plans.get(4).unwrap().len(), 0);
    assert_eq!(c.confirmed.len(), 0);
}

#[test]
fn next_moves_starts_plan_head() {
    let c = client_with_plan(vec![Command::Nav(pt(1000, 0)), Command::Wait(3)]);
    let moves = c.next_moves();
    assert_eq!(moves.len(), 1);
    let m = *moves.get(0).unwrap();
    assert_eq!(m.vel, pt(100, 0));
    assert_eq!(m.time, 0);
    let idle = client_with_plan(Vec::new());
    assert_eq!(idle.next_moves().len(), 0);
}

#[test]
fn accept_matching_outcome_pops_plan() {
    let mut c = client_with_plan(vec![Command::Nav(pt(1000, 0)), Command::Wait(3)]);
    let expected = c.next_moves();
    let outcome = snapshot(0, &[*expected.get(0).unwrap()]);
    c.accept_outcome(&expected, &outcome);
    assert_eq!(c.current.time, 1);
    assert_eq!(c.plans.get(0).unwrap(), &vec![Command::Wait(3)]);
    assert_eq!(c.current_commands.get(0), Some(&Some((10, Command::Nav(pt(1000, 0))))));
    assert_eq!(c.confirmed.len(), 1);
    assert_eq!(c.current.states.get(0), outcome.states.get(0));
}

#[test]
fn accept_matching_outcome_with_empty_plan() {
    let mut c = client_with_plan(Vec::new());
    let expected = IdMap::new();
    let outcome = snapshot(7, &[unit(0, 3, 3, 7)]);
    c.accept_outcome(&expected, &outcome);
    assert_eq!(c.plans.get(0).unwrap().len(), 0);
    assert_eq!(c.current_commands.get(0), Some(&None));
    assert_eq!(c.current.time, 8);
}

#[test]
fn accept_diverging_outcome_drops_plan() {
    let mut c = client_with_plan(vec![Command::Nav(pt(1000, 0)), Command::Wait(3)]);
    let expected = c.next_moves();
    let mut other = unit(0, 0, 0, 0);
    other.vel = pt(50, 0);
    let outcome = snapshot(0, &[other]);
    c.accept_outcome(&expected, &outcome);
    assert_eq!(c.plans.get(0).unwrap().len(), 0);
    assert_eq!(c.current_commands.get(0), Some(&other.infer_command(1)));
    assert_eq!(c.current_commands.get(0), Some(&Some((1, Command::Nav(pt(50, 0))))));
}

#[test]
fn gen_planned_previews_a_walk() {
    let c = client_with_plan(vec![Command::Nav(pt(1000, 0))]);
    let (plans, timeline) = c.gen_planned(100);
    assert_eq!(plans.get(0).unwrap(), &vec![Command::Nav(pt(1000, 0))]);
    assert_eq!(timeline.len(), 2);
    assert_eq!(timeline.bucket_at(0).time, 0);
    assert_eq!(timeline.bucket_at(1).time, 10);
    let end = *timeline.bucket_at(1).states.get(0).unwrap();
    assert_eq!(end.pos, pt(1000, 0));
    assert_eq!(end.vel, pt(0, 0));
    // The client itself is untouched.
    assert_eq!(c.confirmed.len(), 0);
    assert_eq!(c.plans.get(0).unwrap().len(), 1);
}

#[test]
fn gen_planned_stops_at_round_limit() {
    let c = client_with_plan(vec![Command::Nav(pt(1000, 0))]);
    let (_, timeline) = c.gen_planned(1);
    assert_eq!(timeline.len(), 1);
}

#[test]
fn read_units_numbers_from_zero() {
    let units = vec![
        Unit { team: 0, pos: pt(1, 2), weapon: Weapon::Gun },
        Unit { team: 1, pos: pt(3, 4), weapon: Weapon::Gun },
    ];
    let (teams, init) = read_units(&units);
    assert_eq!(teams.get(1), Some(&1));
    assert_eq!(init.time, 0);
    assert_eq!(init.states.get(0), Some(&unit(0, 1, 2, 0)));
    assert_eq!(init.states.get(1), Some(&unit(1, 3, 4, 0)));
}

#[test]
fn read_map_fans_polygons() {
    let polys = vec![vec![pt(0, 0), pt(10, 0), pt(10, 10), pt(0, 10)], vec![pt(1, 1), pt(2, 2)]];
    let walls = read_map(&polys);
    assert_eq!(walls.len(), 2);
    assert_eq!(walls[0], Trig { a: pt(0, 0), b: pt(10, 0), c: pt(10, 10) });
    assert_eq!(walls[1], Trig { a: pt(0, 0), b: pt(10, 10), c: pt(0, 10) });
}

#[test]
fn update_compare_flags_changes() {
    let a = unit(0, 0, 0, 0);
    let mut b = a;
    b.vel = pt(1, 0);
    let r = Update::compare(a, b);
    assert!(r.vel);
    assert!(!r.target);
}

#[test]
fn empty_map_keeps_keys() {
    let mut base: IdMap<u8> = IdMap::new();
    base.insert(9, 1);
    base.insert(2, 1);
    let m: IdMap<Option<u64>> = empty_map(&base);
    assert_eq!(m.len(), 2);
    assert_eq!(m.get(9), Some(&None));
    assert_eq!(m.key_at(0), 2);
}

#[test]
fn timeline_from_states_files_by_time() {
    let tl = Timeline::from_states(&vec![unit(0, 0, 0, 4), unit(1, 0, 0, 2), unit(0, 5, 5, 4)]);
    assert_eq!(tl.len(), 2);
    assert_eq!(tl.bucket_at(0).time, 2);
    assert_eq!(tl.bucket_at(1).states.len(), 1);
    assert_eq!(tl.bucket_at(1).states.get(0), Some(&unit(0, 5, 5, 4)));
}

#[test]
fn edit_plan_pushes_and_pops() {
    let mut c = client_with_plan(vec![Command::Wait(2)]);
    c.edit_plan(0, PlanEdit::Push(Command::Shoot(3)));
    assert_eq!(c.plans.get(0).unwrap(), &vec![Command::Wait(2), Command::Shoot(3)]);
    c.edit_plan(0, PlanEdit::Pop);
    c.edit_plan(0, PlanEdit::Pop);
    c.edit_plan(0, PlanEdit::Pop);
    assert_eq!(c.plans.get(0).unwrap().len(), 0);
    c.edit_plan(7, PlanEdit::Push(Command::Wait(1)));
    assert_eq!(c.plans.get(7), None);
}

#[test]
fn nearest_unit_prefers_lowest_id_on_ties() {
    let display = snapshot(0, &[unit(2, 10, 0, 0), unit(5, -10, 0, 0), unit(9, 100, 100, 0)]);
    assert_eq!(unit_nearest(&display, pt(0, 0)), 2);
    assert_eq!(unit_nearest(&display, pt(-8, 1)), 5);
    assert_eq!(unit_nearest(&display, pt(90, 90)), 9);
    assert_eq!(unit_nearest(&Snapshot::new(), pt(0, 0)), NULL_ID);
}

#[test]
fn updates_between_flags_changed_units() {
    let mut moving = unit(0, 0, 0, 0);
    moving.vel = pt(3, 0);
    let old = snapshot(0, &[unit(0, 0, 0, 0), unit(1, 0, 0, 0)]);
    let new = snapshot(1, &[moving, unit(1, 0, 0, 1), unit(2, 0, 0, 1)]);
    let ups = updates_between(&old, &new);
    assert_eq!(ups.len(), 2);
    assert_eq!(ups.get(0), Some(&Update { vel: true, target: false }));
    assert_eq!(ups.get(1), Some(&Update { vel: false, target: false }));
    assert_eq!(ups.get(2), None);
}

#[test]
fn preview_round_commits_one_instant() {
    let mut c = client_with_plan(vec![Command::Nav(pt(1000, 0))]);
    let mut sim = Server::new(c.current.duplicate(), Vec::new());
    assert!(c.preview_round(&mut sim));
    assert_eq!(sim.current.time, 0);
    assert_eq!(c.current_commands.get(0), Some(&Some((10, Command::Nav(pt(1000, 0))))));
    assert!(c.preview_round(&mut sim));
    assert_eq!(sim.current.time, 10);
    assert!(!c.preview_round(&mut sim));
    assert_eq!(c.confirmed.len(), 2);
}

#[test]
fn walk_arrives_exactly() {
    let mut u = unit(0, 0, 0, 0);
    let d = u.command_start(Command::Nav(pt(1002, 0)));
    assert_eq!(d, 11);
    assert_eq!(u.vel, pt(91, 0));
    u.command_end(Command::Nav(pt(1002, 0)), d);
    assert_eq!(u.pos, pt(1002, 0));
    assert_eq!(u.vel, pt(0, 0));
    assert_eq!(u.time, 11);
}

#[test]
fn omitted_unit_that_changed_drops_plan() {
    let init = snapshot(0, &[unit(0, 0, 0, 0), unit(1, 500, 0, 0)]);
    let mut c = Client::new(init, Vec::new());
    c.plans.insert(1, vec![Command::Wait(5), Command::Wait(5)]);
    let expected = IdMap::new();
    let mut dead = unit(1, 500, 0, 50);
    dead.action = Action::Dead;
    let outcome = snapshot(50, &[dead]);
    c.accept_outcome(&expected, &outcome);
    assert_eq!(c.plans.get(1).unwrap().len(), 0);
    assert_eq!(c.current_commands.get(1), Some(&None));
}

#[test]
fn omitted_unit_that_stayed_pops_plan() {
    let init = snapshot(0, &[unit(0, 0, 0, 0), unit(1, 500, 0, 0)]);
    let mut c = Client::new(init, Vec::new());
    c.plans.insert(1, vec![Command::Wait(5), Command::Wait(7)]);
    let outcome = snapshot(0, &[unit(1, 500, 0, 0)]);
    c.accept_outcome(&IdMap::new(), &outcome);
    assert_eq!(c.plans.get(1).unwrap(), &vec![Command::Wait(7)]);
    assert_eq!(c.current_commands.get(1), Some(&Some((5, Command::Wait(5)))));
}

#[test]
fn later_invalid_submission_does_not_block_round() {
    let walls = vec![Trig { a: pt(0, 0), b: pt(1000, 0), c: pt(0, 1000) }];
    let init = snapshot(0, &[unit(0, -500, 0, 0), unit(1, 5000, 0, 0)]);
    let mut server = Server::new(init, walls);
    let mut bad = unit(0, 100, 100, 9);
    bad.vel = pt(10, 0);
    let snap = server.resolve(&vec![bad, unit(1, 5000, 0, 5)]).unwrap();
    assert_eq!(snap.time, 5);
    assert_eq!(snap.states.len(), 1);
    assert_eq!(server.current.time, 5);
    // At its own instant the bad state is rejected.
    let r = server.resolve(&vec![bad]);
    assert_eq!(r.err(), Some(0));
}

#[test]
fn server_keeps_committed_deltas() {
    let init = snapshot(0, &[unit(0, 0, 0, 0), unit(1, 5000, 0, 0)]);
    let mut server = Server::new(init, Vec::new());
    server.resolve(&vec![unit(0, 10, 0, 3)]).unwrap();
    server.resolve(&vec![unit(1, 10, 0, 8)]).unwrap();
    let empty = server.resolve(&Vec::new()).unwrap();
    assert_eq!(empty.states.len(), 0);
    assert_eq!(server.confirmed.len(), 2);
    assert_eq!(server.confirmed.bucket_at(0).time, 3);
    assert_eq!(server.confirmed.bucket_at(1).states.get(1), Some(&unit(1, 10, 0, 8)));
}
