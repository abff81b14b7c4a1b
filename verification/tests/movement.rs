use std::collections::VecDeque;

use ecosystem_sim::animal_behaviour::{
    direction_vector, dot_product, tick_all, within_reach, Agent, AnimalBehaviourPlugin, ApplyVelocityEvent,
    PathProgress, Velocity, BUNNY_SPEED, VELOCITY_REAPPLY_TILE_PROXIMITY,
};
use ecosystem_sim::arrival::{MAX_TICK_MICROS, MIN_TICK_MICROS};
use ecosystem_sim::components::{AnimalDirection, AnimalState, Path};
use ecosystem_sim::geometry::Pos;
use ecosystem_sim::map::{GridMap, TileType};
use ecosystem_sim::pathfinder::Pathfinder;

const FRAME: u64 = 16_667;

fn pos(x: i32, y: i32) -> Pos {
    Pos { x, y }
}

fn path(points: &[(i32, i32)]) -> Path {
    Path(points.iter().map(|(x, y)| pos(*x, *y)).collect::<VecDeque<Pos>>())
}

fn velocity_between(from: (i32, i32), to: (i32, i32)) -> Velocity {
    AnimalBehaviourPlugin::apply_velocity(&ApplyVelocityEvent {
        entity: 1,
        pos: pos(from.0, from.1),
        destination: pos(to.0, to.1),
    })
}

fn facing_after(v: (i32, i32), before: AnimalDirection) -> AnimalDirection {
    let mut direction = before;
    AnimalBehaviourPlugin::evaluate_animal_direction(&Velocity { x: v.0, y: v.1 }, &mut direction);
    direction
}

fn state_after(before: AnimalState, has_velocity: bool) -> AnimalState {
    let mut state = before;
    AnimalBehaviourPlugin::evaluate_animal_state(&mut state, has_velocity);
    state
}

const DIRECTIONS: [AnimalDirection; 4] =
    [AnimalDirection::Up, AnimalDirection::Down, AnimalDirection::Right, AnimalDirection::Left];

#[test]
fn velocity_is_the_unit_vector_to_the_destination() {
    assert_eq!(velocity_between((0, 0), (4000, 0)), Velocity { x: 1000, y: 0 });
    assert_eq!(velocity_between((0, 0), (0, 4000)), Velocity { x: 0, y: 1000 });
    assert_eq!(velocity_between((4000, 0), (0, 0)), Velocity { x: -1000, y: 0 });
    assert_eq!(velocity_between((0, 4000), (0, 0)), Velocity { x: 0, y: -1000 });
    assert_eq!(velocity_between((1000, 1000), (4000, 5000)), Velocity { x: 600, y: 800 });
    assert_eq!(velocity_between((4000, 5000), (1000, 1000)), Velocity { x: -600, y: -800 });
    assert_eq!(velocity_between((0, 0), (-3000, 4000)), Velocity { x: -600, y: 800 });
}

#[test]
fn velocity_coordinates_are_rounded_towards_zero() {
    // the length of (4000, 4000) is 5656.85.., rounded up 5657
    assert_eq!(velocity_between((0, 0), (4000, 4000)), Velocity { x: 707, y: 707 });
    assert_eq!(velocity_between((0, 0), (-4000, -4000)), Velocity { x: -707, y: -707 });
    // the length of (1, 1) is rounded up to 2
    assert_eq!(velocity_between((0, 0), (1, 1)), Velocity { x: 500, y: 500 });
    assert_eq!(velocity_between((0, 0), (2, -1)), Velocity { x: 666, y: -333 });
}

#[test]
fn velocity_towards_the_own_position_is_zero() {
    assert_eq!(velocity_between((123, -456), (123, -456)), Velocity { x: 0, y: 0 });
}

#[test]
fn velocity_between_the_ends_of_the_plane() {
    let v = velocity_between((i32::MIN, i32::MIN), (i32::MAX, i32::MAX));
    assert_eq!(v, Velocity { x: 707, y: 707 });
    let w = velocity_between((i32::MAX, 0), (i32::MIN, 0));
    assert_eq!(w, Velocity { x: -1000, y: 0 });
}

#[test]
fn a_tick_carries_an_agent_along_its_velocity() {
    let mut at = pos(1000, 2000);
    AnimalBehaviourPlugin::move_animals(&Velocity { x: 1000, y: 0 }, &mut at, 1_000_000);
    assert_eq!(at, pos(1000 + 15 * 1000, 2000));
    AnimalBehaviourPlugin::move_animals(&Velocity { x: 0, y: -1000 }, &mut at, 1_000_000);
    assert_eq!(at, pos(16000, 2000 - 15000));
    let mut at = pos(0, 0);
    AnimalBehaviourPlugin::move_animals(&Velocity { x: 600, y: 800 }, &mut at, 500_000);
    assert_eq!(at, pos(4500, 6000));
    assert_eq!(BUNNY_SPEED, 15);
}

#[test]
fn the_way_of_a_tick_is_rounded_towards_zero() {
    // 1000 * 15 * 16667 / 1000000 = 250.005
    let mut at = pos(0, 0);
    AnimalBehaviourPlugin::move_animals(&Velocity { x: 1000, y: -1000 }, &mut at, FRAME);
    assert_eq!(at, pos(250, -250));
    // 707 * 15 * 16667 / 1000000 = 176.75..
    let mut at = pos(0, 0);
    AnimalBehaviourPlugin::move_animals(&Velocity { x: 707, y: -707 }, &mut at, FRAME);
    assert_eq!(at, pos(176, -176));
    // less than one step
    let mut at = pos(5, 5);
    AnimalBehaviourPlugin::move_animals(&Velocity { x: 1000, y: -1000 }, &mut at, 66);
    assert_eq!(at, pos(5, 5));
    let mut at = pos(5, 5);
    AnimalBehaviourPlugin::move_animals(&Velocity { x: 1000, y: -1000 }, &mut at, 67);
    assert_eq!(at, pos(6, 4));
}

#[test]
fn no_time_and_no_velocity_move_nothing() {
    let mut at = pos(7, -7);
    AnimalBehaviourPlugin::move_animals(&Velocity { x: 1000, y: 1000 }, &mut at, 0);
    assert_eq!(at, pos(7, -7));
    AnimalBehaviourPlugin::move_animals(&Velocity { x: 0, y: 0 }, &mut at, u64::MAX);
    assert_eq!(at, pos(7, -7));
}

#[test]
fn a_position_stops_at_the_end_of_its_range() {
    let mut at = pos(i32::MAX - 10, i32::MIN + 10);
    AnimalBehaviourPlugin::move_animals(&Velocity { x: 1000, y: -1000 }, &mut at, 1_000_000);
    assert_eq!(at, pos(i32::MAX, i32::MIN));
    let mut at = pos(0, 0);
    AnimalBehaviourPlugin::move_animals(&Velocity { x: i32::MAX, y: i32::MIN }, &mut at, u64::MAX);
    assert_eq!(at, pos(i32::MAX, i32::MIN));
}

#[test]
fn arrival_is_within_the_tolerance_along_both_axes() {
    assert_eq!(VELOCITY_REAPPLY_TILE_PROXIMITY, 6000);
    let target = pos(10000, 10000);
    assert!(within_reach(&pos(10000, 10000), &target));
    assert!(within_reach(&pos(16000, 4000), &target));
    assert!(within_reach(&pos(4000, 16000), &target));
    assert!(!within_reach(&pos(16001, 10000), &target));
    assert!(!within_reach(&pos(10000, 3999), &target));
    assert!(!within_reach(&pos(3999, 10000), &target));
    assert!(!within_reach(&pos(10000, 16001), &target));
    assert!(!within_reach(&pos(i32::MIN, i32::MAX), &pos(i32::MAX, i32::MIN)));
}

#[test]
fn velocity_along_an_axis_turns_the_agent() {
    for before in DIRECTIONS {
        assert_eq!(facing_after((1, 0), before), AnimalDirection::Right);
        assert_eq!(facing_after((0, 1), before), AnimalDirection::Up);
        assert_eq!(facing_after((-1, 0), before), AnimalDirection::Left);
        assert_eq!(facing_after((0, -1), before), AnimalDirection::Down);
        assert_eq!(facing_after((1000, 0), before), AnimalDirection::Right);
        assert_eq!(facing_after((0, 1000), before), AnimalDirection::Up);
    }
}

#[test]
fn zero_velocity_leaves_the_direction() {
    for before in DIRECTIONS {
        assert_eq!(facing_after((0, 0), before), before);
    }
}

#[test]
fn the_direction_that_fits_best_wins() {
    for before in DIRECTIONS {
        assert_eq!(facing_after((600, 800), before), AnimalDirection::Up);
        assert_eq!(facing_after((800, 600), before), AnimalDirection::Right);
        assert_eq!(facing_after((800, -600), before), AnimalDirection::Right);
        assert_eq!(facing_after((-600, -800), before), AnimalDirection::Down);
        assert_eq!(facing_after((-800, 799), before), AnimalDirection::Left);
        assert_eq!(facing_after((i32::MIN, i32::MAX), before), AnimalDirection::Left);
        assert_eq!(facing_after((i32::MAX, i32::MIN), before), AnimalDirection::Down);
    }
}

#[test]
fn a_tie_leaves_the_direction() {
    for before in DIRECTIONS {
        assert_eq!(facing_after((707, 707), before), before);
        assert_eq!(facing_after((707, -707), before), before);
        assert_eq!(facing_after((-707, 707), before), before);
        assert_eq!(facing_after((-1, -1), before), before);
    }
}

#[test]
fn an_eating_agent_goes_on_eating() {
    assert_eq!(state_after(AnimalState::Eating, true), AnimalState::Eating);
    assert_eq!(state_after(AnimalState::Eating, false), AnimalState::Eating);
}

#[test]
fn the_state_follows_the_velocity() {
    assert_eq!(state_after(AnimalState::Idle, true), AnimalState::Moving);
    assert_eq!(state_after(AnimalState::Moving, true), AnimalState::Moving);
    assert_eq!(state_after(AnimalState::Idle, false), AnimalState::Idle);
    assert_eq!(state_after(AnimalState::Moving, false), AnimalState::Idle);
}

#[test]
fn the_first_velocity_points_to_the_first_position() {
    let way = path(&[(4000, 0), (8000, 0)]);
    let request = AnimalBehaviourPlugin::apply_initial_velocity(7, &way, &pos(100, 200));
    assert_eq!(
        request,
        Some(ApplyVelocityEvent { entity: 7, pos: pos(100, 200), destination: pos(4000, 0) })
    );
    assert_eq!(AnimalBehaviourPlugin::apply_initial_velocity(7, &path(&[]), &pos(100, 200)), None);
}

#[test]
fn an_empty_path_is_finished() {
    let mut way = path(&[]);
    for moving in [false, true] {
        let progress = AnimalBehaviourPlugin::move_along_path(3, &mut way, &pos(0, 0), moving);
        assert_eq!(progress, PathProgress::Finished);
        assert!(way.0.is_empty());
    }
}

#[test]
fn an_agent_that_has_not_arrived_keeps_its_path() {
    let mut way = path(&[(20000, 0), (24000, 0)]);
    let progress = AnimalBehaviourPlugin::move_along_path(3, &mut way, &pos(0, 0), true);
    assert_eq!(progress, PathProgress::Keep);
    assert_eq!(way.0.len(), 2);
    // at rest nothing is taken off the path, however near the agent is
    let progress = AnimalBehaviourPlugin::move_along_path(3, &mut way, &pos(20000, 0), false);
    assert_eq!(progress, PathProgress::Keep);
    assert_eq!(way.0.len(), 2);
}

#[test]
fn an_agent_that_has_arrived_turns_to_the_next_position() {
    let mut way = path(&[(20000, 0), (24000, 0), (28000, 4000)]);
    let at = pos(14000, 6000);
    let progress = AnimalBehaviourPlugin::move_along_path(3, &mut way, &at, true);
    assert_eq!(
        progress,
        PathProgress::Reapply(ApplyVelocityEvent { entity: 3, pos: at, destination: pos(24000, 0) })
    );
    assert_eq!(way.0, VecDeque::from(vec![pos(24000, 0), pos(28000, 4000)]));
}

#[test]
fn an_agent_that_has_arrived_at_the_last_position_is_finished() {
    let mut way = path(&[(20000, 0)]);
    let progress = AnimalBehaviourPlugin::move_along_path(3, &mut way, &pos(26000, -6000), true);
    assert_eq!(progress, PathProgress::Finished);
    assert!(way.0.is_empty());
}

#[test]
fn a_new_agent_is_idle() {
    let agent = Agent::new(9, pos(1, 2));
    assert_eq!(agent.entity, 9);
    assert_eq!(agent.pos, pos(1, 2));
    assert!(agent.velocity.is_none());
    assert!(agent.path.is_none());
    assert_eq!(agent.state, AnimalState::Idle);
    assert_eq!(agent.direction, AnimalDirection::Down);
}

#[test]
fn an_agent_walks_its_path_to_the_end() {
    let finder = Pathfinder::new(GridMap::with_size(10, 10).unwrap());
    let start = pos(0, 0);
    let goal = pos(9 * 4000, 7 * 4000);
    let way = finder.a_star(start, goal).unwrap();
    assert_eq!(*way.back().unwrap(), goal);
    let mut agent = Agent::new(1, start);
    agent.set_path(Path(way));
    let mut ticks = 0;
    while agent.path.is_some() {
        agent.tick(FRAME);
        ticks += 1;
        assert!(ticks < 1000);
        if agent.path.is_some() {
            assert!(agent.velocity.is_some());
            assert_eq!(agent.state, AnimalState::Moving);
        }
    }
    assert!(agent.velocity.is_none());
    assert!(within_reach(&agent.pos, &goal));
    assert_eq!(agent.state, AnimalState::Idle);
    // nothing moves the agent any more
    let rest = agent.pos;
    agent.tick(FRAME);
    assert_eq!(agent.pos, rest);
    assert!(agent.path.is_none() && agent.velocity.is_none());
    assert_eq!(agent.state, AnimalState::Idle);
}

#[test]
fn the_first_ticks_of_a_walk() {
    let mut agent = Agent::new(1, pos(0, 0));
    agent.set_path(path(&[(20000, 0), (20000, 20000)]));
    agent.tick(FRAME);
    assert_eq!(agent.velocity, Some(Velocity { x: 1000, y: 0 }));
    assert_eq!(agent.pos, pos(250, 0));
    assert_eq!(agent.state, AnimalState::Moving);
    assert_eq!(agent.direction, AnimalDirection::Right);
    assert_eq!(agent.path.as_ref().unwrap().0.len(), 2);
    // 55 more ticks bring the agent to 14000, within reach of the first position
    for _ in 0..55 {
        agent.tick(FRAME);
    }
    assert_eq!(agent.pos, pos(14000, 0));
    assert_eq!(agent.path.as_ref().unwrap().0.len(), 2);
    // the next tick drops that position and turns to the second one:
    // the length of (6000, 20000) is 20880.6.., so the velocity is (287, 957)
    agent.tick(FRAME);
    assert_eq!(agent.path.as_ref().unwrap().0, VecDeque::from(vec![pos(20000, 20000)]));
    assert_eq!(agent.velocity, Some(Velocity { x: 287, y: 957 }));
    assert_eq!(agent.pos, pos(14000 + 71, 239));
    assert_eq!(agent.direction, AnimalDirection::Up);
}

#[test]
fn an_empty_path_is_dropped_at_the_next_tick() {
    let mut agent = Agent::new(1, pos(500, 500));
    agent.set_path(path(&[]));
    agent.tick(FRAME);
    assert!(agent.path.is_none());
    assert!(agent.velocity.is_none());
    assert_eq!(agent.pos, pos(500, 500));
    assert_eq!(agent.state, AnimalState::Idle);
    // with a velocity left over from before, too
    let mut agent = Agent::new(1, pos(500, 500));
    agent.velocity = Some(Velocity { x: 1000, y: 0 });
    agent.set_path(path(&[]));
    agent.tick(FRAME);
    assert!(agent.path.is_none());
    assert!(agent.velocity.is_none());
    assert_eq!(agent.pos, pos(500, 500));
}

#[test]
fn an_eating_agent_goes_on_eating_while_it_walks() {
    let mut agent = Agent::new(1, pos(0, 0));
    agent.state = AnimalState::Eating;
    agent.set_path(path(&[(8000, 0)]));
    let mut ticks = 0;
    while agent.path.is_some() {
        agent.tick(FRAME);
        assert_eq!(agent.state, AnimalState::Eating);
        ticks += 1;
        assert!(ticks < 100);
    }
    agent.tick(FRAME);
    assert_eq!(agent.state, AnimalState::Eating);
    assert!(agent.pos.x > 0);
}

#[test]
fn a_new_path_takes_the_place_of_the_old_one() {
    let mut agent = Agent::new(1, pos(0, 0));
    agent.set_path(path(&[(40000, 0)]));
    agent.tick(FRAME);
    agent.set_path(path(&[(0, 0)]));
    agent.tick(FRAME);
    assert!(agent.path.is_none());
    assert!(agent.velocity.is_none());
}

#[test]
fn steering_alone_does_not_move() {
    let mut agent = Agent::new(1, pos(0, 0));
    agent.set_path(path(&[(0, 40000)]));
    agent.steer();
    assert_eq!(agent.velocity, Some(Velocity { x: 0, y: 1000 }));
    assert_eq!(agent.pos, pos(0, 0));
    assert_eq!(agent.state, AnimalState::Idle);
    assert_eq!(agent.direction, AnimalDirection::Down);
}

#[test]
fn the_unit_vectors_of_the_directions() {
    assert_eq!(direction_vector(AnimalDirection::Up), (0, 1));
    assert_eq!(direction_vector(AnimalDirection::Down), (0, -1));
    assert_eq!(direction_vector(AnimalDirection::Left), (-1, 0));
    assert_eq!(direction_vector(AnimalDirection::Right), (1, 0));
}

#[test]
fn dot_products_with_the_unit_vectors() {
    let v = Velocity { x: 600, y: -800 };
    assert_eq!(dot_product(&v, AnimalDirection::Up), -800);
    assert_eq!(dot_product(&v, AnimalDirection::Down), 800);
    assert_eq!(dot_product(&v, AnimalDirection::Right), 600);
    assert_eq!(dot_product(&v, AnimalDirection::Left), -600);
    let far = Velocity { x: i32::MIN, y: i32::MIN };
    assert_eq!(dot_product(&far, AnimalDirection::Left), 1i64 << 31);
    assert_eq!(dot_product(&far, AnimalDirection::Down), 1i64 << 31);
}

fn ticks_to_the_end(start: Pos, goal: Pos, delta_micros: u64) -> (u32, Agent) {
    let finder = Pathfinder::new(GridMap::with_size(12, 12).unwrap());
    let way = finder.a_star(start, goal).unwrap();
    let mut agent = Agent::new(1, start);
    agent.set_path(Path(way));
    let mut ticks = 0;
    while agent.path.is_some() {
        agent.tick(delta_micros);
        ticks += 1;
        assert!(ticks < 200_000);
    }
    (ticks, agent)
}

#[test]
fn an_agent_arrives_with_the_shortest_and_the_longest_tick() {
    let start = pos(3999, 1);
    let goal = pos(11 * 4000 + 5, 2 * 4000 + 3000);
    for delta_micros in [MIN_TICK_MICROS, 16_667, 100_000, MAX_TICK_MICROS] {
        let (_, agent) = ticks_to_the_end(start, goal, delta_micros);
        assert!(agent.velocity.is_none());
        assert!(within_reach(&agent.pos, &pos(11 * 4000, 2 * 4000)));
    }
    for delta_micros in [MIN_TICK_MICROS, MAX_TICK_MICROS] {
        let (_, agent) = ticks_to_the_end(pos(11 * 4000, 11 * 4000), pos(0, 0), delta_micros);
        assert!(within_reach(&agent.pos, &pos(0, 0)));
        let (_, agent) = ticks_to_the_end(pos(0, 11 * 4000), pos(11 * 4000, 0), delta_micros);
        assert!(within_reach(&agent.pos, &pos(11 * 4000, 0)));
    }
}

#[test]
fn a_path_to_the_own_tile_ends_at_once() {
    let (ticks, agent) = ticks_to_the_end(pos(8100, 8200), pos(11999, 8000), 16_667);
    assert_eq!(ticks, 1);
    assert_eq!(agent.pos, pos(8100, 8200));
    assert!(within_reach(&agent.pos, &pos(8000, 8000)));
}

#[test]
fn a_tick_that_is_too_long_carries_the_agent_past_its_goal() {
    // two seconds at speed 15 are 30 units, and the tolerance is 6 units
    // to either side
    let mut agent = Agent::new(1, pos(0, 0));
    agent.set_path(path(&[(20000, 0)]));
    for tick in 1..=10 {
        agent.tick(2_000_000);
        assert_eq!(agent.pos, pos(30000 * tick, 0));
        assert!(agent.path.is_some());
        assert_eq!(agent.velocity, Some(Velocity { x: 1000, y: 0 }));
    }
}

#[test]
fn a_far_position_is_missed_where_rounding_bends_the_way() {
    // the velocity towards (200000, 8800) is (999, 43); a millisecond of it
    // is 14 steps along and, rounded, none across
    let mut agent = Agent::new(1, pos(0, 0));
    agent.set_path(path(&[(200000, 8800)]));
    agent.tick(1000);
    assert_eq!(agent.velocity, Some(Velocity { x: 999, y: 43 }));
    assert_eq!(agent.pos, pos(14, 0));
    for _ in 0..20_000 {
        agent.tick(1000);
    }
    assert_eq!(agent.pos, pos(14 * 20_001, 0));
    assert!(agent.path.is_some());
}

#[test]
fn an_agent_is_sent_where_a_way_leads() {
    let mut grid = GridMap::with_size(10, 10).unwrap();
    grid.set_tile_type(3, TileType::WATER);
    let finder = Pathfinder::new(grid);
    let mut agent = Agent::new(1, pos(100, 100));
    assert!(agent.send_to(&finder, pos(2 * 4000 + 7, 0)));
    assert_eq!(agent.path.as_ref().unwrap().0, VecDeque::from(vec![pos(4000, 0), pos(8000, 0)]));
    assert!(agent.velocity.is_none());
    assert_eq!(agent.pos, pos(100, 100));
    assert_eq!(agent.state, AnimalState::Idle);
    // no way to water and none off the grid: the agent keeps its path
    assert!(!agent.send_to(&finder, pos(3 * 4000, 0)));
    assert!(!agent.send_to(&finder, pos(-1, 0)));
    assert_eq!(agent.path.as_ref().unwrap().0.len(), 2);
    // a way to the own tile is empty
    assert!(agent.send_to(&finder, pos(0, 3999)));
    assert!(agent.path.as_ref().unwrap().0.is_empty());
}

#[test]
fn a_tick_for_every_agent() {
    let mut walker = Agent::new(1, pos(0, 0));
    walker.set_path(path(&[(8000, 0)]));
    let mut eater = Agent::new(2, pos(50, 50));
    eater.state = AnimalState::Eating;
    let mut done = Agent::new(3, pos(7, 7));
    done.set_path(path(&[]));
    let mut agents = vec![walker.clone(), eater.clone(), done.clone()];
    tick_all(&mut agents, FRAME);
    walker.tick(FRAME);
    eater.tick(FRAME);
    done.tick(FRAME);
    assert_eq!(agents.len(), 3);
    for (ticked, alone) in agents.iter().zip([walker, eater, done].iter()) {
        assert_eq!(ticked.entity, alone.entity);
        assert_eq!(ticked.pos, alone.pos);
        assert_eq!(ticked.velocity, alone.velocity);
        assert_eq!(ticked.state, alone.state);
        assert_eq!(ticked.direction, alone.direction);
        assert_eq!(ticked.path.as_ref().map(|p| p.0.clone()), alone.path.as_ref().map(|p| p.0.clone()));
    }
    assert_eq!(agents[0].pos, pos(250, 0));
    assert_eq!(agents[1].state, AnimalState::Eating);
    assert!(agents[2].path.is_none());
    tick_all(&mut Vec::new(), FRAME);
}
