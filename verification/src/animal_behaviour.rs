//! How an agent moves along its path, tick by tick: velocity, position,
//! facing and state.

use vstd::prelude::*;
use crate::components::{AnimalDirection, AnimalState, Path};
use crate::geometry::{
    ceil_sqrt, lemma_ceil_sqrt_exists, lemma_division, lemma_length_bounds,
    lemma_square_monotone, length_up, Pos, UNIT,
};
use crate::pathfinder::{find_path, Pathfinder};

verus! {

/// Speed of a bunny, in world units per second.
pub const BUNNY_SPEED: i32 = 15;

/// An agent has arrived at a position once it is no further from it than
/// this along either axis, in position steps.
pub const VELOCITY_REAPPLY_TILE_PROXIMITY: i32 = 6000;

/// Number of microseconds in a second.
pub const MICROS_PER_SECOND: u32 = 1000000;

/// The direction in which an agent moves: a vector whose coordinates count
/// thousandths, of length one or just below it (or zero).
#[derive(Clone, Copy, Debug, PartialEq, Eq, Structural)]
pub struct Velocity {
    pub x: i32,
    pub y: i32,
}

/// Asks for the velocity of `entity` to be set: from `pos` towards
/// `destination`.
#[derive(Clone, Copy, Debug, PartialEq, Eq, Structural)]
pub struct ApplyVelocityEvent {
    pub entity: u64,
    pub pos: Pos,
    pub destination: Pos,
}

/// `a` divided by `b`, rounded towards zero.
pub open spec fn trunc_div(a: int, b: int) -> int {
    if a >= 0 {
        a / b
    } else {
        -((-a) / b)
    }
}

/// `v` held to the range of `i32`.
pub open spec fn clamp_i32(v: int) -> int {
    if v < i32::MIN {
        i32::MIN as int
    } else if v > i32::MAX {
        i32::MAX as int
    } else {
        v
    }
}

/// The unit vector from `from` towards `to` in thousandths, each coordinate
/// rounded towards zero; the zero vector where the two are one point.
pub open spec fn toward(from: Pos, to: Pos) -> Velocity {
    let dx = to.x - from.x;
    let dy = to.y - from.y;
    let n = length_up(dx, dy);
    if n == 0 {
        Velocity { x: 0, y: 0 }
    } else {
        Velocity { x: trunc_div(dx * UNIT, n) as i32, y: trunc_div(dy * UNIT, n) as i32 }
    }
}

/// How far an agent with velocity coordinate `v` gets along that axis in
/// `delta_micros` microseconds, in position steps, rounded towards zero.
pub open spec fn displacement(v: int, delta_micros: int) -> int {
    trunc_div(v * BUNNY_SPEED * delta_micros, MICROS_PER_SECOND as int)
}

/// The position of an agent that leaves `pos` with velocity `v` for
/// `delta_micros` microseconds. A coordinate stops at the end of its range.
pub open spec fn advanced(pos: Pos, v: Velocity, delta_micros: int) -> Pos {
    Pos {
        x: clamp_i32(pos.x + displacement(v.x as int, delta_micros)) as i32,
        y: clamp_i32(pos.y + displacement(v.y as int, delta_micros)) as i32,
    }
}

/// `pos` is no further from `target` than the arrival tolerance along either
/// axis.
pub open spec fn arrived(pos: Pos, target: Pos) -> bool {
    &&& -VELOCITY_REAPPLY_TILE_PROXIMITY <= pos.x - target.x <= VELOCITY_REAPPLY_TILE_PROXIMITY
    &&& -VELOCITY_REAPPLY_TILE_PROXIMITY <= pos.y - target.y <= VELOCITY_REAPPLY_TILE_PROXIMITY
}

/// The unit vector of a direction.
pub open spec fn unit_vector(d: AnimalDirection) -> (int, int) {
    match d {
        AnimalDirection::Up => (0, 1),
        AnimalDirection::Down => (0, -1),
        AnimalDirection::Left => (-1, 0),
        AnimalDirection::Right => (1, 0),
    }
}

/// The dot product of `v` with the unit vector of `d`.
pub open spec fn dot(v: Velocity, d: AnimalDirection) -> int {
    v.x * unit_vector(d).0 + v.y * unit_vector(d).1
}

/// `d` fits `v` better than every other direction.
pub open spec fn dominates(v: Velocity, d: AnimalDirection) -> bool {
    forall|e: AnimalDirection| e != d ==> dot(v, d) > #[trigger] dot(v, e)
}

/// The direction an agent with velocity `v` faces: the one that fits `v`
/// best, and `current` where two or more fit it equally well.
pub open spec fn facing(v: Velocity, current: AnimalDirection) -> AnimalDirection {
    if dominates(v, AnimalDirection::Up) {
        AnimalDirection::Up
    } else if dominates(v, AnimalDirection::Down) {
        AnimalDirection::Down
    } else if dominates(v, AnimalDirection::Right) {
        AnimalDirection::Right
    } else if dominates(v, AnimalDirection::Left) {
        AnimalDirection::Left
    } else {
        current
    }
}

/// The state of an agent as its velocity shows it. An eating agent goes on
/// eating.
pub open spec fn derived_state(state: AnimalState, moving: bool) -> AnimalState {
    if state == AnimalState::Eating {
        AnimalState::Eating
    } else if moving {
        AnimalState::Moving
    } else {
        AnimalState::Idle
    }
}

/// What a tick finds of the path of an agent.
#[derive(Clone, Copy, Debug, PartialEq, Eq, Structural)]
pub enum PathProgress {
    /// Nothing is left of the path: the agent loses its path and its
    /// velocity.
    Finished,
    /// The agent has arrived at a position of its path, which has left the
    /// path: the velocity is to be set anew, towards the next one.
    Reapply(ApplyVelocityEvent),
    /// The agent goes on as it is.
    Keep,
}

/// What is left of the path `way` of an agent at `pos` after a tick, and what
/// the tick finds of it. An empty path is finished. A moving agent that has
/// arrived at the first position of its path is done with that position.
pub open spec fn path_step(entity: u64, way: Seq<Pos>, pos: Pos, moving: bool) -> (
    Seq<Pos>,
    PathProgress,
) {
    if way.len() == 0 {
        (way, PathProgress::Finished)
    } else if !moving || !arrived(pos, way[0]) {
        (way, PathProgress::Keep)
    } else if way.len() == 1 {
        (way.skip(1), PathProgress::Finished)
    } else {
        (
            way.skip(1),
            PathProgress::Reapply(ApplyVelocityEvent { entity, pos, destination: way[1] }),
        )
    }
}

/// The dot product of a velocity with each unit vector is a coordinate of the
/// velocity, or its negative.
pub proof fn lemma_dot(v: Velocity)
    ensures
        dot(v, AnimalDirection::Up) == v.y,
        dot(v, AnimalDirection::Down) == -v.y,
        dot(v, AnimalDirection::Right) == v.x,
        dot(v, AnimalDirection::Left) == -v.x,
{
    assert(unit_vector(AnimalDirection::Up) == (0int, 1int));
    assert(unit_vector(AnimalDirection::Down) == (0int, -1int));
    assert(unit_vector(AnimalDirection::Right) == (1int, 0int));
    assert(unit_vector(AnimalDirection::Left) == (-1int, 0int));
    assert(v.x * 0 == 0 && v.y * 0 == 0 && v.x * 1 == v.x && v.y * 1 == v.y && v.x * (-1) == -v.x
        && v.y * (-1) == -v.y);
}

/// A direction fits a velocity better than every other one exactly where its
/// dot product is larger than each of the other three.
pub proof fn lemma_dominates(v: Velocity)
    ensures
        dominates(v, AnimalDirection::Up) <==> dot(v, AnimalDirection::Up) > dot(
            v,
            AnimalDirection::Down,
        ) && dot(v, AnimalDirection::Up) > dot(v, AnimalDirection::Right) && dot(
            v,
            AnimalDirection::Up,
        ) > dot(v, AnimalDirection::Left),
        dominates(v, AnimalDirection::Down) <==> dot(v, AnimalDirection::Down) > dot(
            v,
            AnimalDirection::Up,
        ) && dot(v, AnimalDirection::Down) > dot(v, AnimalDirection::Right) && dot(
            v,
            AnimalDirection::Down,
        ) > dot(v, AnimalDirection::Left),
        dominates(v, AnimalDirection::Right) <==> dot(v, AnimalDirection::Right) > dot(
            v,
            AnimalDirection::Up,
        ) && dot(v, AnimalDirection::Right) > dot(v, AnimalDirection::Down) && dot(
            v,
            AnimalDirection::Right,
        ) > dot(v, AnimalDirection::Left),
        dominates(v, AnimalDirection::Left) <==> dot(v, AnimalDirection::Left) > dot(
            v,
            AnimalDirection::Up,
        ) && dot(v, AnimalDirection::Left) > dot(v, AnimalDirection::Down) && dot(
            v,
            AnimalDirection::Left,
        ) > dot(v, AnimalDirection::Right),
{
}

/// The distance between two coordinates, and whether the second is the
/// smaller.
fn offset(from: i32, to: i32) -> (r: (u128, bool))
    ensures
        r.1 == (to < from),
        r.0 == if to < from { from - to } else { to - from },
        r.0 <= 0xffff_ffff,
{
    if to < from {
        ((from as i64 - to as i64) as u128, true)
    } else {
        ((to as i64 - from as i64) as u128, false)
    }
}

/// `magnitude`, negated where `negative` says so.
fn signed(magnitude: u128, negative: bool) -> (v: i32)
    requires
        magnitude <= 0x7fff_ffff,
    ensures
        v == if negative { -(magnitude as int) } else { magnitude as int },
{
    if negative {
        -(magnitude as i32)
    } else {
        magnitude as i32
    }
}

/// One coordinate of a unit vector in thousandths: `d` out of `n`.
fn scaled(d: u128, negative: bool, n: u128) -> (v: i32)
    requires
        d <= n,
        0 < n,
        d <= 0xffff_ffff,
    ensures
        v == trunc_div((if negative { -(d as int) } else { d as int }) * UNIT, n as int),
        -UNIT <= v <= UNIT,
{
    let q: u128 = d * (UNIT as u128) / n;
    proof {
        assert(d * 1000 / (n as int) <= 1000) by (nonlinear_arith)
            requires
                0 <= d <= n,
                0 < n,
        ;
        if negative {
            assert(-((-(d as int)) * 1000) == d * 1000);
            if d == 0 {
                assert(0int / (n as int) == 0) by (nonlinear_arith)
                    requires
                        0 < n,
                ;
            }
        }
    }
    signed(q, negative)
}

pub struct AnimalBehaviourPlugin;

impl AnimalBehaviourPlugin {
    /// The velocity that `ev` asks for: the unit vector from its position
    /// towards its destination.
    pub fn apply_velocity(ev: &ApplyVelocityEvent) -> (v: Velocity)
        ensures
            v == toward(ev.pos, ev.destination),
            -UNIT <= v.x <= UNIT,
            -UNIT <= v.y <= UNIT,
    {
        let (dx, left) = offset(ev.pos.x, ev.destination.x);
        let (dy, down) = offset(ev.pos.y, ev.destination.y);
        proof {
            lemma_square_monotone(dx as int, 0xffff_ffff);
            lemma_square_monotone(dy as int, 0xffff_ffff);
            let sx = ev.destination.x - ev.pos.x;
            let sy = ev.destination.y - ev.pos.y;
            assert(dx * dx == sx * sx) by (nonlinear_arith)
                requires
                    dx == sx || dx == -sx,
            ;
            assert(dy * dy == sy * sy) by (nonlinear_arith)
                requires
                    dy == sy || dy == -sy,
            ;
        }
        let n: u128 = ceil_sqrt(dx * dx + dy * dy);
        if n == 0 {
            return Velocity { x: 0, y: 0 };
        }
        proof {
            if n < dx {
                lemma_square_monotone(n as int, dx - 1);
                assert((dx - 1) * (dx - 1) < dx * dx) by (nonlinear_arith)
                    requires
                        dx >= 1,
                ;
                assert(dy * dy >= 0) by (nonlinear_arith);
            }
            if n < dy {
                lemma_square_monotone(n as int, dy - 1);
                assert((dy - 1) * (dy - 1) < dy * dy) by (nonlinear_arith)
                    requires
                        dy >= 1,
                ;
                assert(dx * dx >= 0) by (nonlinear_arith);
            }
        }
        Velocity { x: scaled(dx, left, n), y: scaled(dy, down, n) }
    }

    /// The request for a first velocity, for an agent that has a path and no
    /// velocity: towards the first position of the path. An empty path asks
    /// for nothing.
    pub fn apply_initial_velocity(entity: u64, path: &Path, pos: &Pos) -> (request: Option<
        ApplyVelocityEvent,
    >)
        ensures
            request == if path@.len() == 0 {
                None
            } else {
                Some(ApplyVelocityEvent { entity, pos: *pos, destination: path@[0] })
            },
    {
        if path.0.len() == 0 {
            None
        } else {
            Some(ApplyVelocityEvent { entity, pos: *pos, destination: path.0[0] })
        }
    }

    /// Takes the first position off the path of an agent that has arrived at
    /// it, and says what follows for the agent.
    pub fn move_along_path(entity: u64, path: &mut Path, pos: &Pos, moving: bool) -> (progress:
        PathProgress)
        ensures
            (final(path)@, progress) == path_step(entity, old(path)@, *pos, moving),
    {
        if path.0.len() == 0 {
            return PathProgress::Finished;
        }
        let next_step_in_path: Pos = path.0[0];
        if !moving || !within_reach(pos, &next_step_in_path) {
            return PathProgress::Keep;
        }
        let _ = path.0.pop_front();
        assert(path@ =~= old(path)@.skip(1));
        if path.0.len() == 0 {
            PathProgress::Finished
        } else {
            PathProgress::Reapply(ApplyVelocityEvent { entity, pos: *pos, destination: path.0[0] })
        }
    }

    /// Moves an agent for `delta_micros` microseconds along its velocity.
    pub fn move_animals(velocity: &Velocity, pos: &mut Pos, delta_micros: u64)
        ensures
            *final(pos) == advanced(*old(pos), *velocity, delta_micros as int),
    {
        let x: i32 = carried(pos.x, velocity.x, delta_micros);
        let y: i32 = carried(pos.y, velocity.y, delta_micros);
        pos.x = x;
        pos.y = y;
    }

    /// Turns an agent to where its velocity points. Where two directions fit
    /// the velocity equally well, the agent keeps looking where it looked.
    pub fn evaluate_animal_direction(velocity: &Velocity, direction: &mut AnimalDirection)
        ensures
            *final(direction) == facing(*velocity, *old(direction)),
    {
        proof {
            lemma_dominates(*velocity);
        }
        let up: i64 = dot_product(velocity, AnimalDirection::Up);
        let down: i64 = dot_product(velocity, AnimalDirection::Down);
        let right: i64 = dot_product(velocity, AnimalDirection::Right);
        let left: i64 = dot_product(velocity, AnimalDirection::Left);
        if up > down && up > right && up > left {
            *direction = AnimalDirection::Up;
        } else if down > up && down > right && down > left {
            *direction = AnimalDirection::Down;
        } else if right > up && right > down && right > left {
            *direction = AnimalDirection::Right;
        } else if left > up && left > down && left > right {
            *direction = AnimalDirection::Left;
        }
    }

    /// Sets the state of an agent by whether it has a velocity. An eating
    /// agent goes on eating.
    pub fn evaluate_animal_state(state: &mut AnimalState, has_velocity: bool)
        ensures
            *final(state) == derived_state(*old(state), has_velocity),
            *old(state) == AnimalState::Eating ==> *final(state) == AnimalState::Eating,
    {
        match *state {
            AnimalState::Eating => {},
            _ => {
                if has_velocity {
                    *state = AnimalState::Moving;
                } else {
                    *state = AnimalState::Idle;
                }
            },
        }
    }
}

/// The unit vector of a direction.
pub fn direction_vector(direction: AnimalDirection) -> (v: (i32, i32))
    ensures
        (v.0 as int, v.1 as int) == unit_vector(direction),
{
    match direction {
        AnimalDirection::Up => (0, 1),
        AnimalDirection::Down => (0, -1),
        AnimalDirection::Left => (-1, 0),
        AnimalDirection::Right => (1, 0),
    }
}

/// The dot product of `velocity` with the unit vector of `direction`.
pub fn dot_product(velocity: &Velocity, direction: AnimalDirection) -> (d: i64)
    ensures
        d == dot(*velocity, direction),
{
    let unit = direction_vector(direction);
    proof {
        lemma_dot(*velocity);
    }
    let along: i64 = if unit.0 == 0 {
        0
    } else if unit.0 == 1 {
        velocity.x as i64
    } else {
        -(velocity.x as i64)
    };
    let across: i64 = if unit.1 == 0 {
        0
    } else if unit.1 == 1 {
        velocity.y as i64
    } else {
        -(velocity.y as i64)
    };
    along + across
}

/// Whether `pos` is no further from `target` than the arrival tolerance
/// along either axis.
pub fn within_reach(pos: &Pos, target: &Pos) -> (b: bool)
    ensures
        b == arrived(*pos, *target),
{
    let dx: i64 = pos.x as i64 - target.x as i64;
    let dy: i64 = pos.y as i64 - target.y as i64;
    let reach: i64 = VELOCITY_REAPPLY_TILE_PROXIMITY as i64;
    -reach <= dx && dx <= reach && -reach <= dy && dy <= reach
}

/// The coordinate `at` after `delta_micros` microseconds with velocity
/// coordinate `v`.
fn carried(at: i32, v: i32, delta_micros: u64) -> (r: i32)
    ensures
        r == clamp_i32(at + displacement(v as int, delta_micros as int)),
{
    let (magnitude, negative) = offset(0, v);
    let speed: u128 = BUNNY_SPEED as u128;
    let delta: u128 = delta_micros as u128;
    proof {
        assert(magnitude * speed * delta <= 0xffff_ffff * 15 * 0xffff_ffff_ffff_ffff) by (nonlinear_arith)
            requires
                0 <= magnitude <= 0xffff_ffff,
                speed == 15,
                0 <= delta <= 0xffff_ffff_ffff_ffff,
        ;
        assert(v * BUNNY_SPEED * delta_micros == if negative {
            -(magnitude * speed * delta)
        } else {
            magnitude * speed * delta
        }) by (nonlinear_arith)
            requires
                magnitude == if negative { -(v as int) } else { v as int },
                speed == BUNNY_SPEED,
                delta == delta_micros,
        ;
    }
    let steps: u128 = magnitude * speed * delta / (MICROS_PER_SECOND as u128);
    let target: i128 = if negative {
        at as i128 - steps as i128
    } else {
        at as i128 + steps as i128
    };
    if target < i32::MIN as i128 {
        i32::MIN
    } else if target > i32::MAX as i128 {
        i32::MAX
    } else {
        target as i32
    }
}

/// An agent: where it is, where it goes, what it does and where it looks.
/// A velocity means that the agent is moving.
#[derive(Clone, Debug)]
pub struct Agent {
    pub entity: u64,
    pub pos: Pos,
    pub velocity: Option<Velocity>,
    pub path: Option<Path>,
    pub state: AnimalState,
    pub direction: AnimalDirection,
}

/// An agent as a value.
pub struct AgentView {
    pub entity: u64,
    pub pos: Pos,
    pub velocity: Option<Velocity>,
    pub path: Option<Seq<Pos>>,
    pub state: AnimalState,
    pub direction: AnimalDirection,
}

impl View for Agent {
    type V = AgentView;

    open spec fn view(&self) -> AgentView {
        AgentView {
            entity: self.entity,
            pos: self.pos,
            velocity: self.velocity,
            path: match self.path {
                Some(p) => Some(p@),
                None => None,
            },
            state: self.state,
            direction: self.direction,
        }
    }
}

/// The agent after the first half of a tick, in which its path is read: an
/// agent without a velocity sets out for the first position of its path; an
/// agent that has arrived at that position drops it and turns to the next
/// one; an agent whose path is used up loses path and velocity.
pub open spec fn steered(a: AgentView) -> AgentView {
    match a.path {
        None => a,
        Some(way) => {
            if a.velocity is None && way.len() > 0 {
                AgentView { velocity: Some(toward(a.pos, way[0])), ..a }
            } else {
                let (rest, progress) = path_step(a.entity, way, a.pos, a.velocity is Some);
                match progress {
                    PathProgress::Finished => AgentView { path: None, velocity: None, ..a },
                    PathProgress::Reapply(ev) => AgentView {
                        path: Some(rest),
                        velocity: Some(toward(ev.pos, ev.destination)),
                        ..a
                    },
                    PathProgress::Keep => a,
                }
            }
        },
    }
}

/// The agent after the second half of a tick of `delta_micros` microseconds:
/// it moves along its velocity, turns to where it goes, and its state
/// follows.
pub open spec fn carried_on(a: AgentView, delta_micros: int) -> AgentView {
    match a.velocity {
        Some(v) => AgentView {
            pos: advanced(a.pos, v, delta_micros),
            direction: facing(v, a.direction),
            state: derived_state(a.state, true),
            ..a
        },
        None => AgentView { state: derived_state(a.state, false), ..a },
    }
}

/// The agent after a tick of `delta_micros` microseconds.
pub open spec fn ticked(a: AgentView, delta_micros: int) -> AgentView {
    carried_on(steered(a), delta_micros)
}

impl Agent {
    /// An idle agent at `pos` that looks down.
    pub fn new(entity: u64, pos: Pos) -> (agent: Agent)
        ensures
            agent@ == (AgentView {
                entity,
                pos,
                velocity: None,
                path: None,
                state: AnimalState::Idle,
                direction: AnimalDirection::Down,
            }),
    {
        Agent {
            entity,
            pos,
            velocity: None,
            path: None,
            state: AnimalState::Idle,
            direction: AnimalDirection::Down,
        }
    }

    /// Gives the agent a new path in place of the one it had.
    pub fn set_path(&mut self, path: Path)
        ensures
            final(self)@ == (AgentView { path: Some(path@), ..old(self)@ }),
    {
        self.path = Some(path);
    }

    /// Sends the agent to `target`: searches the way from where the agent
    /// stands and, where there is one, gives it to the agent in place of the
    /// path it had. Without a way the agent stays as it is.
    pub fn send_to(&mut self, finder: &Pathfinder, target: Pos) -> (found: bool)
        ensures
            found == find_path(finder.grid(), old(self).pos, target) is Some,
            final(self)@ == match find_path(finder.grid(), old(self).pos, target) {
                Some(way) => AgentView { path: Some(way), ..old(self)@ },
                None => old(self)@,
            },
    {
        match finder.a_star(self.pos, target) {
            Some(way) => {
                self.set_path(Path(way));
                true
            },
            None => false,
        }
    }

    /// Reads the path of the agent: the first half of a tick.
    pub fn steer(&mut self)
        ensures
            final(self)@ == steered(old(self)@),
    {
        let mut request: Option<ApplyVelocityEvent> = None;
        let mut finished: bool = false;
        match &mut self.path {
            None => {},
            Some(path) => {
                if self.velocity.is_none() && path.0.len() > 0 {
                    request = AnimalBehaviourPlugin::apply_initial_velocity(
                        self.entity,
                        path,
                        &self.pos,
                    );
                } else {
                    match AnimalBehaviourPlugin::move_along_path(
                        self.entity,
                        path,
                        &self.pos,
                        self.velocity.is_some(),
                    ) {
                        PathProgress::Finished => {
                            finished = true;
                        },
                        PathProgress::Reapply(ev) => {
                            request = Some(ev);
                        },
                        PathProgress::Keep => {},
                    }
                }
            },
        }
        if finished {
            self.path = None;
            self.velocity = None;
        }
        match request {
            Some(ev) => {
                self.velocity = Some(AnimalBehaviourPlugin::apply_velocity(&ev));
            },
            None => {},
        }
    }

    /// Lets a tick of `delta_micros` microseconds pass.
    pub fn tick(&mut self, delta_micros: u64)
        ensures
            final(self)@ == ticked(old(self)@, delta_micros as int),
            old(self).state == AnimalState::Eating ==> final(self).state == AnimalState::Eating,
    {
        self.steer();
        match self.velocity {
            Some(velocity) => {
                AnimalBehaviourPlugin::move_animals(&velocity, &mut self.pos, delta_micros);
                AnimalBehaviourPlugin::evaluate_animal_direction(&velocity, &mut self.direction);
            },
            None => {},
        }
        AnimalBehaviourPlugin::evaluate_animal_state(&mut self.state, self.velocity.is_some());
    }
}

/// Lets a tick of `delta_micros` microseconds pass for every agent.
pub fn tick_all(agents: &mut Vec<Agent>, delta_micros: u64)
    ensures
        final(agents).len() == old(agents).len(),
        forall|i: int|
            0 <= i < old(agents).len() ==> (#[trigger] final(agents)[i])@ == ticked(
                old(agents)[i]@,
                delta_micros as int,
            ),
{
    let mut i: usize = 0;
    while i < agents.len()
        invariant
            i <= agents.len(),
            agents.len() == old(agents).len(),
            forall|j: int|
                0 <= j < i ==> (#[trigger] agents[j])@ == ticked(old(agents)[j]@, delta_micros as int),
            forall|j: int| i <= j < agents.len() ==> #[trigger] agents[j] == old(agents)[j],
        decreases agents.len() - i,
    {
        agents[i].tick(delta_micros);
        i += 1;
    }
}

/// The agent after `n` ticks of `delta_micros` microseconds each.
pub open spec fn after_ticks(a: AgentView, delta_micros: int, n: nat) -> AgentView
    decreases n,
{
    if n == 0 {
        a
    } else {
        ticked(after_ticks(a, delta_micros, (n - 1) as nat), delta_micros)
    }
}

/// A velocity along an axis turns the agent along that axis, whatever it
/// faced before; the zero velocity leaves it facing as it did.
pub proof fn lemma_facing_along_axes(k: i32, current: AnimalDirection)
    requires
        k > 0,
    ensures
        facing(Velocity { x: k, y: 0 }, current) == AnimalDirection::Right,
        facing(Velocity { x: 0, y: k }, current) == AnimalDirection::Up,
        facing(Velocity { x: (-k) as i32, y: 0 }, current) == AnimalDirection::Left,
        facing(Velocity { x: 0, y: (-k) as i32 }, current) == AnimalDirection::Down,
        facing(Velocity { x: 0, y: 0 }, current) == current,
{
    lemma_axis_velocity(Velocity { x: k, y: 0 });
    lemma_axis_velocity(Velocity { x: 0, y: k });
    lemma_axis_velocity(Velocity { x: (-k) as i32, y: 0 });
    lemma_axis_velocity(Velocity { x: 0, y: (-k) as i32 });
    lemma_axis_velocity(Velocity { x: 0, y: 0 });
}

/// Which direction fits a velocity best, by its coordinates.
pub proof fn lemma_axis_velocity(v: Velocity)
    ensures
        dominates(v, AnimalDirection::Up) <==> v.y > 0 && v.y > v.x && v.y > -v.x,
        dominates(v, AnimalDirection::Down) <==> v.y < 0 && -v.y > v.x && -v.y > -v.x,
        dominates(v, AnimalDirection::Right) <==> v.x > 0 && v.x > v.y && v.x > -v.y,
        dominates(v, AnimalDirection::Left) <==> v.x < 0 && -v.x > v.y && -v.x > -v.y,
{
    lemma_dot(v);
    lemma_dominates(v);
}

/// A velocity that two directions fit equally well leaves the agent facing as
/// it did.
pub proof fn lemma_facing_tie(v: Velocity, current: AnimalDirection)
    requires
        v.x == v.y || v.x == -v.y,
    ensures
        facing(v, current) == current,
{
    lemma_axis_velocity(v);
}

/// An eating agent goes on eating, however many ticks pass and whether or not
/// it has a velocity or a path.
pub proof fn lemma_eating_is_sticky(a: AgentView, delta_micros: int, n: nat)
    requires
        a.state == AnimalState::Eating,
    ensures
        after_ticks(a, delta_micros, n).state == AnimalState::Eating,
    decreases n,
{
    if n > 0 {
        lemma_eating_is_sticky(a, delta_micros, (n - 1) as nat);
    }
}

/// An agent that is not eating is moving after a tick exactly where it has
/// a velocity then, and idle where it has none.
pub proof fn lemma_state_follows_velocity(a: AgentView, delta_micros: int)
    requires
        a.state != AnimalState::Eating,
    ensures
        ticked(a, delta_micros).state == if ticked(a, delta_micros).velocity is Some {
            AnimalState::Moving
        } else {
            AnimalState::Idle
        },
{
}

/// One coordinate of a velocity, by how far along its axis the destination
/// lies and how far it lies in all: it points the same way, and its size is
/// the rounded-down share of the unit.
proof fn lemma_coordinate(d: int, n: int)
    requires
        0 < n,
        d <= n,
        -d <= n,
    ensures
        trunc_div(d * UNIT, n) == if d >= 0 { (d * UNIT) / n } else { -(((-d) * UNIT) / n) },
        0 <= ((if d >= 0 { d } else { -d }) * UNIT) / n <= UNIT,
        ((if d >= 0 { d } else { -d }) * UNIT) / n * n <= (if d >= 0 { d } else { -d }) * UNIT,
{
    let u = if d >= 0 { d } else { -d };
    lemma_division(u * UNIT, n);
    let p = (u * UNIT) / n;
    assert(p <= UNIT) by (nonlinear_arith)
        requires
            u * UNIT == p * n + (u * UNIT) % n,
            0 <= (u * UNIT) % n,
            u <= n,
            0 < n,
            UNIT == 1000,
    ;
    if d < 0 {
        assert(-(d * UNIT) == u * UNIT);
    }
}

/// A velocity is no longer than the unit, points to the destination along
/// both axes, and is zero only for an agent on its destination.
pub proof fn lemma_velocity_is_short(from: Pos, to: Pos)
    ensures
        toward(from, to).x * toward(from, to).x + toward(from, to).y * toward(from, to).y <= UNIT
            * UNIT,
        to.x >= from.x ==> toward(from, to).x >= 0,
        to.x <= from.x ==> toward(from, to).x <= 0,
        to.y >= from.y ==> toward(from, to).y >= 0,
        to.y <= from.y ==> toward(from, to).y <= 0,
        toward(from, to) == (Velocity { x: 0, y: 0 }) <==> from == to,
{
    let dx = to.x - from.x;
    let dy = to.y - from.y;
    let u = if dx >= 0 { dx } else { -dx };
    let t = if dy >= 0 { dy } else { -dy };
    let n = length_up(dx, dy);
    let v = toward(from, to);
    assert(u * u == dx * dx && t * t == dy * dy) by (nonlinear_arith)
        requires
            u == dx || u == -dx,
            t == dy || t == -dy,
    ;
    assert(UNIT * UNIT == 1000000);
    if u >= t {
        lemma_length_bounds(u, t);
    } else {
        lemma_length_bounds(t, u);
    }
    if n == 0 {
        assert(0int * 0 == 0);
    } else {
        lemma_coordinate(dx, n);
        lemma_coordinate(dy, n);
        let p = (u * UNIT) / n;
        let q = (t * UNIT) / n;
        assert(v.x * v.x == p * p && v.y * v.y == q * q) by (nonlinear_arith)
            requires
                v.x == p || v.x == -p,
                v.y == q || v.y == -q,
        ;
        // (p * p + q * q) * n * n <= UNIT * UNIT * (u * u + t * t) <= UNIT * UNIT * n * n
        if p * p + q * q > 1000000 {
            assert((p * n) * (p * n) <= (u * 1000) * (u * 1000)) by {
                assert(0 <= p * n) by (nonlinear_arith)
                    requires
                        0 <= p,
                        0 < n,
                ;
                lemma_square_monotone(p * n, u * 1000);
            }
            assert((q * n) * (q * n) <= (t * 1000) * (t * 1000)) by {
                assert(0 <= q * n) by (nonlinear_arith)
                    requires
                        0 <= q,
                        0 < n,
                ;
                lemma_square_monotone(q * n, t * 1000);
            }
            assert((p * n) * (p * n) == (p * p) * (n * n)) by (nonlinear_arith);
            assert((q * n) * (q * n) == (q * q) * (n * n)) by (nonlinear_arith);
            assert((u * 1000) * (u * 1000) + (t * 1000) * (t * 1000) == 1000000 * (u * u + t * t)) by (nonlinear_arith);
            let w = n * n;
            let s = p * p + q * q;
            assert((p * p) * w + (q * q) * w == s * w) by (nonlinear_arith)
                requires
                    s == p * p + q * q,
            ;
            assert(w > 0) by (nonlinear_arith)
                requires
                    w == n * n,
                    n > 0,
            ;
            assert(s * w > 1000000 * w) by (nonlinear_arith)
                requires
                    s > 1000000,
                    w > 0,
            ;
            assert(u * u + t * t >= 0) by (nonlinear_arith);
            lemma_ceil_sqrt_exists(u * u + t * t);
            assert(1000000 * (u * u + t * t) <= 1000000 * w);
        }
        if from != to {
            let longer = if u >= t { u } else { t };
            let share = (longer * UNIT) / n;
            lemma_division(longer * UNIT, n);
            assert(share >= 1) by (nonlinear_arith)
                requires
                    longer * UNIT == share * n + (longer * UNIT) % n,
                    (longer * UNIT) % n < n,
                    n <= 2 * longer,
                    0 < n,
                    UNIT == 1000,
            ;
        }
    }
}

} // verus!
