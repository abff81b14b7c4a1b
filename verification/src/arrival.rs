//! Why an agent gets to the end of its path.

use vstd::prelude::*;
use crate::animal_behaviour::{
    after_ticks, arrived, displacement, ticked, toward, trunc_div, AgentView, Velocity,
    BUNNY_SPEED, MICROS_PER_SECOND, VELOCITY_REAPPLY_TILE_PROXIMITY,
};
use crate::geometry::{
    is_ceil_sqrt, lemma_ceil_sqrt_is, lemma_division, lemma_length_bounds, length_up, tile_of,
    tile_origin, Pos, TILE_EXTENT, UNIT,
};
use crate::map::GridView;
use crate::pathfinder::{find_path, is_path, lemma_find_path, origins, tiles_of};
use crate::search::adjacent;

verus! {

/// The shortest tick for which arrival is proved, in microseconds.
pub const MIN_TICK_MICROS: u64 = 2000;

/// The longest tick for which arrival is proved, in microseconds.
pub const MAX_TICK_MICROS: u64 = 200000;

/// How far a position of a path may be from where the agent turns to it,
/// along either axis: the arrival tolerance and the edge of a tile.
pub const LEG_REACH: i32 = 10000;

/// How far an agent gets in a tick along an axis along which the position it
/// walks to is `d` away, where that position is `n` away in all.
pub open spec fn stride(d: int, n: int, speed_time: int) -> int {
    ((d * UNIT) / n * speed_time) / (MICROS_PER_SECOND as int)
}

/// The strides along the two axes of a leg: the one along the longer axis is
/// neither too short nor too long, the other one is no longer, and the two are
/// in the proportion of the leg but for what rounding takes.
proof fn lemma_strides(u: int, t: int, c: int)
    requires
        0 <= t <= u <= LEG_REACH,
        0 < u,
        28000 <= c <= 3000000,
    ensures
        14 <= stride(u, length_up(u, t), c) <= 3000,
        0 <= stride(t, length_up(u, t), c) <= stride(u, length_up(u, t), c),
        -40000 <= stride(u, length_up(u, t), c) * t - stride(t, length_up(u, t), c) * u <= 40000,
{
    let n = length_up(u, t);
    let m = MICROS_PER_SECOND as int;
    lemma_length_bounds(u, t);
    let px = (u * 1000) / n;
    let py = (t * 1000) / n;
    lemma_division(u * 1000, n);
    lemma_division(t * 1000, n);
    let rx = (u * 1000) % n;
    let ry = (t * 1000) % n;
    // 500 <= px <= 1000 and py <= px
    assert(px <= 1000) by (nonlinear_arith)
        requires
            u * 1000 == px * n + rx,
            0 <= rx,
            u <= n,
            0 < n,
    ;
    assert(px >= 500) by (nonlinear_arith)
        requires
            u * 1000 == px * n + rx,
            rx < n,
            n <= 2 * u,
            0 < n,
    ;
    assert(py <= px) by (nonlinear_arith)
        requires
            u * 1000 == px * n + rx,
            t * 1000 == py * n + ry,
            0 <= rx < n,
            0 <= ry < n,
            t <= u,
            0 < n,
    ;
    assert(0 <= px * c && 0 <= py * c && py * c <= px * c && 14000000 <= px * c <= 3000000000) by (nonlinear_arith)
        requires
            500 <= px <= 1000,
            0 <= py <= px,
            28000 <= c <= 3000000,
    ;
    let a = (px * c) / m;
    let b = (py * c) / m;
    lemma_division(px * c, m);
    lemma_division(py * c, m);
    let sx = (px * c) % m;
    let sy = (py * c) % m;
    assert(a == stride(u, n, c));
    assert(b == stride(t, n, c));
    assert(b <= a) by (nonlinear_arith)
        requires
            px * c == a * m + sx,
            py * c == b * m + sy,
            0 <= sx < m,
            0 <= sy < m,
            py * c <= px * c,
            m == 1000000,
    ;
    // m * n * (a * t - b * u) == c * (u * ry - t * rx) + n * (u * sy - t * sx)
    let e = a * t - b * u;
    let g = px * t - py * u;
    let h = u * sy - t * sx;
    assert(m * e == c * g + h) by {
        assert(m * (a * t - b * u) == (a * m) * t - (b * m) * u) by (nonlinear_arith);
        assert(a * m == px * c - sx);
        assert(b * m == py * c - sy);
        assert((px * c - sx) * t == c * (px * t) - sx * t) by (nonlinear_arith);
        assert((py * c - sy) * u == c * (py * u) - sy * u) by (nonlinear_arith);
        assert(c * (px * t) - c * (py * u) == c * (px * t - py * u)) by (nonlinear_arith);
        assert(sy * u == u * sy && sx * t == t * sx) by (nonlinear_arith);
    }
    assert(n * g == u * ry - t * rx) by {
        assert(n * (px * t - py * u) == (px * n) * t - (py * n) * u) by (nonlinear_arith);
        assert(px * n == u * 1000 - rx);
        assert(py * n == t * 1000 - ry);
        assert((u * 1000 - rx) * t == 1000 * (u * t) - t * rx) by (nonlinear_arith);
        assert((t * 1000 - ry) * u == 1000 * (u * t) - u * ry) by (nonlinear_arith);
    }
    assert(m * n * e == c * (n * g) + n * h) by {
        assert(m * n * e == n * (m * e)) by (nonlinear_arith);
        assert(n * (c * g + h) == c * (n * g) + n * h) by (nonlinear_arith);
    }
    assert(m * n * e == c * (u * ry - t * rx) + n * (u * sy - t * sx));
    assert(c * (u * ry - t * rx) <= c * u * n && c * (u * ry - t * rx) >= -(c * u * n)) by (nonlinear_arith)
        requires
            0 <= rx < n,
            0 <= ry < n,
            0 <= t <= u,
            0 < c,
    ;
    assert(n * (u * sy - t * sx) <= n * u * m && n * (u * sy - t * sx) >= -(n * u * m)) by (nonlinear_arith)
        requires
            0 <= sx < m,
            0 <= sy < m,
            0 <= t <= u,
            0 < n,
    ;
    assert(-40000 <= e <= 40000) by (nonlinear_arith)
        requires
            -(c * u * n) - n * u * m <= m * n * e <= c * u * n + n * u * m,
            0 < n,
            0 < u <= 10000,
            0 < c <= 3000000,
            m == 1000000,
    ;
}

/// The number of ticks after which an agent has arrived: along the longer
/// axis `u` it is then no further than half the tolerance from where it goes,
/// along the other axis `t` no further than the tolerance.
proof fn lemma_leg_steps(u: int, t: int, a: int, b: int) -> (k: int)
    requires
        0 <= t <= u <= LEG_REACH,
        14 <= a <= 3000,
        0 <= b <= a,
        -40000 <= a * t - b * u <= 40000,
    ensures
        1 <= k,
        -3000 <= u - k * a <= 3000,
        -6000 <= t - k * b <= 6000,
{
    let k = if u <= 3000 + a {
        1
    } else {
        (u - 3001 + a) / a
    };
    if u > 3000 + a {
        lemma_division(u - 3001 + a, a);
        assert(k >= 1) by (nonlinear_arith)
            requires
                u - 3001 + a == k * a + (u - 3001 + a) % a,
                (u - 3001 + a) % a < a,
                u - 3001 + a >= 2 * a,
                0 < a,
        ;
    } else {
        assert(k * a == a);
    }
    let r = u - k * a;
    assert(-3000 <= r <= 3000);
    assert(a * (t - k * b) == (a * t - b * u) + b * (u - k * a)) by (nonlinear_arith);
    assert(-3000 * a <= b * r <= 3000 * a) by (nonlinear_arith)
        requires
            0 <= b <= a,
            -3000 <= r <= 3000,
    ;
    let y = t - k * b;
    assert(-6000 <= y <= 6000) by (nonlinear_arith)
        requires
            -6000 * a <= a * y <= 6000 * a,
            0 < a,
    ;
    k
}

/// How far an agent gets in a tick along an axis, by how far along that
/// axis the position lies to which it walks.
proof fn lemma_signed_stride(d: int, n: int, dt: int)
    requires
        -LEG_REACH <= d <= LEG_REACH,
        0 < n,
        d <= n,
        -d <= n,
        0 <= dt,
    ensures
        -UNIT <= trunc_div(d * UNIT, n) <= UNIT,
        displacement(trunc_div(d * UNIT, n), dt) == if d >= 0 {
            stride(d, n, BUNNY_SPEED * dt)
        } else {
            -stride(-d, n, BUNNY_SPEED * dt)
        },
        0 <= stride(if d >= 0 { d } else { -d }, n, BUNNY_SPEED * dt),
{
    let u = if d >= 0 { d } else { -d };
    let m = MICROS_PER_SECOND as int;
    let p = (u * 1000) / n;
    lemma_division(u * 1000, n);
    assert(p <= 1000) by (nonlinear_arith)
        requires
            u * 1000 == p * n + (u * 1000) % n,
            0 <= (u * 1000) % n,
            u <= n,
            0 < n,
    ;
    assert(trunc_div(d * UNIT, n) == if d >= 0 { p } else { -p }) by {
        if d < 0 {
            assert(-(d * 1000) == u * 1000);
        }
    }
    let c = BUNNY_SPEED * dt;
    assert(p * BUNNY_SPEED * dt == p * c) by (nonlinear_arith)
        requires
            c == BUNNY_SPEED * dt,
    ;
    assert((-p) * BUNNY_SPEED * dt == -(p * c)) by (nonlinear_arith)
        requires
            c == BUNNY_SPEED * dt,
    ;
    assert(0 <= p * c) by (nonlinear_arith)
        requires
            0 <= p,
            0 <= c,
    ;
    lemma_division(p * c, m);
    assert(stride(u, n, c) == (p * c) / m);
    if d < 0 && p * c == 0 {
        assert(0int / m == 0);
    }
}

/// Where an agent is along one axis after `i` ticks of a leg that began at
/// `from` with velocity coordinate `v`.
pub open spec fn leg_coordinate(from: int, v: int, delta_micros: int, i: int) -> int {
    from + i * displacement(v, delta_micros)
}

/// Where an agent is after `i` ticks of the leg from `from` towards `to`, as
/// long as it has not turned to another position.
pub open spec fn leg_position(from: Pos, to: Pos, delta_micros: int, i: int) -> (int, int) {
    (
        leg_coordinate(from.x as int, toward(from, to).x as int, delta_micros, i),
        leg_coordinate(from.y as int, toward(from, to).y as int, delta_micros, i),
    )
}

/// The point `p` is no further from `target` than `reach` along either axis.
pub open spec fn within(p: (int, int), target: Pos, reach: int) -> bool {
    &&& -reach <= p.0 - target.x <= reach
    &&& -reach <= p.1 - target.y <= reach
}

/// Along one axis: after `k` ticks the agent is `rest` away from where it
/// goes, and never further than at the beginning of the leg.
proof fn lemma_axis(from: int, to: int, n: int, dt: int, k: int, rest: int)
    requires
        -LEG_REACH <= to - from <= LEG_REACH,
        0 < n,
        to - from <= n,
        from - to <= n,
        0 <= dt,
        1 <= k,
        rest == (if to >= from { to - from } else { from - to }) - k * stride(
            if to >= from { to - from } else { from - to },
            n,
            BUNNY_SPEED * dt,
        ),
        -6000 <= rest,
    ensures
        to - leg_coordinate(from, trunc_div((to - from) * UNIT, n), dt, k) == if to >= from {
            rest
        } else {
            -rest
        },
        forall|i: int|
            0 <= i <= k ==> -LEG_REACH <= to - #[trigger] leg_coordinate(
                from,
                trunc_div((to - from) * UNIT, n),
                dt,
                i,
            ) <= LEG_REACH,
{
    let d = to - from;
    let u = if d >= 0 { d } else { -d };
    let a = stride(u, n, BUNNY_SPEED * dt);
    let v = trunc_div(d * UNIT, n);
    lemma_signed_stride(d, n, dt);
    let s = displacement(v, dt);
    assert(k * s == if d >= 0 { k * a } else { -(k * a) }) by (nonlinear_arith)
        requires
            s == if d >= 0 { a } else { -a },
    ;
    assert forall|i: int| 0 <= i <= k implies -LEG_REACH <= to - #[trigger] leg_coordinate(
        from,
        v,
        dt,
        i,
    ) <= LEG_REACH by {
        assert(i * s == if d >= 0 { i * a } else { -(i * a) }) by (nonlinear_arith)
            requires
                s == if d >= 0 { a } else { -a },
        ;
        assert(0 <= i * a <= k * a) by (nonlinear_arith)
            requires
                0 <= i <= k,
                0 <= a,
        ;
    }
}

/// An agent that turns to a position within `LEG_REACH` arrives there: after
/// some number of ticks it is within the arrival tolerance of it, and until
/// then it stays within `LEG_REACH`.
pub proof fn lemma_leg(from: Pos, to: Pos, delta_micros: int) -> (k: int)
    requires
        MIN_TICK_MICROS <= delta_micros <= MAX_TICK_MICROS,
        within((from.x as int, from.y as int), to, LEG_REACH as int),
    ensures
        1 <= k,
        within(leg_position(from, to, delta_micros, k), to, VELOCITY_REAPPLY_TILE_PROXIMITY as int),
        forall|i: int|
            0 <= i <= k ==> within(
                #[trigger] leg_position(from, to, delta_micros, i),
                to,
                LEG_REACH as int,
            ),
{
    let dx = to.x - from.x;
    let dy = to.y - from.y;
    let u = if dx >= 0 { dx } else { -dx };
    let t = if dy >= 0 { dy } else { -dy };
    let n = length_up(dx, dy);
    let c = BUNNY_SPEED * delta_micros;
    assert(u * u == dx * dx && t * t == dy * dy) by (nonlinear_arith)
        requires
            u == dx || u == -dx,
            t == dy || t == -dy,
    ;
    if u == 0 && t == 0 {
        assert(dx * dx + dy * dy == 0) by (nonlinear_arith)
            requires
                dx == 0,
                dy == 0,
        ;
        assert(is_ceil_sqrt(0, 0));
        lemma_ceil_sqrt_is(0, 0);
        assert(toward(from, to) == Velocity { x: 0, y: 0 });
        assert(displacement(0, delta_micros) == 0) by {
            assert(0 * BUNNY_SPEED * delta_micros == 0) by (nonlinear_arith);
            assert(0int / (MICROS_PER_SECOND as int) == 0);
        }
        let k = 1;
        assert forall|i: int| 0 <= i <= k implies within(
            #[trigger] leg_position(from, to, delta_micros, i),
            to,
            LEG_REACH as int,
        ) by {
            assert(i * 0 == 0);
        }
        assert(1 * 0 == 0);
        k
    } else {
        let k = if u >= t {
            assert(n == length_up(u, t));
            lemma_length_bounds(u, t);
            lemma_strides(u, t, c);
            let k = lemma_leg_steps(u, t, stride(u, n, c), stride(t, n, c));
            lemma_axis(from.x as int, to.x as int, n, delta_micros, k, u - k * stride(u, n, c));
            lemma_axis(from.y as int, to.y as int, n, delta_micros, k, t - k * stride(t, n, c));
            k
        } else {
            assert(n == length_up(t, u));
            lemma_length_bounds(t, u);
            lemma_strides(t, u, c);
            let k = lemma_leg_steps(t, u, stride(t, n, c), stride(u, n, c));
            lemma_axis(from.x as int, to.x as int, n, delta_micros, k, u - k * stride(u, n, c));
            lemma_axis(from.y as int, to.y as int, n, delta_micros, k, t - k * stride(t, n, c));
            k
        };
        assert(toward(from, to).x == trunc_div(dx * UNIT, n)) by {
            lemma_signed_stride(dx, n, delta_micros);
        }
        assert(toward(from, to).y == trunc_div(dy * UNIT, n)) by {
            lemma_signed_stride(dy, n, delta_micros);
        }
        k
    }
}

/// No coordinate of a position of a path is further from zero than this,
/// where arrival is proved.
pub const COORDINATE_LIMIT: i32 = 0x4000_0000;

/// Each position of `way` is no further from the one before it than the edge
/// of a tile, along either axis.
pub open spec fn gentle(way: Seq<Pos>) -> bool {
    forall|i: int|
        0 < i < way.len() ==> within(
            (way[i - 1].x as int, way[i - 1].y as int),
            #[trigger] way[i],
            TILE_EXTENT as int,
        )
}

/// No position of `way` lies beyond the limit for coordinates.
pub open spec fn bounded(way: Seq<Pos>) -> bool {
    forall|i: int|
        0 <= i < way.len() ==> within((0, 0), #[trigger] way[i], COORDINATE_LIMIT as int)
}

/// The agent has neither path nor velocity, and stands within the tolerance
/// of `target`.
pub open spec fn rests_at(a: AgentView, target: Pos) -> bool {
    &&& a.path is None
    &&& a.velocity is None
    &&& arrived(a.pos, target)
}

/// The agent walks the leg from `from` to the first position of `way`, its
/// path, and has walked `i` ticks of it.
pub open spec fn on_leg(a: AgentView, from: Pos, way: Seq<Pos>, delta_micros: int, i: int) -> bool {
    &&& way.len() > 0
    &&& a.path == Some(way)
    &&& a.velocity == Some(toward(from, way[0]))
    &&& (a.pos.x as int, a.pos.y as int) == leg_position(from, way[0], delta_micros, i)
}

/// Ticks add up.
pub proof fn lemma_ticks_add(a: AgentView, delta_micros: int, m: nat, n: nat)
    ensures
        after_ticks(a, delta_micros, m + n) == after_ticks(
            after_ticks(a, delta_micros, m),
            delta_micros,
            n,
        ),
    decreases n,
{
    if n > 0 {
        lemma_ticks_add(a, delta_micros, m, (n - 1) as nat);
        assert((m + n - 1) as nat == m + (n - 1) as nat);
    }
}

/// An agent without path and velocity stays where it is.
pub proof fn lemma_rest_is_stable(a: AgentView, delta_micros: int, n: nat)
    requires
        a.path is None,
        a.velocity is None,
    ensures
        after_ticks(a, delta_micros, n).path is None,
        after_ticks(a, delta_micros, n).velocity is None,
        after_ticks(a, delta_micros, n).pos == a.pos,
    decreases n,
{
    if n > 0 {
        lemma_rest_is_stable(a, delta_micros, (n - 1) as nat);
    }
}

/// The tick in which an agent sets out: it turns to the first position of
/// its path and walks the first tick of the leg.
proof fn lemma_tick_sets_out(a: AgentView, way: Seq<Pos>, delta_micros: int)
    requires
        a.path == Some(way),
        way.len() > 0,
        a.velocity is None,
        within((0, 0), way[0], COORDINATE_LIMIT as int),
        within(leg_position(a.pos, way[0], delta_micros, 1), way[0], LEG_REACH as int),
    ensures
        on_leg(ticked(a, delta_micros), a.pos, way, delta_micros, 1),
{
    let v = toward(a.pos, way[0]);
    assert(1 * displacement(v.x as int, delta_micros) == displacement(v.x as int, delta_micros));
    assert(1 * displacement(v.y as int, delta_micros) == displacement(v.y as int, delta_micros));
}

/// A tick of an agent on a leg that has not arrived: it walks one tick
/// further.
proof fn lemma_tick_walks(a: AgentView, from: Pos, way: Seq<Pos>, delta_micros: int, i: int)
    requires
        on_leg(a, from, way, delta_micros, i),
        !arrived(a.pos, way[0]),
        within((0, 0), way[0], COORDINATE_LIMIT as int),
        within(leg_position(from, way[0], delta_micros, i + 1), way[0], LEG_REACH as int),
    ensures
        on_leg(ticked(a, delta_micros), from, way, delta_micros, i + 1),
{
    let v = toward(from, way[0]);
    let sx = displacement(v.x as int, delta_micros);
    let sy = displacement(v.y as int, delta_micros);
    assert((i + 1) * sx == i * sx + sx) by (nonlinear_arith);
    assert((i + 1) * sy == i * sy + sy) by (nonlinear_arith);
}

/// A tick of an agent on a leg that has arrived: at the end of its path it
/// comes to rest where it is, else it turns to the next position and walks
/// the first tick of the next leg.
proof fn lemma_tick_turns(a: AgentView, from: Pos, way: Seq<Pos>, delta_micros: int, i: int)
    requires
        on_leg(a, from, way, delta_micros, i),
        arrived(a.pos, way[0]),
        way.len() > 1 ==> within((0, 0), way[1], COORDINATE_LIMIT as int),
        way.len() > 1 ==> within(
            leg_position(a.pos, way[1], delta_micros, 1),
            way[1],
            LEG_REACH as int,
        ),
    ensures
        way.len() == 1 ==> rests_at(ticked(a, delta_micros), way[0]),
        way.len() > 1 ==> on_leg(ticked(a, delta_micros), a.pos, way.skip(1), delta_micros, 1),
{
    if way.len() > 1 {
        let v = toward(a.pos, way[1]);
        assert(1 * displacement(v.x as int, delta_micros) == displacement(v.x as int, delta_micros));
        assert(1 * displacement(v.y as int, delta_micros) == displacement(v.y as int, delta_micros));
        assert(way.skip(1)[0] == way[1]);
    }
}

/// The first tick of a leg after which the agent has arrived.
proof fn lemma_first_arrival(from: Pos, to: Pos, delta_micros: int, j: int, k: int) -> (first: int)
    requires
        1 <= j <= k,
        within(leg_position(from, to, delta_micros, k), to, VELOCITY_REAPPLY_TILE_PROXIMITY as int),
        forall|i: int|
            1 <= i < j ==> !within(
                #[trigger] leg_position(from, to, delta_micros, i),
                to,
                VELOCITY_REAPPLY_TILE_PROXIMITY as int,
            ),
    ensures
        j <= first <= k,
        within(leg_position(from, to, delta_micros, first), to, VELOCITY_REAPPLY_TILE_PROXIMITY as int),
        forall|i: int|
            1 <= i < first ==> !within(
                #[trigger] leg_position(from, to, delta_micros, i),
                to,
                VELOCITY_REAPPLY_TILE_PROXIMITY as int,
            ),
    decreases k - j,
{
    if within(leg_position(from, to, delta_micros, j), to, VELOCITY_REAPPLY_TILE_PROXIMITY as int) {
        j
    } else {
        lemma_first_arrival(from, to, delta_micros, j + 1, k)
    }
}

/// An agent on a leg that does not arrive before tick `k` of it is on that
/// leg still after walking on to tick `k`.
proof fn lemma_walk(a: AgentView, from: Pos, way: Seq<Pos>, delta_micros: int, j: int, k: int)
    requires
        on_leg(a, from, way, delta_micros, j),
        1 <= j <= k,
        within((0, 0), way[0], COORDINATE_LIMIT as int),
        forall|i: int|
            1 <= i < k ==> !within(
                #[trigger] leg_position(from, way[0], delta_micros, i),
                way[0],
                VELOCITY_REAPPLY_TILE_PROXIMITY as int,
            ),
        forall|i: int|
            0 <= i <= k ==> within(
                #[trigger] leg_position(from, way[0], delta_micros, i),
                way[0],
                LEG_REACH as int,
            ),
    ensures
        on_leg(after_ticks(a, delta_micros, (k - j) as nat), from, way, delta_micros, k),
    decreases k - j,
{
    if j < k {
        lemma_walk(a, from, way, delta_micros, j, k - 1);
        let b = after_ticks(a, delta_micros, (k - 1 - j) as nat);
        assert(!within(
            leg_position(from, way[0], delta_micros, k - 1),
            way[0],
            VELOCITY_REAPPLY_TILE_PROXIMITY as int,
        ));
        assert(within(leg_position(from, way[0], delta_micros, k), way[0], LEG_REACH as int));
        lemma_tick_walks(b, from, way, delta_micros, k - 1);
    }
}

/// An agent that has set out on its path comes to rest at the end of it.
proof fn lemma_path(a: AgentView, from: Pos, way: Seq<Pos>, delta_micros: int) -> (n: nat)
    requires
        MIN_TICK_MICROS <= delta_micros <= MAX_TICK_MICROS,
        on_leg(a, from, way, delta_micros, 1),
        within((from.x as int, from.y as int), way[0], LEG_REACH as int),
        gentle(way),
        bounded(way),
    ensures
        rests_at(after_ticks(a, delta_micros, n), way.last()),
    decreases way.len(),
{
    let reach = lemma_leg(from, way[0], delta_micros);
    let k = lemma_first_arrival(from, way[0], delta_micros, 1, reach);
    assert(within((0, 0), way[0], COORDINATE_LIMIT as int));
    lemma_walk(a, from, way, delta_micros, 1, k);
    let b = after_ticks(a, delta_micros, (k - 1) as nat);
    let c = ticked(b, delta_micros);
    assert(c == after_ticks(a, delta_micros, k as nat));
    if way.len() == 1 {
        lemma_tick_turns(b, from, way, delta_micros, k);
        k as nat
    } else {
        let rest = way.skip(1);
        assert(within((way[0].x as int, way[0].y as int), way[1], TILE_EXTENT as int));
        assert(within((0, 0), way[1], COORDINATE_LIMIT as int));
        let next = lemma_leg(b.pos, way[1], delta_micros);
        assert(within(leg_position(b.pos, way[1], delta_micros, 1), way[1], LEG_REACH as int));
        lemma_tick_turns(b, from, way, delta_micros, k);
        assert forall|i: int| 0 < i < rest.len() implies within(
            (rest[i - 1].x as int, rest[i - 1].y as int),
            #[trigger] rest[i],
            TILE_EXTENT as int,
        ) by {
            assert(rest[i] == way[i + 1]);
            assert(rest[i - 1] == way[i]);
        }
        assert forall|i: int| 0 <= i < rest.len() implies within(
            (0, 0),
            #[trigger] rest[i],
            COORDINATE_LIMIT as int,
        ) by {
            assert(rest[i] == way[i + 1]);
        }
        let more = lemma_path(c, b.pos, rest, delta_micros);
        lemma_ticks_add(a, delta_micros, k as nat, more);
        assert(rest.last() == way.last());
        k as nat + more
    }
}

/// An agent that is given a path walks it to the end: where the tick is
/// neither shorter than `MIN_TICK_MICROS` nor longer than `MAX_TICK_MICROS`,
/// the first position of the path lies within `LEG_REACH` of the agent, each
/// further one within the edge of a tile of the one before it, and none
/// beyond the limit for coordinates, there is a number of ticks after which
/// the agent stands within the arrival tolerance of the last position of the
/// path, without path and without velocity; and so it stays.
pub proof fn lemma_agent_arrives(a: AgentView, way: Seq<Pos>, delta_micros: int) -> (n: nat)
    requires
        MIN_TICK_MICROS <= delta_micros <= MAX_TICK_MICROS,
        a.path == Some(way),
        a.velocity is None,
        way.len() > 0,
        within((a.pos.x as int, a.pos.y as int), way[0], LEG_REACH as int),
        gentle(way),
        bounded(way),
    ensures
        forall|later: nat| later >= n ==> rests_at(#[trigger] after_ticks(a, delta_micros, later), way.last()),
{
    let reach = lemma_leg(a.pos, way[0], delta_micros);
    assert(within(leg_position(a.pos, way[0], delta_micros, 1), way[0], LEG_REACH as int));
    assert(within((0, 0), way[0], COORDINATE_LIMIT as int));
    lemma_tick_sets_out(a, way, delta_micros);
    let b = ticked(a, delta_micros);
    assert(b == after_ticks(a, delta_micros, 1)) by {
        reveal_with_fuel(after_ticks, 2);
    }
    let more = lemma_path(b, a.pos, way, delta_micros);
    lemma_ticks_add(a, delta_micros, 1, more);
    let n = 1 + more;
    assert forall|later: nat| later >= n implies rests_at(
        #[trigger] after_ticks(a, delta_micros, later),
        way.last(),
    ) by {
        lemma_ticks_add(a, delta_micros, n, (later - n) as nat);
        lemma_rest_is_stable(after_ticks(a, delta_micros, n), delta_micros, (later - n) as nat);
    }
    n
}

/// An agent with an empty path loses it at the next tick and does not
/// move.
pub proof fn lemma_empty_path_is_dropped(a: AgentView, delta_micros: int)
    requires
        a.path == Some(Seq::<Pos>::empty()),
    ensures
        ticked(a, delta_micros).path is None,
        ticked(a, delta_micros).velocity is None,
        ticked(a, delta_micros).pos == a.pos,
{
}

/// A way that a search has found can be walked: its first position lies
/// within `LEG_REACH` of the start, each further one within the edge of a tile
/// of the one before it, and none beyond the limit for coordinates.
pub proof fn lemma_path_is_gentle(grid: GridView, start: Pos, way: Seq<Pos>, goal: Pos)
    requires
        grid.wf(),
        is_path(grid, start, way, goal),
    ensures
        gentle(way),
        bounded(way),
        way.len() > 0 ==> within((start.x as int, start.y as int), way[0], LEG_REACH as int),
        way.len() > 0 ==> way.last() == tile_origin(tile_of(goal)),
        way.len() == 0 ==> tile_of(start) == tile_of(goal),
{
    let tiles = tiles_of(way);
    assert forall|i: int| 0 <= i < way.len() implies {
        &&& grid.in_bounds(tile_of(#[trigger] way[i]))
        &&& way[i] == tile_origin(tile_of(way[i]))
        &&& way[i].x == tile_of(way[i]).0 * TILE_EXTENT
        &&& way[i].y == tile_of(way[i]).1 * TILE_EXTENT
    } by {
        assert(grid.passable(tiles[i]));
        assert(way[i] == origins(tiles)[i]);
    }
    assert forall|i: int| 0 < i < way.len() implies within(
        (way[i - 1].x as int, way[i - 1].y as int),
        #[trigger] way[i],
        TILE_EXTENT as int,
    ) by {
        assert(adjacent(if i == 0 { tile_of(start) } else { tiles[i - 1] }, tiles[i]));
        assert(grid.in_bounds(tile_of(way[i - 1])));
    }
    if way.len() > 0 {
        assert(adjacent(tile_of(start), tiles[0]));
        assert(grid.in_bounds(tile_of(way[0])));
        assert(tiles.last() == tile_of(way.last()));
        assert(grid.in_bounds(tile_of(way.last())));
    }
}

/// An agent that is given the way that a search has found from its position
/// to `goal` comes to rest within the arrival tolerance of the tile of
/// `goal`, where the tick is neither shorter than `MIN_TICK_MICROS` nor longer
/// than `MAX_TICK_MICROS`.
pub proof fn lemma_found_path_is_walked(
    grid: GridView,
    a: AgentView,
    goal: Pos,
    way: Seq<Pos>,
    delta_micros: int,
) -> (n: nat)
    requires
        grid.wf(),
        MIN_TICK_MICROS <= delta_micros <= MAX_TICK_MICROS,
        find_path(grid, a.pos, goal) == Some(way),
        a.path == Some(way),
        a.velocity is None,
    ensures
        forall|later: nat|
            later >= n ==> rests_at(
                #[trigger] after_ticks(a, delta_micros, later),
                tile_origin(tile_of(goal)),
            ),
{
    lemma_find_path(grid, a.pos, goal);
    lemma_path_is_gentle(grid, a.pos, way, goal);
    if way.len() == 0 {
        assert(way =~= Seq::<Pos>::empty());
        lemma_empty_path_is_dropped(a, delta_micros);
        let b = ticked(a, delta_micros);
        assert(b == after_ticks(a, delta_micros, 1)) by {
            reveal_with_fuel(after_ticks, 2);
        }
        assert(grid.in_bounds(tile_of(goal)));
        assert(arrived(a.pos, tile_origin(tile_of(goal))));
        assert forall|later: nat| later >= 1 implies rests_at(
            #[trigger] after_ticks(a, delta_micros, later),
            tile_origin(tile_of(goal)),
        ) by {
            lemma_ticks_add(a, delta_micros, 1, (later - 1) as nat);
            lemma_rest_is_stable(b, delta_micros, (later - 1) as nat);
        }
        1
    } else {
        lemma_agent_arrives(a, way, delta_micros)
    }
}

} // verus!
