//! What holds of every state of a search, and what follows for its outcome.

use vstd::prelude::*;
use crate::geometry::{is_ceil_sqrt, lemma_ceil_sqrt_is, TILE_SIZE};
use crate::map::{lemma_index_in_range, lemma_index_injective, lemma_tile_count_bound, GridView};
use crate::search::{
    adjacent, arena_ordered, best_index, better, candidates, has_tile, is_best, is_walk,
    lists_after, neighbour, position_of, reachable, relax, relax_all, retrace, root, search_from,
    search_tiles, squared_distance, successor, tile_distance, SearchNode,
};

verus! {

/// The square of a step of at most one tile is the step's absolute value.
proof fn lemma_unit_square(d: int)
    requires
        -1 <= d <= 1,
    ensures
        d * d == if d == 0 { 0int } else { 1int },
{
    assert(d * d == if d == 0 { 0int } else { 1int }) by (nonlinear_arith)
        requires
            -1 <= d <= 1,
    ;
}

/// A step to a neighbouring tile costs 4 along an edge and 6 across a corner.
pub proof fn lemma_adjacent_distance(a: (int, int), b: (int, int))
    requires
        adjacent(a, b),
    ensures
        tile_distance(a, b) == if a.0 == b.0 || a.1 == b.1 { 4int } else { 6int },
{
    lemma_unit_square(a.0 - b.0);
    lemma_unit_square(a.1 - b.1);
    assert(TILE_SIZE * TILE_SIZE == 16);
    if a.0 == b.0 || a.1 == b.1 {
        assert(squared_distance(a, b) == 16);
        assert(is_ceil_sqrt(16, 4));
        lemma_ceil_sqrt_is(16, 4);
    } else {
        assert(squared_distance(a, b) == 32);
        assert(is_ceil_sqrt(32, 6));
        lemma_ceil_sqrt_is(32, 6);
    }
}

/// Each of the eight neighbours of a tile is adjacent to it.
pub proof fn lemma_neighbour_adjacent(t: (int, int), k: int)
    requires
        0 <= k < 8,
    ensures
        adjacent(t, neighbour(t, k)),
{
}

/// Every tile adjacent to `t` is one of its eight neighbours.
pub proof fn lemma_adjacent_is_neighbour(t: (int, int), u: (int, int)) -> (k: int)
    requires
        adjacent(t, u),
    ensures
        0 <= k < 8,
        neighbour(t, k) == u,
{
    let d = (u.0 - t.0, u.1 - t.1);
    if d == (1int, 0int) {
        0
    } else if d == (1int, 1int) {
        1
    } else if d == (0int, 1int) {
        2
    } else if d == (-1int, 0int) {
        3
    } else if d == (-1int, -1int) {
        4
    } else if d == (0int, -1int) {
        5
    } else if d == (1int, -1int) {
        6
    } else {
        assert(d == (-1int, 1int));
        7
    }
}

/// No two nodes of `nodes` stand on one tile.
pub open spec fn distinct_tiles(nodes: Seq<SearchNode>) -> bool {
    forall|i: int, j: int|
        0 <= i < j < nodes.len() ==> (#[trigger] nodes[i]).tile != (#[trigger] nodes[j]).tile
}

/// No node of `a` stands on the tile of a node of `b`.
pub open spec fn disjoint_tiles(a: Seq<SearchNode>, b: Seq<SearchNode>) -> bool {
    forall|i: int, j: int|
        0 <= i < a.len() && 0 <= j < b.len() ==> (#[trigger] a[i]).tile != (#[trigger] b[j]).tile
}

/// Node `n` was reached from a node that stands in the closed list before
/// place `limit`, over one step, on a tile that can be walked, and its costs
/// are those of that way.
pub open spec fn linked(
    grid: GridView,
    goal: (int, int),
    closed: Seq<SearchNode>,
    n: SearchNode,
    limit: int,
) -> bool {
    &&& n.parent matches Some(p)
    &&& 0 <= p < limit
    &&& p < closed.len()
    &&& adjacent(closed[p].tile, n.tile)
    &&& grid.passable(n.tile)
    &&& n.g == closed[p].g + tile_distance(closed[p].tile, n.tile)
    &&& n.h == tile_distance(n.tile, goal)
    &&& 0 <= n.g <= 6 * limit
}

/// What holds of the two lists at every moment of a search from `start` to
/// `goal`: no tile occurs twice, the closed list begins with the root, and
/// every other node hangs below an earlier closed node.
pub open spec fn lists_inv(
    grid: GridView,
    start: (int, int),
    goal: (int, int),
    open: Seq<SearchNode>,
    closed: Seq<SearchNode>,
) -> bool {
    &&& grid.wf()
    &&& grid.in_bounds(start)
    &&& grid.passable(goal)
    &&& distinct_tiles(closed)
    &&& distinct_tiles(open)
    &&& disjoint_tiles(closed, open)
    &&& closed.len() == 0 ==> open.len() == 1 && open[0] == root(start, goal)
    &&& closed.len() > 0 ==> closed[0] == root(start, goal)
    &&& forall|i: int| 0 < i < closed.len() ==> linked(grid, goal, closed, #[trigger] closed[i], i)
    &&& closed.len() > 0 ==> forall|j: int|
        0 <= j < open.len() ==> linked(grid, goal, closed, #[trigger] open[j], closed.len() as int)
}

/// No closed node stands on the goal.
pub open spec fn goal_not_closed(goal: (int, int), closed: Seq<SearchNode>) -> bool {
    forall|i: int| 0 <= i < closed.len() ==> (#[trigger] closed[i]).tile != goal
}

/// Tile `t` is on one of the two lists.
pub open spec fn covered(open: Seq<SearchNode>, closed: Seq<SearchNode>, t: (int, int)) -> bool {
    has_tile(closed, t) || has_tile(open, t)
}

/// Every neighbour that can be walked of each of the first `upto` closed nodes
/// is on one of the two lists.
pub open spec fn frontier_complete(
    grid: GridView,
    open: Seq<SearchNode>,
    closed: Seq<SearchNode>,
    upto: int,
) -> bool {
    forall|i: int, k: int|
        0 <= i < upto && i < closed.len() && 0 <= k < 8 && grid.passable(
            neighbour(closed[i].tile, k),
        ) ==> #[trigger] covered(open, closed, neighbour(closed[i].tile, k))
}

/// What holds between two expansions: the lists are in order, the goal is not
/// closed, and every neighbour that can be walked of a closed node is on one
/// of the lists.
pub open spec fn search_inv(
    grid: GridView,
    start: (int, int),
    goal: (int, int),
    open: Seq<SearchNode>,
    closed: Seq<SearchNode>,
) -> bool {
    &&& lists_inv(grid, start, goal, open, closed)
    &&& goal_not_closed(goal, closed)
    &&& frontier_complete(grid, open, closed, closed.len() as int)
}

/// A search begins in a state that meets the invariant.
pub proof fn lemma_initial_state(grid: GridView, start: (int, int), goal: (int, int))
    requires
        grid.wf(),
        grid.in_bounds(start),
        grid.passable(goal),
    ensures
        search_inv(grid, start, goal, seq![root(start, goal)], Seq::empty()),
{
}

/// Only one place of a list is the best.
pub proof fn lemma_best_unique(open: Seq<SearchNode>, i: int, j: int)
    requires
        is_best(open, i),
        is_best(open, j),
    ensures
        i == j,
{
    if i < j {
        assert(better(open[j], open[i]));
    } else if j < i {
        assert(better(open[i], open[j]));
    }
}

/// Whoever exhibits the best place has found `best_index`.
pub proof fn lemma_best_is(open: Seq<SearchNode>, i: int)
    requires
        is_best(open, i),
    ensures
        best_index(open) == i,
{
    lemma_best_unique(open, i, best_index(open));
}

/// The open list after the node at place `i` has left it keeps every other
/// tile.
proof fn lemma_remove_keeps_tiles(open: Seq<SearchNode>, i: int, t: (int, int))
    requires
        0 <= i < open.len(),
        has_tile(open, t),
        open[i].tile != t,
    ensures
        has_tile(open.remove(i), t),
{
    let b = choose|b: int| 0 <= b < open.len() && (#[trigger] open[b]).tile == t;
    if b < i {
        assert(open.remove(i)[b] == open[b]);
    } else {
        assert(open.remove(i)[b - 1] == open[b]);
    }
}

/// Moving the node at place `i` of the open list to the end of the closed
/// list keeps the lists in order, and keeps the neighbours of the nodes that
/// were closed before on the lists.
pub proof fn lemma_close_node(
    grid: GridView,
    start: (int, int),
    goal: (int, int),
    open: Seq<SearchNode>,
    closed: Seq<SearchNode>,
    i: int,
)
    requires
        lists_inv(grid, start, goal, open, closed),
        frontier_complete(grid, open, closed, closed.len() as int),
        0 <= i < open.len(),
    ensures
        lists_inv(grid, start, goal, open.remove(i), closed.push(open[i])),
        frontier_complete(grid, open.remove(i), closed.push(open[i]), closed.len() as int),
        0 <= open[i].g <= 6 * closed.len(),
        grid.in_bounds(open[i].tile),
{
    let cur = open[i];
    let rest = open.remove(i);
    let next = closed.push(cur);
    assert forall|a: int, b: int| 0 <= a < b < next.len() implies (#[trigger] next[a]).tile != (
    #[trigger] next[b]).tile by {
        if b == closed.len() {
            assert(closed[a].tile != open[i].tile);
        } else {
            assert(closed[a].tile != closed[b].tile);
        }
    }
    assert forall|a: int, b: int| 0 <= a < b < rest.len() implies (#[trigger] rest[a]).tile != (
    #[trigger] rest[b]).tile by {
        let a0 = if a < i { a } else { a + 1 };
        let b0 = if b < i { b } else { b + 1 };
        assert(open[a0].tile != open[b0].tile);
    }
    assert forall|a: int, b: int| 0 <= a < next.len() && 0 <= b < rest.len() implies (
    #[trigger] next[a]).tile != (#[trigger] rest[b]).tile by {
        let b0 = if b < i { b } else { b + 1 };
        if a == closed.len() {
            if i < b0 {
                assert(open[i].tile != open[b0].tile);
            } else {
                assert(open[b0].tile != open[i].tile);
            }
        } else {
            assert(closed[a].tile != open[b0].tile);
        }
    }
    assert forall|a: int| 0 < a < next.len() implies linked(
        grid,
        goal,
        next,
        #[trigger] next[a],
        a,
    ) by {
        if a == closed.len() {
            assert(linked(grid, goal, closed, open[i], closed.len() as int));
        } else {
            assert(linked(grid, goal, closed, closed[a], a));
        }
    }
    assert forall|b: int| 0 <= b < rest.len() implies linked(
        grid,
        goal,
        next,
        #[trigger] rest[b],
        next.len() as int,
    ) by {
        let b0 = if b < i { b } else { b + 1 };
        assert(closed.len() > 0);
        assert(linked(grid, goal, closed, open[b0], closed.len() as int));
    }
    assert forall|a: int, k: int|
        0 <= a < closed.len() && a < next.len() && 0 <= k < 8 && grid.passable(
            neighbour(next[a].tile, k),
        ) implies #[trigger] covered(rest, next, neighbour(next[a].tile, k)) by {
        let t = neighbour(closed[a].tile, k);
        assert(covered(open, closed, t));
        if has_tile(closed, t) {
            let c = choose|c: int| 0 <= c < closed.len() && (#[trigger] closed[c]).tile == t;
            assert(next[c].tile == t);
        } else if cur.tile == t {
            assert(next[closed.len() as int].tile == t);
        } else {
            lemma_remove_keeps_tiles(open, i, t);
        }
    }
    if closed.len() > 0 {
        assert(linked(grid, goal, closed, open[i], closed.len() as int));
    }
}

/// `c` is the successor of `cur` on one of its neighbours that can be walked.
pub open spec fn is_candidate(
    grid: GridView,
    cur: SearchNode,
    at: int,
    goal: (int, int),
    c: SearchNode,
) -> bool {
    exists|k: int|
        0 <= k < 8 && grid.passable(neighbour(cur.tile, k)) && c == successor(
            cur,
            at,
            #[trigger] neighbour(cur.tile, k),
            goal,
        )
}

/// The candidates are the successors on the neighbours that can be walked,
/// none left out.
pub proof fn lemma_candidates(grid: GridView, cur: SearchNode, at: int, goal: (int, int), k: int)
    requires
        0 <= k <= 8,
    ensures
        candidates(grid, cur, at, goal, k).len() <= k,
        forall|j: int|
            0 <= j < candidates(grid, cur, at, goal, k).len() ==> is_candidate(
                grid,
                cur,
                at,
                goal,
                #[trigger] candidates(grid, cur, at, goal, k)[j],
            ),
        forall|n: int|
            0 <= n < k && grid.passable(neighbour(cur.tile, n)) ==> has_tile(
                candidates(grid, cur, at, goal, k),
                #[trigger] neighbour(cur.tile, n),
            ),
    decreases k,
{
    if k > 0 {
        lemma_candidates(grid, cur, at, goal, k - 1);
        let before = candidates(grid, cur, at, goal, k - 1);
        let now = candidates(grid, cur, at, goal, k);
        let t = neighbour(cur.tile, k - 1);
        assert forall|n: int| 0 <= n < k && grid.passable(neighbour(cur.tile, n)) implies has_tile(
            now,
            #[trigger] neighbour(cur.tile, n),
        ) by {
            if n < k - 1 {
                let u = neighbour(cur.tile, n);
                let j = choose|j: int| 0 <= j < before.len() && (#[trigger] before[j]).tile == u;
                assert(now[j].tile == u);
            } else {
                assert(now[now.len() - 1].tile == t);
            }
        }
    }
}

/// Considering one candidate keeps the lists in order, drops no tile from
/// them, and leaves the candidate's tile on one of them.
pub proof fn lemma_relax(
    grid: GridView,
    start: (int, int),
    goal: (int, int),
    open: Seq<SearchNode>,
    closed: Seq<SearchNode>,
    c: SearchNode,
)
    requires
        lists_inv(grid, start, goal, open, closed),
        closed.len() > 0,
        is_candidate(grid, closed.last(), closed.len() - 1, goal, c),
    ensures
        lists_inv(grid, start, goal, relax(open, closed, c), closed),
        forall|t: (int, int)| has_tile(open, t) ==> has_tile(relax(open, closed, c), t),
        covered(relax(open, closed, c), closed, c.tile),
{
    let at = closed.len() - 1;
    let cur = closed[at];
    let k = choose|k: int|
        0 <= k < 8 && grid.passable(neighbour(cur.tile, k)) && c == successor(
            cur,
            at,
            #[trigger] neighbour(cur.tile, k),
            goal,
        );
    lemma_neighbour_adjacent(cur.tile, k);
    lemma_adjacent_distance(cur.tile, c.tile);
    if at > 0 {
        assert(linked(grid, goal, closed, closed[at], at));
    }
    assert(linked(grid, goal, closed, c, closed.len() as int));
    let after = relax(open, closed, c);
    if has_tile(closed, c.tile) {
    } else if !has_tile(open, c.tile) {
        assert(after[open.len() as int] == c);
        assert forall|a: int, b: int| 0 <= a < b < after.len() implies (#[trigger] after[a]).tile
            != (#[trigger] after[b]).tile by {
            if b == open.len() {
                assert(open[a].tile != c.tile);
            } else {
                assert(open[a].tile != open[b].tile);
            }
        }
        assert forall|a: int, b: int| 0 <= a < closed.len() && 0 <= b < after.len() implies (
        #[trigger] closed[a]).tile != (#[trigger] after[b]).tile by {
            if b < open.len() {
                assert(closed[a].tile != open[b].tile);
            }
        }
        assert forall|b: int| 0 <= b < after.len() implies linked(
            grid,
            goal,
            closed,
            #[trigger] after[b],
            closed.len() as int,
        ) by {
            if b < open.len() {
                assert(linked(grid, goal, closed, open[b], closed.len() as int));
            }
        }
        assert forall|t: (int, int)| has_tile(open, t) implies has_tile(after, t) by {
            let b = choose|b: int| 0 <= b < open.len() && (#[trigger] open[b]).tile == t;
            assert(after[b].tile == t);
        }
    } else {
        let i = position_of(open, c.tile);
        if c.g < open[i].g {
            assert(after[i] == c);
            assert forall|a: int, b: int| 0 <= a < b < after.len() implies (
            #[trigger] after[a]).tile != (#[trigger] after[b]).tile by {
                assert(open[a].tile != open[b].tile);
            }
            assert forall|a: int, b: int| 0 <= a < closed.len() && 0 <= b < after.len() implies (
            #[trigger] closed[a]).tile != (#[trigger] after[b]).tile by {
                assert(closed[a].tile != open[b].tile);
            }
            assert forall|b: int| 0 <= b < after.len() implies linked(
                grid,
                goal,
                closed,
                #[trigger] after[b],
                closed.len() as int,
            ) by {
                if b != i {
                    assert(linked(grid, goal, closed, open[b], closed.len() as int));
                }
            }
            assert forall|t: (int, int)| has_tile(open, t) implies has_tile(after, t) by {
                let b = choose|b: int| 0 <= b < open.len() && (#[trigger] open[b]).tile == t;
                assert(after[b].tile == t);
            }
        }
        assert(after[i].tile == c.tile);
    }
}

/// Considering the first `m` candidates keeps the lists in order, drops no
/// tile from them, and leaves the tiles of those candidates on them.
pub proof fn lemma_relax_all(
    grid: GridView,
    start: (int, int),
    goal: (int, int),
    open: Seq<SearchNode>,
    closed: Seq<SearchNode>,
    cands: Seq<SearchNode>,
    m: int,
)
    requires
        lists_inv(grid, start, goal, open, closed),
        closed.len() > 0,
        forall|j: int|
            0 <= j < cands.len() ==> is_candidate(
                grid,
                closed.last(),
                closed.len() - 1,
                goal,
                #[trigger] cands[j],
            ),
        0 <= m <= cands.len(),
    ensures
        lists_inv(grid, start, goal, relax_all(open, closed, cands, m), closed),
        forall|t: (int, int)| has_tile(open, t) ==> has_tile(relax_all(open, closed, cands, m), t),
        forall|j: int|
            0 <= j < m ==> covered(relax_all(open, closed, cands, m), closed, (#[trigger] cands[j]).tile),
    decreases m,
{
    if m > 0 {
        lemma_relax_all(grid, start, goal, open, closed, cands, m - 1);
        let before = relax_all(open, closed, cands, m - 1);
        lemma_relax(grid, start, goal, before, closed, cands[m - 1]);
        let after = relax_all(open, closed, cands, m);
        assert forall|j: int| 0 <= j < m implies covered(after, closed, (#[trigger] cands[j]).tile) by {
            if j < m - 1 {
                assert(covered(before, closed, cands[j].tile));
            }
        }
    }
}

/// One expansion leads from a state that meets the invariant to another.
pub proof fn lemma_expand(
    grid: GridView,
    start: (int, int),
    goal: (int, int),
    open: Seq<SearchNode>,
    closed: Seq<SearchNode>,
    i: int,
)
    requires
        search_inv(grid, start, goal, open, closed),
        0 <= i < open.len(),
        open[i].tile != goal,
    ensures
        search_inv(
            grid,
            start,
            goal,
            relax_all(
                open.remove(i),
                closed.push(open[i]),
                candidates(grid, open[i], closed.len() as int, goal, 8),
                candidates(grid, open[i], closed.len() as int, goal, 8).len() as int,
            ),
            closed.push(open[i]),
        ),
{
    let cur = open[i];
    let at = closed.len() as int;
    let rest = open.remove(i);
    let next = closed.push(cur);
    let cands = candidates(grid, cur, at, goal, 8);
    let after = relax_all(rest, next, cands, cands.len() as int);
    lemma_close_node(grid, start, goal, open, closed, i);
    lemma_candidates(grid, cur, at, goal, 8);
    assert(next.last() == cur);
    lemma_relax_all(grid, start, goal, rest, next, cands, cands.len() as int);
    assert forall|a: int| 0 <= a < next.len() implies (#[trigger] next[a]).tile != goal by {
        if a < closed.len() {
            assert(closed[a].tile != goal);
        }
    }
    assert forall|a: int, k: int|
        0 <= a < next.len() && 0 <= k < 8 && grid.passable(
            neighbour(next[a].tile, k),
        ) implies #[trigger] covered(after, next, neighbour(next[a].tile, k)) by {
        let t = neighbour(next[a].tile, k);
        if a < closed.len() {
            assert(covered(rest, next, t));
        } else {
            assert(has_tile(cands, t));
            let j = choose|j: int| 0 <= j < cands.len() && (#[trigger] cands[j]).tile == t;
            assert(covered(after, next, cands[j].tile));
        }
    }
}

/// Nodes on different tiles of the grid are no more than the grid has tiles.
pub proof fn lemma_distinct_tiles_bound(grid: GridView, nodes: Seq<SearchNode>)
    requires
        grid.wf(),
        distinct_tiles(nodes),
        forall|i: int| 0 <= i < nodes.len() ==> grid.in_bounds((#[trigger] nodes[i]).tile),
    ensures
        nodes.len() <= grid.tile_count(),
{
    let places = Seq::new(nodes.len(), |i: int| grid.index_of(nodes[i].tile));
    assert forall|i: int, j: int|
        0 <= i < places.len() && 0 <= j < places.len() && i != j implies places[i] != places[j] by {
        if places[i] == places[j] {
            lemma_index_injective(grid, nodes[i].tile, nodes[j].tile);
            if i < j {
                assert(nodes[i].tile != nodes[j].tile);
            } else {
                assert(nodes[j].tile != nodes[i].tile);
            }
        }
    }
    places.unique_seq_to_set();
    lemma_tile_count_bound(grid.width, grid.height);
    let all = vstd::set_lib::set_int_range(0, grid.tile_count());
    vstd::set_lib::lemma_int_range(0, grid.tile_count());
    assert forall|x: int| places.to_set().contains(x) implies all.contains(x) by {
        let i = choose|i: int| 0 <= i < places.len() && places[i] == x;
        assert(grid.in_bounds(nodes[i].tile));
        lemma_index_in_range(grid.width, grid.height, nodes[i].tile.0, nodes[i].tile.1);
    }
    vstd::set_lib::lemma_len_subset(places.to_set(), all);
}

/// Every node on the lists stands on a tile of the grid.
pub proof fn lemma_nodes_in_bounds(
    grid: GridView,
    start: (int, int),
    goal: (int, int),
    open: Seq<SearchNode>,
    closed: Seq<SearchNode>,
)
    requires
        lists_inv(grid, start, goal, open, closed),
    ensures
        forall|i: int| 0 <= i < closed.len() ==> grid.in_bounds((#[trigger] closed[i]).tile),
        forall|j: int| 0 <= j < open.len() ==> grid.in_bounds((#[trigger] open[j]).tile),
{
    assert forall|i: int| 0 <= i < closed.len() implies grid.in_bounds(
        (#[trigger] closed[i]).tile,
    ) by {
        if i > 0 {
            assert(linked(grid, goal, closed, closed[i], i));
        }
    }
    assert forall|j: int| 0 <= j < open.len() implies grid.in_bounds((#[trigger] open[j]).tile) by {
        if closed.len() > 0 {
            assert(linked(grid, goal, closed, open[j], closed.len() as int));
        }
    }
}

/// While a node is open, the closed list holds fewer nodes than the grid has
/// tiles.
pub proof fn lemma_room_left(
    grid: GridView,
    start: (int, int),
    goal: (int, int),
    open: Seq<SearchNode>,
    closed: Seq<SearchNode>,
)
    requires
        lists_inv(grid, start, goal, open, closed),
        open.len() > 0,
    ensures
        closed.len() < grid.tile_count(),
{
    lemma_nodes_in_bounds(grid, start, goal, open, closed);
    let all = closed.push(open[0]);
    assert forall|a: int, b: int| 0 <= a < b < all.len() implies (#[trigger] all[a]).tile != (
    #[trigger] all[b]).tile by {
        if b == closed.len() {
            assert(closed[a].tile != open[0].tile);
        } else {
            assert(closed[a].tile != closed[b].tile);
        }
    }
    assert forall|i: int| 0 <= i < all.len() implies grid.in_bounds((#[trigger] all[i]).tile) by {
        if i < closed.len() {
            assert(grid.in_bounds(closed[i].tile));
        } else {
            assert(grid.in_bounds(open[0].tile));
        }
    }
    lemma_distinct_tiles_bound(grid, all);
}

/// A list that is not empty has a best place.
pub proof fn lemma_best_exists(open: Seq<SearchNode>) -> (i: int)
    requires
        open.len() > 0,
    ensures
        is_best(open, i),
        best_index(open) == i,
    decreases open.len(),
{
    let last = open.len() - 1;
    let i = if last == 0 {
        0
    } else {
        let front = open.drop_last();
        let j = lemma_best_exists(front);
        assert(front[j] == open[j]);
        if better(open[last], open[j]) {
            assert forall|k: int| 0 <= k < last implies better(open[last], #[trigger] open[k]) by {
                assert(front[k] == open[k]);
                if k < j {
                    assert(better(front[j], front[k]));
                } else if k > j {
                    assert(!better(front[k], front[j]));
                }
            }
            last
        } else {
            assert forall|k: int| 0 <= k < j implies better(open[j], #[trigger] open[k]) by {
                assert(better(front[j], front[k]));
            }
            assert forall|k: int| j < k < open.len() implies !better(#[trigger] open[k], open[j]) by {
                if k < last {
                    assert(!better(front[k], front[j]));
                }
            }
            j
        }
    };
    lemma_best_is(open, i);
    i
}

/// The way that `retrace` reads off the closed list for the node at place
/// `i` is a way from the start to that node's tile. It is no longer than `i`,
/// and each of its tiles is that of a closed node behind the root.
pub proof fn lemma_retrace_walk(
    grid: GridView,
    start: (int, int),
    goal: (int, int),
    open: Seq<SearchNode>,
    closed: Seq<SearchNode>,
    i: int,
)
    requires
        lists_inv(grid, start, goal, open, closed),
        0 <= i < closed.len(),
    ensures
        is_walk(grid, start, retrace(closed, i), closed[i].tile),
        retrace(closed, i).len() <= i,
        retrace(closed, i).len() == 0 <==> i == 0,
        forall|j: int|
            0 <= j < retrace(closed, i).len() ==> has_tile(
                closed.subrange(1, i + 1),
                #[trigger] retrace(closed, i)[j],
            ),
    decreases i,
{
    if i > 0 {
        assert(linked(grid, goal, closed, closed[i], i));
        let p = closed[i].parent->0;
        lemma_retrace_walk(grid, start, goal, open, closed, p);
        let before = retrace(closed, p);
        let now = retrace(closed, i);
        assert(now == before.push(closed[i].tile));
        assert forall|j: int| 0 <= j < now.len() implies grid.passable(#[trigger] now[j]) by {
            if j < before.len() {
                assert(grid.passable(before[j]));
            }
        }
        assert forall|j: int| 0 <= j < now.len() implies adjacent(
            if j == 0 {
                start
            } else {
                now[j - 1]
            },
            #[trigger] now[j],
        ) by {
            if j < before.len() {
                assert(adjacent(if j == 0 { start } else { before[j - 1] }, before[j]));
            }
        }
        assert forall|j: int| 0 <= j < now.len() implies has_tile(
            closed.subrange(1, i + 1),
            #[trigger] now[j],
        ) by {
            if j < before.len() {
                assert(has_tile(closed.subrange(1, p + 1), before[j]));
                let k = choose|k: int|
                    0 <= k < closed.subrange(1, p + 1).len() && (#[trigger] closed.subrange(
                        1,
                        p + 1,
                    )[k]).tile == before[j];
                assert(closed.subrange(1, i + 1)[k].tile == before[j]);
            } else {
                assert(closed.subrange(1, i + 1)[i - 1].tile == now[j]);
            }
        }
    }
}

/// The way found does not come back to the tile from which it set out.
pub proof fn lemma_retrace_leaves_start(
    grid: GridView,
    start: (int, int),
    goal: (int, int),
    open: Seq<SearchNode>,
    closed: Seq<SearchNode>,
    i: int,
)
    requires
        lists_inv(grid, start, goal, open, closed),
        0 <= i < closed.len(),
    ensures
        forall|j: int| 0 <= j < retrace(closed, i).len() ==> #[trigger] retrace(closed, i)[j] != start,
{
    lemma_retrace_walk(grid, start, goal, open, closed, i);
    let way = retrace(closed, i);
    assert forall|j: int| 0 <= j < way.len() implies #[trigger] way[j] != start by {
        let behind = closed.subrange(1, i + 1);
        assert(has_tile(behind, way[j]));
        let k = choose|k: int| 0 <= k < behind.len() && (#[trigger] behind[k]).tile == way[j];
        assert(behind[k] == closed[k + 1]);
        assert(closed[0].tile != closed[k + 1].tile);
    }
}

/// Once the open list has run dry, every tile to which a way leads from the
/// start is closed.
pub proof fn lemma_closed_holds_reachable(
    grid: GridView,
    start: (int, int),
    goal: (int, int),
    closed: Seq<SearchNode>,
    tiles: Seq<(int, int)>,
    end: (int, int),
)
    requires
        search_inv(grid, start, goal, Seq::empty(), closed),
        is_walk(grid, start, tiles, end),
    ensures
        has_tile(closed, end),
    decreases tiles.len(),
{
    if tiles.len() == 0 {
        assert(closed[0].tile == start);
    } else {
        let front = tiles.drop_last();
        let before = if front.len() == 0 { start } else { front.last() };
        assert forall|i: int| 0 <= i < front.len() implies grid.passable(#[trigger] front[i]) by {
            assert(front[i] == tiles[i]);
        }
        assert forall|i: int| 0 <= i < front.len() implies adjacent(
            if i == 0 {
                start
            } else {
                front[i - 1]
            },
            #[trigger] front[i],
        ) by {
            assert(front[i] == tiles[i]);
            if i > 0 {
                assert(front[i - 1] == tiles[i - 1]);
            }
        }
        lemma_closed_holds_reachable(grid, start, goal, closed, front, before);
        let a = choose|a: int| 0 <= a < closed.len() && (#[trigger] closed[a]).tile == before;
        let last = tiles.len() - 1;
        assert(end == tiles[last]);
        assert(adjacent(if last == 0 { start } else { tiles[last - 1] }, tiles[last]));
        assert(before == if last == 0 { start } else { tiles[last - 1] });
        let k = lemma_adjacent_is_neighbour(before, end);
        assert(grid.passable(tiles[last]));
        assert(covered(Seq::empty(), closed, neighbour(closed[a].tile, k)));
    }
}

/// A search that starts from lists that meet the invariant ends with a way
/// from the start to the goal that does not come back to the start, or with
/// `None` where no way leads to the goal.
pub proof fn lemma_search_from(
    grid: GridView,
    start: (int, int),
    goal: (int, int),
    open: Seq<SearchNode>,
    closed: Seq<SearchNode>,
)
    requires
        search_inv(grid, start, goal, open, closed),
    ensures
        match search_from(grid, goal, open, closed) {
            Some(tiles) => {
                &&& is_walk(grid, start, tiles, goal)
                &&& forall|j: int| 0 <= j < tiles.len() ==> #[trigger] tiles[j] != start
            },
            None => !reachable(grid, start, goal),
        },
    decreases grid.tile_count() - closed.len(),
{
    if open.len() == 0 {
        assert(open =~= Seq::empty());
        assert forall|tiles: Seq<(int, int)>| !is_walk(grid, start, tiles, goal) by {
            if is_walk(grid, start, tiles, goal) {
                lemma_closed_holds_reachable(grid, start, goal, closed, tiles, goal);
                let a = choose|a: int| 0 <= a < closed.len() && (#[trigger] closed[a]).tile == goal;
                assert(closed[a].tile != goal);
            }
        }
    } else {
        lemma_room_left(grid, start, goal, open, closed);
        let i = lemma_best_exists(open);
        let next = closed.push(open[i]);
        if open[i].tile == goal {
            lemma_close_node(grid, start, goal, open, closed, i);
            lemma_retrace_walk(grid, start, goal, open.remove(i), next, closed.len() as int);
            lemma_retrace_leaves_start(grid, start, goal, open.remove(i), next, closed.len() as int);
        } else {
            lemma_expand(grid, start, goal, open, closed, i);
            let cands = candidates(grid, open[i], closed.len() as int, goal, 8);
            lemma_search_from(
                grid,
                start,
                goal,
                relax_all(open.remove(i), next, cands, cands.len() as int),
                next,
            );
        }
    }
}

/// The search finds a way exactly where one exists: from a start on the grid
/// to a goal that can be walked and that some way reaches. What it finds is
/// such a way, and does not come back to the start.
pub proof fn lemma_search_tiles(grid: GridView, start: (int, int), goal: (int, int))
    requires
        grid.wf(),
    ensures
        search_tiles(grid, start, goal) is Some <==> grid.in_bounds(start) && grid.passable(goal)
            && reachable(grid, start, goal),
        search_tiles(grid, start, goal) matches Some(tiles) ==> {
            &&& is_walk(grid, start, tiles, goal)
            &&& forall|j: int| 0 <= j < tiles.len() ==> #[trigger] tiles[j] != start
        },
{
    if grid.in_bounds(start) && grid.passable(goal) {
        lemma_initial_state(grid, start, goal);
        lemma_search_from(grid, start, goal, seq![root(start, goal)], Seq::empty());
    }
}

/// In the lists of a search no node has a predecessor at its own place or
/// behind it.
pub proof fn lemma_arena_ordered(
    grid: GridView,
    start: (int, int),
    goal: (int, int),
    open: Seq<SearchNode>,
    closed: Seq<SearchNode>,
)
    requires
        lists_inv(grid, start, goal, open, closed),
    ensures
        arena_ordered(closed),
{
    assert forall|i: int| 0 <= i < closed.len() implies ((#[trigger] closed[i]).parent matches Some(
        p,
    ) ==> 0 <= p < i) by {
        if i > 0 {
            assert(linked(grid, goal, closed, closed[i], i));
        }
    }
}

/// After any number of expansions the lists of a search are in order, and
/// either the goal is closed or the search can go on.
pub proof fn lemma_lists_after(grid: GridView, start: (int, int), goal: (int, int), n: nat)
    requires
        grid.wf(),
        grid.in_bounds(start),
        grid.passable(goal),
    ensures
        lists_inv(grid, start, goal, lists_after(grid, start, goal, n).0, lists_after(grid, start, goal, n).1),
        has_tile(lists_after(grid, start, goal, n).1, goal) || search_inv(
            grid,
            start,
            goal,
            lists_after(grid, start, goal, n).0,
            lists_after(grid, start, goal, n).1,
        ),
    decreases n,
{
    if n == 0 {
        lemma_initial_state(grid, start, goal);
    } else {
        lemma_lists_after(grid, start, goal, (n - 1) as nat);
        let (open, closed) = lists_after(grid, start, goal, (n - 1) as nat);
        if open.len() == 0 || has_tile(closed, goal) {
        } else {
            let i = lemma_best_exists(open);
            if open[i].tile == goal {
                lemma_close_node(grid, start, goal, open, closed, i);
                assert(closed.push(open[i])[closed.len() as int].tile == goal);
            } else {
                lemma_expand(grid, start, goal, open, closed, i);
            }
        }
    }
}

/// Walking back from any closed node ends: after any number of expansions,
/// the predecessor of each closed node stands before it in the list, so that
/// no walk from a node comes back to it, and the walk from the node at place
/// `i` reaches the root, which has no predecessor, after at most `i` steps.
pub proof fn lemma_retrace_ends(grid: GridView, start: (int, int), goal: (int, int), n: nat, i: int)
    requires
        grid.wf(),
        grid.in_bounds(start),
        grid.passable(goal),
        0 <= i < lists_after(grid, start, goal, n).1.len(),
    ensures
        arena_ordered(lists_after(grid, start, goal, n).1),
        lists_after(grid, start, goal, n).1[0].parent is None,
        retrace(lists_after(grid, start, goal, n).1, i).len() <= i,
        is_walk(
            grid,
            start,
            retrace(lists_after(grid, start, goal, n).1, i),
            lists_after(grid, start, goal, n).1[i].tile,
        ),
{
    let (open, closed) = lists_after(grid, start, goal, n);
    lemma_lists_after(grid, start, goal, n);
    lemma_arena_ordered(grid, start, goal, open, closed);
    lemma_retrace_walk(grid, start, goal, open, closed, i);
}

} // verus!
