//! The search over the grid as a mathematical function: nodes, the open and
//! the closed list, one expansion step, and the path that a finished search
//! yields.

use vstd::prelude::*;
use crate::geometry::{ceil_sqrt_spec, TILE_SIZE};
use crate::map::GridView;

verus! {

/// A node of the search: a tile, the cost of the way found to it, the
/// estimated cost from it to the goal, and the place in the closed list of the
/// node from which it was reached.
pub struct SearchNode {
    pub tile: (int, int),
    pub g: int,
    pub h: int,
    pub parent: Option<int>,
}

impl SearchNode {
    /// The rank of a node: cost so far plus estimated rest.
    pub open spec fn f(self) -> int {
        self.g + self.h
    }
}

/// The eight steps to a neighbouring tile, in the order in which a search
/// tries them.
pub open spec fn neighbour_offset(k: int) -> (int, int) {
    if k == 0 {
        (1, 0)
    } else if k == 1 {
        (1, 1)
    } else if k == 2 {
        (0, 1)
    } else if k == 3 {
        (-1, 0)
    } else if k == 4 {
        (-1, -1)
    } else if k == 5 {
        (0, -1)
    } else if k == 6 {
        (1, -1)
    } else {
        (-1, 1)
    }
}

/// The `k`-th neighbour of tile `t`.
pub open spec fn neighbour(t: (int, int), k: int) -> (int, int) {
    (t.0 + neighbour_offset(k).0, t.1 + neighbour_offset(k).1)
}

/// Two different tiles that touch at an edge or at a corner.
pub open spec fn adjacent(a: (int, int), b: (int, int)) -> bool {
    &&& a != b
    &&& -1 <= a.0 - b.0 <= 1
    &&& -1 <= a.1 - b.1 <= 1
}

/// The squared distance between two tiles, in world units.
pub open spec fn squared_distance(a: (int, int), b: (int, int)) -> int {
    (TILE_SIZE * TILE_SIZE) * ((a.0 - b.0) * (a.0 - b.0) + (a.1 - b.1) * (a.1 - b.1))
}

/// The distance between two tiles in world units, rounded up. It is both the
/// cost of a step and the estimate of the cost that is left.
pub open spec fn tile_distance(a: (int, int), b: (int, int)) -> int {
    ceil_sqrt_spec(squared_distance(a, b))
}

/// Some node of `nodes` stands on tile `t`.
pub open spec fn has_tile(nodes: Seq<SearchNode>, t: (int, int)) -> bool {
    exists|i: int| 0 <= i < nodes.len() && (#[trigger] nodes[i]).tile == t
}

/// The place in `nodes` of a node on tile `t`.
pub open spec fn position_of(nodes: Seq<SearchNode>, t: (int, int)) -> int {
    choose|i: int| 0 <= i < nodes.len() && (#[trigger] nodes[i]).tile == t
}

/// `a` is expanded before `b`: lower rank first, and among equal ranks the
/// lower estimate.
pub open spec fn better(a: SearchNode, b: SearchNode) -> bool {
    a.f() < b.f() || (a.f() == b.f() && a.h < b.h)
}

/// `i` is the first place in `open` of a node that no other node is better
/// than.
pub open spec fn is_best(open: Seq<SearchNode>, i: int) -> bool {
    &&& 0 <= i < open.len()
    &&& forall|j: int| 0 <= j < i ==> better(open[i], #[trigger] open[j])
    &&& forall|j: int| i < j < open.len() ==> !better(#[trigger] open[j], open[i])
}

/// The place in `open` of the node that is expanded next.
pub open spec fn best_index(open: Seq<SearchNode>) -> int {
    choose|i: int| is_best(open, i)
}

/// The node with which a search from `start` to `goal` begins.
pub open spec fn root(start: (int, int), goal: (int, int)) -> SearchNode {
    SearchNode { tile: start, g: 0, h: tile_distance(start, goal), parent: None }
}

/// The node for tile `t` as reached from `cur`, which stands at place `at` of
/// the closed list.
pub open spec fn successor(cur: SearchNode, at: int, t: (int, int), goal: (int, int)) -> SearchNode {
    SearchNode {
        tile: t,
        g: cur.g + tile_distance(cur.tile, t),
        h: tile_distance(t, goal),
        parent: Some(at),
    }
}

/// The successors of `cur` on those of its first `k` neighbours that can be
/// walked, in the order of the neighbours.
pub open spec fn candidates(grid: GridView, cur: SearchNode, at: int, goal: (int, int), k: int) -> Seq<
    SearchNode,
>
    decreases k,
{
    if k <= 0 {
        Seq::empty()
    } else {
        let before = candidates(grid, cur, at, goal, k - 1);
        let t = neighbour(cur.tile, k - 1);
        if grid.passable(t) {
            before.push(successor(cur, at, t, goal))
        } else {
            before
        }
    }
}

/// The open list after candidate `c` has been considered: a tile that is
/// closed is left alone, a new tile joins the end of the list, and a tile that
/// is open already takes the candidate's place where that lowers its cost.
pub open spec fn relax(open: Seq<SearchNode>, closed: Seq<SearchNode>, c: SearchNode) -> Seq<
    SearchNode,
> {
    if has_tile(closed, c.tile) {
        open
    } else if !has_tile(open, c.tile) {
        open.push(c)
    } else {
        let i = position_of(open, c.tile);
        if c.g < open[i].g {
            open.update(i, c)
        } else {
            open
        }
    }
}

/// The open list after the first `m` of `cands` have been considered in turn.
pub open spec fn relax_all(
    open: Seq<SearchNode>,
    closed: Seq<SearchNode>,
    cands: Seq<SearchNode>,
    m: int,
) -> Seq<SearchNode>
    decreases m,
{
    if m <= 0 {
        open
    } else {
        relax(relax_all(open, closed, cands, m - 1), closed, cands[m - 1])
    }
}

/// The tiles on the way from the root to the node at place `i` of the closed
/// list, the root's own tile left out.
pub open spec fn retrace(closed: Seq<SearchNode>, i: int) -> Seq<(int, int)>
    decreases i,
{
    if 0 <= i < closed.len() {
        match closed[i].parent {
            Some(p) => if 0 <= p < i {
                retrace(closed, p).push(closed[i].tile)
            } else {
                Seq::empty()
            },
            None => Seq::empty(),
        }
    } else {
        Seq::empty()
    }
}

/// The outcome of the search that has come to the lists `open` and `closed`:
/// the tiles of the way to `goal`, or `None` where the open list runs dry.
pub open spec fn search_from(
    grid: GridView,
    goal: (int, int),
    open: Seq<SearchNode>,
    closed: Seq<SearchNode>,
) -> Option<Seq<(int, int)>>
    decreases grid.tile_count() - closed.len(),
{
    if open.len() == 0 || closed.len() >= grid.tile_count() {
        None
    } else {
        let i = best_index(open);
        let cur = open[i];
        let closed_next = closed.push(cur);
        if cur.tile == goal {
            Some(retrace(closed_next, closed.len() as int))
        } else {
            let cands = candidates(grid, cur, closed.len() as int, goal, 8);
            search_from(
                grid,
                goal,
                relax_all(open.remove(i), closed_next, cands, cands.len() as int),
                closed_next,
            )
        }
    }
}

/// The tiles that lead from tile `start` to tile `goal`, `start` left out and
/// `goal` last, as the search finds them; `None` where `start` is off the
/// grid, `goal` cannot be walked, or no way leads there.
pub open spec fn search_tiles(grid: GridView, start: (int, int), goal: (int, int)) -> Option<
    Seq<(int, int)>,
> {
    if !grid.in_bounds(start) || !grid.passable(goal) {
        None
    } else {
        search_from(grid, goal, seq![root(start, goal)], Seq::empty())
    }
}

/// `tiles` is a way over `grid` from `start` to `goal`: each of its tiles can
/// be walked and is adjacent to the one before it (the first one to `start`),
/// and the last one is `goal`. The empty way leads from a tile to itself.
pub open spec fn is_walk(
    grid: GridView,
    start: (int, int),
    tiles: Seq<(int, int)>,
    goal: (int, int),
) -> bool {
    &&& forall|i: int| 0 <= i < tiles.len() ==> grid.passable(#[trigger] tiles[i])
    &&& forall|i: int|
        0 <= i < tiles.len() ==> adjacent(if i == 0 { start } else { tiles[i - 1] }, #[trigger] tiles[i])
    &&& goal == if tiles.len() == 0 { start } else { tiles.last() }
}

/// Some way over `grid` leads from `start` to `goal`.
pub open spec fn reachable(grid: GridView, start: (int, int), goal: (int, int)) -> bool {
    exists|tiles: Seq<(int, int)>| is_walk(grid, start, tiles, goal)
}

/// No node of `nodes` has a predecessor at its own place or behind it.
pub open spec fn arena_ordered(nodes: Seq<SearchNode>) -> bool {
    forall|i: int|
        0 <= i < nodes.len() ==> ((#[trigger] nodes[i]).parent matches Some(p) ==> 0 <= p < i)
}

/// The open and the closed list of the search from `start` to `goal` after
/// `n` expansions. Once the open list has run dry or the goal is closed, the
/// lists stay as they are.
pub open spec fn lists_after(grid: GridView, start: (int, int), goal: (int, int), n: nat) -> (
    Seq<SearchNode>,
    Seq<SearchNode>,
)
    decreases n,
{
    if n == 0 {
        (seq![root(start, goal)], Seq::empty())
    } else {
        let (open, closed) = lists_after(grid, start, goal, (n - 1) as nat);
        if open.len() == 0 || has_tile(closed, goal) {
            (open, closed)
        } else {
            let i = best_index(open);
            let cur = open[i];
            let closed_next = closed.push(cur);
            if cur.tile == goal {
                (open.remove(i), closed_next)
            } else {
                let cands = candidates(grid, cur, closed.len() as int, goal, 8);
                (relax_all(open.remove(i), closed_next, cands, cands.len() as int), closed_next)
            }
        }
    }
}

} // verus!
