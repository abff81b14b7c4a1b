//! A* over the tile grid.

use std::collections::VecDeque;
use vstd::prelude::*;
use crate::geometry::{
    ceil_sqrt, origin_of, tile_containing, tile_of, tile_origin, Pos, TileCoord, TILE_SIZE,
};
use crate::map::{lemma_tile_count_bound, GridMap, GridView};
use crate::search::{
    adjacent, arena_ordered, best_index, better, candidates, has_tile, is_best, is_walk, neighbour,
    neighbour_offset, position_of, reachable, relax, relax_all, retrace, root, search_from,
    search_tiles, squared_distance, successor, tile_distance, SearchNode,
};
use crate::search_proofs::{
    distinct_tiles, is_candidate, lemma_adjacent_distance, lemma_arena_ordered, lemma_best_is,
    lemma_candidates, lemma_close_node, lemma_expand, lemma_initial_state, lemma_neighbour_adjacent,
    lemma_nodes_in_bounds, lemma_relax_all, lemma_room_left, lemma_search_tiles, lists_inv,
    search_inv,
};

verus! {

/// A node of a running search. `parent_node` is the place in the closed list
/// of the node from which this one was reached.
#[derive(Clone, Copy, Debug)]
pub struct Node {
    pub pos: TileCoord,
    pub g_cost: u64,
    pub h_cost: u64,
    pub parent_node: Option<usize>,
}

impl View for Node {
    type V = SearchNode;

    open spec fn view(&self) -> SearchNode {
        SearchNode {
            tile: self.pos@,
            g: self.g_cost as int,
            h: self.h_cost as int,
            parent: match self.parent_node {
                Some(p) => Some(p as int),
                None => None,
            },
        }
    }
}

/// The nodes of a list as the search sees them.
pub open spec fn node_views(nodes: Seq<Node>) -> Seq<SearchNode> {
    nodes.map_values(|n: Node| n@)
}

impl Node {
    /// The rank of the node: cost so far plus estimated rest.
    pub fn f_cost(&self) -> (f: u128)
        ensures
            f == self@.f(),
    {
        self.g_cost as u128 + self.h_cost as u128
    }
}

/// The absolute difference of two coordinates.
fn span(a: i32, b: i32) -> (d: u128)
    ensures
        d == if a >= b { a - b } else { b - a },
        d <= 0xffff_ffff,
{
    if a >= b {
        (a as i64 - b as i64) as u128
    } else {
        (b as i64 - a as i64) as u128
    }
}

/// The distance between two tiles in world units, rounded up.
pub fn distance_between(a: TileCoord, b: TileCoord) -> (d: u64)
    ensures
        d == tile_distance(a@, b@),
{
    let dc: u128 = span(a.col, b.col);
    let dr: u128 = span(a.row, b.row);
    proof {
        let x = a.col - b.col;
        let y = a.row - b.row;
        assert(dc * dc == x * x && dc * dc <= 0xffff_ffff * 0xffff_ffff) by (nonlinear_arith)
            requires
                dc == x || dc == -x,
                0 <= dc <= 0xffff_ffff,
        ;
        assert(dr * dr == y * y && dr * dr <= 0xffff_ffff * 0xffff_ffff) by (nonlinear_arith)
            requires
                dr == y || dr == -y,
                0 <= dr <= 0xffff_ffff,
        ;
        assert(TILE_SIZE * TILE_SIZE == 16);
    }
    let area: u128 = (TILE_SIZE * TILE_SIZE) as u128;
    let n: u128 = area * (dc * dc + dr * dr);
    let r: u128 = ceil_sqrt(n);
    proof {
        assert(n == squared_distance(a@, b@));
        if r > 0x10_0000_0000 {
            assert((r - 1) * (r - 1) >= 0x10_0000_0000 * 0x10_0000_0000) by (nonlinear_arith)
                requires
                    r - 1 >= 0x10_0000_0000,
            ;
        }
    }
    r as u64
}

/// The `k`-th of the eight steps to a neighbouring tile.
fn step_to_neighbour(k: usize) -> (d: (i32, i32))
    requires
        k < 8,
    ensures
        (d.0 as int, d.1 as int) == neighbour_offset(k as int),
{
    if k == 0 {
        (1, 0)
    } else if k == 1 {
        (1, 1)
    } else if k == 2 {
        (0, 1)
    } else if k == 3 {
        (-1, 0)
    } else if k == 4 {
        (-1, -1)
    } else if k == 5 {
        (0, -1)
    } else if k == 6 {
        (1, -1)
    } else {
        (-1, 1)
    }
}

/// Whether a node of `nodes` stands on the tile of `node`.
pub fn vec_contains_node(nodes: &Vec<Node>, node: &Node) -> (found: bool)
    ensures
        found == has_tile(node_views(nodes@), node.pos@),
{
    find_node(nodes, node.pos).is_some()
}

/// The first place in `nodes` of a node on tile `pos`.
pub fn find_node(nodes: &Vec<Node>, pos: TileCoord) -> (place: Option<usize>)
    ensures
        place is Some <==> has_tile(node_views(nodes@), pos@),
        place matches Some(i) ==> {
            &&& i < nodes.len()
            &&& nodes[i as int].pos == pos
            &&& forall|j: int| 0 <= j < i ==> (#[trigger] nodes[j]).pos != pos
        },
{
    let mut i: usize = 0;
    while i < nodes.len()
        invariant
            i <= nodes.len(),
            forall|j: int| 0 <= j < i ==> (#[trigger] nodes[j]).pos != pos,
        decreases nodes.len() - i,
    {
        if nodes[i].pos == pos {
            assert(node_views(nodes@)[i as int].tile == pos@);
            return Some(i);
        }
        i += 1;
    }
    proof {
        let views = node_views(nodes@);
        if has_tile(views, pos@) {
            let j = choose|j: int| 0 <= j < views.len() && (#[trigger] views[j]).tile == pos@;
            assert(nodes[j].pos != pos);
        }
    }
    None
}

/// The place in `open` of the node to expand next: the lowest rank, among
/// equal ranks the lowest estimate, among those the first.
pub fn lowest_cost_index(open: &Vec<Node>) -> (best: usize)
    requires
        open.len() > 0,
    ensures
        is_best(node_views(open@), best as int),
        best == best_index(node_views(open@)),
{
    let ghost views = node_views(open@);
    let mut best: usize = 0;
    let mut i: usize = 1;
    while i < open.len()
        invariant
            views == node_views(open@),
            1 <= i <= open.len(),
            best < i,
            forall|j: int| 0 <= j < best ==> better(views[best as int], #[trigger] views[j]),
            forall|j: int| best < j < i ==> !better(#[trigger] views[j], views[best as int]),
        decreases open.len() - i,
    {
        let f: u128 = open[i].f_cost();
        let best_f: u128 = open[best].f_cost();
        assert(views[i as int] == open[i as int]@);
        assert(views[best as int] == open[best as int]@);
        if f < best_f || (f == best_f && open[i].h_cost < open[best].h_cost) {
            assert forall|j: int| 0 <= j < i implies better(views[i as int], #[trigger] views[j]) by {
                if j < best {
                    assert(better(views[best as int], views[j]));
                } else if j > best {
                    assert(!better(views[j], views[best as int]));
                }
            }
            best = i;
        }
        i += 1;
    }
    proof {
        lemma_best_is(views, best as int);
    }
    best
}

/// The canonical positions of `tiles`.
pub open spec fn origins(tiles: Seq<(int, int)>) -> Seq<Pos> {
    tiles.map_values(|t: (int, int)| tile_origin(t))
}

/// The way from `start` to `goal` over `grid`: the canonical positions of the
/// tiles to cross, the tile of `start` left out and the tile of `goal` last.
/// `None` where `start` is off the grid, the tile of `goal` cannot be walked,
/// or no way leads there.
pub open spec fn find_path(grid: GridView, start: Pos, goal: Pos) -> Option<Seq<Pos>> {
    match search_tiles(grid, tile_of(start), tile_of(goal)) {
        Some(tiles) => Some(origins(tiles)),
        None => None,
    }
}

/// The tiles that hold the positions of `way`.
pub open spec fn tiles_of(way: Seq<Pos>) -> Seq<(int, int)> {
    way.map_values(|p: Pos| tile_of(p))
}

/// `way` leads over `grid` from `start` to `goal`: its positions are the
/// canonical positions of tiles that can be walked, each adjacent to the one
/// before it, the first one to the tile of `start`, and the last one is the
/// tile of `goal`. The empty way leads from a tile to itself.
pub open spec fn is_path(grid: GridView, start: Pos, way: Seq<Pos>, goal: Pos) -> bool {
    &&& way == origins(tiles_of(way))
    &&& is_walk(grid, tile_of(start), tiles_of(way), tile_of(goal))
}

/// What a search hands back, as a value.
pub open spec fn path_view(path: Option<VecDeque<Pos>>) -> Option<Seq<Pos>> {
    match path {
        Some(way) => Some(way@),
        None => None,
    }
}

/// The canonical position of a tile of the grid lies in that tile.
pub proof fn lemma_origin_in_tile(grid: GridView, t: (int, int))
    requires
        grid.wf(),
        grid.in_bounds(t),
    ensures
        tile_of(tile_origin(t)) == t,
{
}

/// A search finds a way exactly where one exists, and what it finds is a way
/// from `start` to `goal` that does not come back to the tile of `start`.
pub proof fn lemma_find_path(grid: GridView, start: Pos, goal: Pos)
    requires
        grid.wf(),
    ensures
        find_path(grid, start, goal) is Some <==> grid.in_bounds(tile_of(start)) && grid.passable(
            tile_of(goal),
        ) && reachable(grid, tile_of(start), tile_of(goal)),
        find_path(grid, start, goal) matches Some(way) ==> {
            &&& is_path(grid, start, way, goal)
            &&& forall|i: int| 0 <= i < way.len() ==> tile_of(#[trigger] way[i]) != tile_of(start)
        },
{
    lemma_search_tiles(grid, tile_of(start), tile_of(goal));
    if let Some(tiles) = search_tiles(grid, tile_of(start), tile_of(goal)) {
        let way = origins(tiles);
        assert forall|i: int| 0 <= i < tiles.len() implies tile_of(#[trigger] way[i]) == tiles[i] by {
            assert(grid.passable(tiles[i]));
            lemma_origin_in_tile(grid, tiles[i]);
        }
        assert(tiles_of(way) =~= tiles);
    }
}

/// Consecutive positions of a way lie on adjacent tiles.
pub proof fn lemma_path_steps(grid: GridView, start: Pos, way: Seq<Pos>, goal: Pos)
    requires
        is_path(grid, start, way, goal),
    ensures
        forall|i: int| 0 < i < way.len() ==> adjacent(tile_of(way[i - 1]), tile_of(#[trigger] way[i])),
{
    let tiles = tiles_of(way);
    assert forall|i: int| 0 < i < way.len() implies adjacent(
        tile_of(way[i - 1]),
        tile_of(#[trigger] way[i]),
    ) by {
        assert(adjacent(if i == 0 { tile_of(start) } else { tiles[i - 1] }, tiles[i]));
    }
}

/// Finds ways over a grid that it holds for itself: later changes to the
/// grid it was made from do not reach it.
pub struct Pathfinder {
    map: GridMap,
}

impl Pathfinder {
    /// The grid that is searched.
    pub closed spec fn grid(&self) -> GridView {
        self.map@
    }

    /// A finder for ways over `map`.
    pub fn new(map: GridMap) -> (finder: Pathfinder)
        ensures
            finder.grid() == map@,
            finder.grid().wf(),
    {
        let _ = map.size();
        Pathfinder { map }
    }

    /// The positions on the way from the root to the node at place `end` of
    /// `closed`, the last one first and the root's own left out.
    fn retrace_path(&self, closed: &Vec<Node>, end: usize) -> (path: Vec<Pos>)
        requires
            end < closed.len(),
            arena_ordered(node_views(closed@)),
            forall|i: int|
                0 <= i < closed.len() ==> self.map@.in_bounds((#[trigger] closed[i]).pos@),
        ensures
            path.len() == retrace(node_views(closed@), end as int).len(),
            forall|j: int|
                0 <= j < path.len() ==> #[trigger] path[j] == tile_origin(
                    retrace(node_views(closed@), end as int)[path.len() - 1 - j],
                ),
    {
        let ghost views = node_views(closed@);
        let ghost whole = retrace(views, end as int);
        let mut path: Vec<Pos> = Vec::new();
        let mut current: usize = end;
        let _ = self.map.width();
        loop
            invariant
                views == node_views(closed@),
                whole == retrace(views, end as int),
                current < closed.len(),
                arena_ordered(views),
                self.map@.wf(),
                forall|i: int|
                    0 <= i < closed.len() ==> self.map@.in_bounds((#[trigger] closed[i]).pos@),
                whole.len() == retrace(views, current as int).len() + path.len(),
                forall|j: int|
                    0 <= j < retrace(views, current as int).len() ==> retrace(
                        views,
                        current as int,
                    )[j] == whole[j],
                forall|j: int|
                    0 <= j < path.len() ==> #[trigger] path[j] == tile_origin(
                        whole[whole.len() - 1 - j],
                    ),
            ensures
                path.len() == whole.len(),
                forall|j: int|
                    0 <= j < path.len() ==> #[trigger] path[j] == tile_origin(
                        whole[path.len() - 1 - j],
                    ),
            decreases current,
        {
            let node: Node = closed[current];
            assert(views[current as int] == node@);
            match node.parent_node {
                Some(parent) => {
                    assert(self.map@.in_bounds(closed[current as int].pos@));
                    assert(retrace(views, current as int) == retrace(views, parent as int).push(
                        node@.tile,
                    ));
                    path.push(origin_of(node.pos));
                    current = parent;
                },
                None => {
                    break ;
                },
            }
        }
        path
    }

    /// The successors of `node`, which stands at place `at` of the closed
    /// list, on its neighbours that can be walked.
    fn evaluate_traversable_node_neighbours(&self, node: &Node, at: usize, target: TileCoord) -> (neighbours:
        Vec<Node>)
        requires
            self.map@.in_bounds(node.pos@),
            node.g_cost <= u64::MAX - 6,
        ensures
            node_views(neighbours@) == candidates(self.map@, node@, at as int, target@, 8),
    {
        let mut neighbours: Vec<Node> = Vec::new();
        let _ = self.map.width();
        let mut k: usize = 0;
        while k < 8
            invariant
                k <= 8,
                self.map@.wf(),
                self.map@.in_bounds(node.pos@),
                node.g_cost <= u64::MAX - 6,
                node_views(neighbours@) == candidates(self.map@, node@, at as int, target@, k as int),
            decreases 8 - k,
        {
            let diff = step_to_neighbour(k);
            let current_neighbour_pos = TileCoord {
                col: node.pos.col + diff.0,
                row: node.pos.row + diff.1,
            };
            assert(current_neighbour_pos@ == neighbour(node.pos@, k as int));
            if self.map.tile_passable(current_neighbour_pos) {
                proof {
                    lemma_neighbour_adjacent(node.pos@, k as int);
                    lemma_adjacent_distance(node.pos@, current_neighbour_pos@);
                }
                let reached = Node {
                    g_cost: node.g_cost + distance_between(node.pos, current_neighbour_pos),
                    h_cost: distance_between(current_neighbour_pos, target),
                    parent_node: Some(at),
                    pos: current_neighbour_pos,
                };
                assert(reached@ == successor(node@, at as int, current_neighbour_pos@, target@));
                let ghost before = node_views(neighbours@);
                neighbours.push(reached);
                assert(node_views(neighbours@) =~= before.push(reached@));
            }
            k += 1;
        }
        neighbours
    }

    /// The way that ends with the last node of `closed`, first step first.
    fn path_to_last(&self, closed: &Vec<Node>) -> (path: VecDeque<Pos>)
        requires
            closed.len() > 0,
            arena_ordered(node_views(closed@)),
            forall|i: int|
                0 <= i < closed.len() ==> self.map@.in_bounds((#[trigger] closed[i]).pos@),
        ensures
            path@ == origins(retrace(node_views(closed@), closed.len() - 1)),
    {
        let reversed: Vec<Pos> = self.retrace_path(closed, closed.len() - 1);
        let ghost tiles = retrace(node_views(closed@), closed.len() - 1);
        let mut path: VecDeque<Pos> = VecDeque::new();
        let mut left: usize = reversed.len();
        while left > 0
            invariant
                left <= reversed.len(),
                reversed.len() == tiles.len(),
                path@.len() == reversed.len() - left,
                forall|j: int|
                    0 <= j < reversed.len() ==> #[trigger] reversed[j] == tile_origin(
                        tiles[reversed.len() - 1 - j],
                    ),
                forall|j: int| 0 <= j < path@.len() ==> path@[j] == tile_origin(tiles[j]),
            decreases left,
        {
            left -= 1;
            path.push_back(reversed[left]);
        }
        assert(path@ =~= origins(tiles));
        path
    }

    /// Searches the way from `start` to `end`: both are taken for the tiles
    /// that hold them. The way is found exactly where `start` is on the grid,
    /// the tile of `end` can be walked and some way leads there; consecutive
    /// positions of it lie on adjacent tiles.
    pub fn a_star(&self, start: Pos, end: Pos) -> (path: Option<VecDeque<Pos>>)
        ensures
            path_view(path) == find_path(self.grid(), start, end),
            path is Some <==> self.grid().in_bounds(tile_of(start)) && self.grid().passable(
                tile_of(end),
            ) && reachable(self.grid(), tile_of(start), tile_of(end)),
            path matches Some(way) ==> {
                &&& is_path(self.grid(), start, way@, end)
                &&& forall|i: int| 0 <= i < way@.len() ==> tile_of(#[trigger] way@[i]) != tile_of(start)
                &&& forall|i: int|
                    0 < i < way@.len() ==> adjacent(tile_of(way@[i - 1]), tile_of(#[trigger] way@[i]))
            },
    {
        let end_tile = tile_containing(end);
        let start_tile = tile_containing(start);
        if !self.map.tile_in_bounds(start_tile) || !self.map.tile_passable(end_tile) {
            proof {
                lemma_find_path(self.map@, start, end);
            }
            return None;
        }
        let ghost grid = self.map@;
        let ghost s = start_tile@;
        let ghost g = end_tile@;
        let mut open_nodes: Vec<Node> = Vec::new();
        open_nodes.push(
            Node {
                g_cost: 0,
                h_cost: distance_between(start_tile, end_tile),
                parent_node: None,
                pos: start_tile,
            },
        );
        let mut closed_nodes: Vec<Node> = Vec::new();
        proof {
            lemma_initial_state(grid, s, g);
            assert(node_views(open_nodes@) =~= seq![root(s, g)]);
            assert(node_views(closed_nodes@) =~= Seq::empty());
            reveal(searching);
        }
        while open_nodes.len() > 0
            invariant
                grid == self.map@,
                grid.wf(),
                s == tile_of(start),
                g == tile_of(end),
                g == end_tile@,
                searching(grid, s, g, node_views(open_nodes@), node_views(closed_nodes@)),
                search_from(grid, g, node_views(open_nodes@), node_views(closed_nodes@))
                    == search_tiles(grid, s, g),
            decreases grid.tile_count() - closed_nodes.len(),
        {
            let ghost open0 = node_views(open_nodes@);
            let ghost closed0 = node_views(closed_nodes@);
            let current_node: Node = close_best(
                &mut open_nodes,
                &mut closed_nodes,
                Ghost(grid),
                Ghost(s),
                Ghost(g),
            );
            if current_node.pos == end_tile {
                let path = self.path_to_last(&closed_nodes);
                proof {
                    lemma_find_path(grid, start, end);
                    lemma_path_steps(grid, start, path@, end);
                }
                return Some(path);
            }
            self.expand(
                &mut open_nodes,
                &closed_nodes,
                &current_node,
                end_tile,
                Ghost(s),
                Ghost(open0),
                Ghost(closed0),
            );
        }
        proof {
            lemma_find_path(grid, start, end);
        }
        None
    }

    /// Considers the neighbours of `current`, the node that was closed last,
    /// for the open list.
    fn expand(
        &self,
        open_nodes: &mut Vec<Node>,
        closed_nodes: &Vec<Node>,
        current: &Node,
        target: TileCoord,
        Ghost(s): Ghost<(int, int)>,
        Ghost(open0): Ghost<Seq<SearchNode>>,
        Ghost(closed0): Ghost<Seq<SearchNode>>,
    )
        requires
            current.pos != target,
            closing(
                self.map@,
                s,
                target@,
                open0,
                closed0,
                node_views(old(open_nodes)@),
                node_views(closed_nodes@),
                current@,
            ),
        ensures
            searching(self.map@, s, target@, node_views(final(open_nodes)@), node_views(closed_nodes@)),
            search_from(self.map@, target@, node_views(final(open_nodes)@), node_views(closed_nodes@))
                == search_from(self.map@, target@, open0, closed0),
    {
        proof {
            reveal(closing);
            reveal(searching);
        }
        let neighbours: Vec<Node> = self.evaluate_traversable_node_neighbours(
            current,
            closed_nodes.len() - 1,
            target,
        );
        proof {
            lemma_candidates(self.map@, current@, closed0.len() as int, target@, 8);
        }
        consider_all(
            open_nodes,
            closed_nodes,
            &neighbours,
            Ghost(self.map@),
            Ghost(s),
            Ghost(target@),
        );
        proof {
            lemma_expand(self.map@, s, target@, open0, closed0, best_index(open0));
        }
    }
}

/// The invariant of a search, as one fact.
#[verifier::opaque]
spec fn searching(
    grid: GridView,
    s: (int, int),
    g: (int, int),
    open: Seq<SearchNode>,
    closed: Seq<SearchNode>,
) -> bool {
    search_inv(grid, s, g, open, closed)
}

/// What holds when `current`, the best node of `open0`, has been moved to
/// the closed list and its neighbours have not been considered yet.
#[verifier::opaque]
spec fn closing(
    grid: GridView,
    s: (int, int),
    g: (int, int),
    open0: Seq<SearchNode>,
    closed0: Seq<SearchNode>,
    rest: Seq<SearchNode>,
    next: Seq<SearchNode>,
    current: SearchNode,
) -> bool {
    &&& search_inv(grid, s, g, open0, closed0)
    &&& 0 <= best_index(open0) < open0.len()
    &&& closed0.len() < grid.tile_count()
    &&& current == open0[best_index(open0)]
    &&& rest == open0.remove(best_index(open0))
    &&& next == closed0.push(current)
    &&& lists_inv(grid, s, g, rest, next)
    &&& 0 <= current.g <= u64::MAX - 6
    &&& grid.in_bounds(current.tile)
}

/// Moves the node to expand next from the open list to the end of the closed
/// list, and returns it.
fn close_best(
    open_nodes: &mut Vec<Node>,
    closed_nodes: &mut Vec<Node>,
    Ghost(grid): Ghost<GridView>,
    Ghost(s): Ghost<(int, int)>,
    Ghost(g): Ghost<(int, int)>,
) -> (current: Node)
    requires
        old(open_nodes).len() > 0,
        searching(grid, s, g, node_views(old(open_nodes)@), node_views(old(closed_nodes)@)),
    ensures
        final(closed_nodes).len() == old(closed_nodes).len() + 1,
        old(closed_nodes).len() < grid.tile_count(),
        arena_ordered(node_views(final(closed_nodes)@)),
        forall|i: int|
            0 <= i < final(closed_nodes).len() ==> grid.in_bounds(
                (#[trigger] final(closed_nodes)[i]).pos@,
            ),
        current.pos@ == g ==> search_from(
            grid,
            g,
            node_views(old(open_nodes)@),
            node_views(old(closed_nodes)@),
        ) == Some(retrace(node_views(final(closed_nodes)@), final(closed_nodes).len() - 1)),
        closing(
            grid,
            s,
            g,
            node_views(old(open_nodes)@),
            node_views(old(closed_nodes)@),
            node_views(final(open_nodes)@),
            node_views(final(closed_nodes)@),
            current@,
        ),
{
    let ghost open0 = node_views(open_nodes@);
    let ghost closed0 = node_views(closed_nodes@);
    proof {
        reveal(searching);
        reveal(closing);
        lemma_room_left(grid, s, g, open0, closed0);
        lemma_tile_count_bound(grid.width, grid.height);
    }
    let best: usize = lowest_cost_index(open_nodes);
    let current: Node = open_nodes.remove(best);
    closed_nodes.push(current);
    proof {
        let rest = node_views(open_nodes@);
        let next = node_views(closed_nodes@);
        assert(open0[best as int] == current@);
        assert(rest =~= open0.remove(best as int));
        assert(next =~= closed0.push(current@));
        lemma_close_node(grid, s, g, open0, closed0, best as int);
        lemma_nodes_in_bounds(grid, s, g, rest, next);
        lemma_arena_ordered(grid, s, g, rest, next);
        assert forall|i: int| 0 <= i < closed_nodes.len() implies grid.in_bounds(
            (#[trigger] closed_nodes[i]).pos@,
        ) by {
            assert(next[i].tile == closed_nodes[i].pos@);
        }
    }
    current
}

/// Considers each of `neighbours` in turn for the open list.
fn consider_all(
    open_nodes: &mut Vec<Node>,
    closed_nodes: &Vec<Node>,
    neighbours: &Vec<Node>,
    Ghost(grid): Ghost<GridView>,
    Ghost(s): Ghost<(int, int)>,
    Ghost(g): Ghost<(int, int)>,
)
    requires
        closed_nodes.len() > 0,
        lists_inv(grid, s, g, node_views(old(open_nodes)@), node_views(closed_nodes@)),
        forall|j: int|
            0 <= j < neighbours.len() ==> is_candidate(
                grid,
                node_views(closed_nodes@).last(),
                closed_nodes.len() - 1,
                g,
                #[trigger] node_views(neighbours@)[j],
            ),
    ensures
        node_views(final(open_nodes)@) == relax_all(
            node_views(old(open_nodes)@),
            node_views(closed_nodes@),
            node_views(neighbours@),
            neighbours.len() as int,
        ),
{
    let ghost rest = node_views(open_nodes@);
    let ghost next = node_views(closed_nodes@);
    let ghost cands = node_views(neighbours@);
    let mut m: usize = 0;
    while m < neighbours.len()
        invariant
            m <= neighbours.len(),
            cands == node_views(neighbours@),
            next == node_views(closed_nodes@),
            next.len() > 0,
            forall|j: int|
                0 <= j < cands.len() ==> is_candidate(
                    grid,
                    next.last(),
                    next.len() - 1,
                    g,
                    #[trigger] cands[j],
                ),
            lists_inv(grid, s, g, rest, next),
            node_views(open_nodes@) == relax_all(rest, next, cands, m as int),
        decreases neighbours.len() - m,
    {
        let n: Node = neighbours[m];
        proof {
            lemma_relax_all(grid, s, g, rest, next, cands, m as int);
            assert(cands[m as int] == n@);
        }
        consider(open_nodes, closed_nodes, n);
        m += 1;
    }
}

/// Considers `n` for the open list: a tile that is closed is left alone, a
/// new tile joins the end of the list, and a tile that is open already takes
/// the place of its node where that lowers its cost.
fn consider(open_nodes: &mut Vec<Node>, closed_nodes: &Vec<Node>, n: Node)
    requires
        distinct_tiles(node_views(old(open_nodes)@)),
    ensures
        node_views(final(open_nodes)@) == relax(
            node_views(old(open_nodes)@),
            node_views(closed_nodes@),
            n@,
        ),
{
    let ghost before = node_views(open_nodes@);
    if !vec_contains_node(closed_nodes, &n) {
        match find_node(open_nodes, n.pos) {
            None => {
                open_nodes.push(n);
                assert(node_views(open_nodes@) =~= before.push(n@));
            },
            Some(place) => {
                proof {
                    let chosen = position_of(before, n@.tile);
                    assert(before[place as int].tile == n@.tile);
                    if chosen < place {
                        assert(before[chosen].tile != before[place as int].tile);
                    } else if place < chosen {
                        assert(before[place as int].tile != before[chosen].tile);
                    }
                }
                if n.g_cost < open_nodes[place].g_cost {
                    open_nodes[place] = n;
                    assert(node_views(open_nodes@) =~= before.update(place as int, n@));
                }
            },
        }
    }
}

/// Two searches over one grid from the same start to the same goal hand
/// back the same way, or both none.
pub proof fn lemma_a_star_repeatable(
    finder: Pathfinder,
    start: Pos,
    end: Pos,
    first: Option<VecDeque<Pos>>,
    second: Option<VecDeque<Pos>>,
)
    requires
        path_view(first) == find_path(finder.grid(), start, end),
        path_view(second) == find_path(finder.grid(), start, end),
    ensures
        path_view(first) == path_view(second),
{
}

/// No search finds a way to a tile that cannot be walked, wherever it starts.
pub proof fn lemma_no_way_to_blocked_goal(grid: GridView, start: Pos, goal: Pos)
    requires
        !grid.passable(tile_of(goal)),
    ensures
        find_path(grid, start, goal) is None,
{
}

} // verus!
