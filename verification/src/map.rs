//! The tile grid: which tiles can be walked, and how positions map to tiles.

use vstd::prelude::*;
use crate::geometry::{
    origin_of, tile_containing, tile_of, tile_origin, Pos, TileCoord, TILE_EXTENT, UNIT,
};

verus! {

/// The random number generator of the thread, an outside type.
#[verifier::external_type_specification]
#[verifier::external_body]
pub struct ExThreadRng(rand::rngs::ThreadRng);

/// `rand::thread_rng`: hands out the generator of the running thread.
/// Nothing is claimed of it. The outside function panics where the system
/// cannot seed the generator, which no argument decides.
#[verifier::external_body]
fn thread_generator() -> (rng: rand::rngs::ThreadRng) {
    rand::thread_rng()
}

/// `rand::Rng::gen_range` on the range from 0 up to `bound`, `bound` left
/// out: the number drawn lies in that range. An empty range makes the outside
/// function panic, so `bound` is positive.
#[verifier::external_body]
fn draw_below(rng: &mut rand::rngs::ThreadRng, bound: usize) -> (n: usize)
    requires
        bound > 0,
    ensures
        n < bound,
{
    rand::Rng::gen_range(rng, 0..bound)
}

pub const MAP_WIDTH: usize = 200;

pub const MAP_HEIGHT: usize = 100;

/// Number of steps of the walk that digs a lake.
pub const LAKE_GEN_ITERATIONS: usize = 25000;

pub const LAKE_COUNT: usize = 5;

/// A tree may stand where the noise, in thousandths, is below this.
pub const TREE_SPAWN_NOISE_TRESHOLD: u32 = 300;

/// Edge length of a chunk, in tiles.
pub const MAP_CHUNK_SIZE: usize = 20;

/// No grid is wider or higher than this many tiles.
pub const MAX_DIMENSION: usize = 32768;

#[derive(Clone, Copy, Debug, PartialEq, Eq, Structural)]
pub enum TileType {
    LAND,
    WATER,
}

#[derive(Clone, Copy, Debug, PartialEq, Eq, Structural)]
pub struct Tile {
    pub tile_type: TileType,
}

impl Tile {
    /// Land can be walked, water cannot.
    pub fn is_traversable(&self) -> (b: bool)
        ensures
            b == (self.tile_type == TileType::LAND),
    {
        match self.tile_type {
            TileType::LAND => true,
            TileType::WATER => false,
        }
    }
}

/// A grid as a value: its extent and, row by row, the kind of each tile.
pub struct GridView {
    pub width: int,
    pub height: int,
    pub tiles: Seq<TileType>,
}

impl GridView {
    pub open spec fn tile_count(self) -> int {
        self.width * self.height
    }

    pub open spec fn in_bounds(self, t: (int, int)) -> bool {
        0 <= t.0 < self.width && 0 <= t.1 < self.height
    }

    /// Row-major index of tile `t`.
    pub open spec fn index_of(self, t: (int, int)) -> int {
        t.1 * self.width + t.0
    }

    /// The tile lies on the grid and can be walked.
    pub open spec fn passable(self, t: (int, int)) -> bool {
        self.in_bounds(t) && self.tiles[self.index_of(t)] == TileType::LAND
    }

    pub open spec fn wf(self) -> bool {
        &&& 0 <= self.width <= MAX_DIMENSION
        &&& 0 <= self.height <= MAX_DIMENSION
        &&& self.tiles.len() == self.width * self.height
    }
}

/// A rectangle of tiles: from `min`, which is in it, to `max`, which is not.
#[derive(Clone, Copy, Debug, PartialEq, Eq, Structural)]
pub struct Chunk {
    pub min: TileCoord,
    pub max: TileCoord,
}

/// Into how many chunks a side of `len` tiles is cut. A side without tiles
/// still makes one chunk, which is empty.
pub open spec fn chunks_along(len: int) -> int {
    if len <= 0 {
        1
    } else {
        (len + MAP_CHUNK_SIZE - 1) / (MAP_CHUNK_SIZE as int)
    }
}

/// Where chunk `i` along a side of `len` tiles ends.
pub open spec fn chunk_end(len: int, i: int) -> int {
    if (i + 1) * MAP_CHUNK_SIZE < len {
        (i + 1) * MAP_CHUNK_SIZE
    } else {
        len
    }
}

/// Chunk `i` of row `j` of the chunks of a grid.
pub open spec fn chunk_at(width: int, height: int, i: int, j: int) -> Chunk {
    Chunk {
        min: TileCoord { col: (i * MAP_CHUNK_SIZE) as i32, row: (j * MAP_CHUNK_SIZE) as i32 },
        max: TileCoord { col: chunk_end(width, i) as i32, row: chunk_end(height, j) as i32 },
    }
}

/// The first `n` chunks of row `j`.
pub open spec fn chunk_row(width: int, height: int, j: int, n: int) -> Seq<Chunk> {
    Seq::new(n as nat, |i: int| chunk_at(width, height, i, j))
}

/// The chunks of the first `m` rows, row by row.
pub open spec fn chunk_rows(width: int, height: int, m: int) -> Seq<Chunk>
    decreases m,
{
    if m <= 0 {
        Seq::empty()
    } else {
        chunk_rows(width, height, m - 1) + chunk_row(width, height, m - 1, chunks_along(width))
    }
}

/// How many of `tiles` are of kind `kind`.
pub open spec fn count_of(tiles: Seq<TileType>, kind: TileType) -> nat
    decreases tiles.len(),
{
    if tiles.len() == 0 {
        0
    } else {
        count_of(tiles.drop_last(), kind) + if tiles.last() == kind { 1nat } else { 0nat }
    }
}

/// One step of the walk that digs a lake, by the number drawn for it: east,
/// north, west, south, one world unit each.
pub open spec fn walk_offset(choice: int) -> (int, int) {
    if choice == 0 {
        (UNIT as int, 0)
    } else if choice == 1 {
        (0, UNIT as int)
    } else if choice == 2 {
        (-UNIT, 0)
    } else if choice == 3 {
        (0, -UNIT)
    } else {
        (0, 0)
    }
}

/// Where the walk stands after a step from `at`: one world unit further, or
/// at `at` still where the step would leave the grid.
pub open spec fn walk_step(grid: GridView, at: Pos, choice: int) -> Pos {
    let x = at.x + walk_offset(choice).0;
    let y = at.y + walk_offset(choice).1;
    if 0 <= x < grid.width * TILE_EXTENT && 0 <= y < grid.height * TILE_EXTENT {
        Pos { x: x as i32, y: y as i32 }
    } else {
        at
    }
}

/// Where the walk from `start` stands after the steps `choices`.
pub open spec fn walk_end(grid: GridView, start: Pos, choices: Seq<int>) -> Pos
    decreases choices.len(),
{
    if choices.len() == 0 {
        start
    } else {
        walk_step(grid, walk_end(grid, start, choices.drop_last()), choices.last())
    }
}

/// The tiles of `grid` with water on every tile on which the walk from
/// `start` stands at its beginning or after one of the steps `choices`.
pub open spec fn flooded(grid: GridView, start: Pos, choices: Seq<int>) -> Seq<TileType>
    decreases choices.len(),
{
    if choices.len() == 0 {
        grid.tiles.update(grid.index_of(tile_of(start)), TileType::WATER)
    } else {
        flooded(grid, start, choices.drop_last()).update(
            grid.index_of(tile_of(walk_end(grid, start, choices))),
            TileType::WATER,
        )
    }
}

/// Numbers drawn, as steps.
pub open spec fn steps_of(choices: Seq<usize>) -> Seq<int> {
    choices.map_values(|c: usize| c as int)
}

/// The canonical position of the tile of `grid` with row-major index `idx`.
pub open spec fn position_at(grid: GridView, idx: int) -> Pos {
    tile_origin((idx % grid.width, idx / grid.width))
}

/// `tiles` is what a lake leaves of `grid`: a walk of `LAKE_GEN_ITERATIONS`
/// steps from the tile with index `start` has put water on every tile it has
/// stood on.
pub open spec fn is_lake(grid: GridView, start: int, choices: Seq<int>, tiles: Seq<TileType>) -> bool {
    &&& 0 <= start < grid.tile_count()
    &&& choices.len() == LAKE_GEN_ITERATIONS
    &&& forall|i: int| 0 <= i < choices.len() ==> 0 <= #[trigger] choices[i] < 4
    &&& tiles == flooded(grid, position_at(grid, start), choices)
}

/// Whether a tree grows on the tile in column `x` of row `y`: on land, where
/// the noise is below the threshold.
pub open spec fn grows_tree(grid: GridView, noise: Seq<Vec<u32>>, x: int, y: int) -> bool {
    &&& 0 <= y < noise.len()
    &&& 0 <= x < noise[y]@.len()
    &&& noise[y]@[x] < TREE_SPAWN_NOISE_TRESHOLD
    &&& grid.passable((x, y))
}

/// The tiles among the first `n` of row `y` on which a tree grows, in order.
pub open spec fn planted_in_row(grid: GridView, noise: Seq<Vec<u32>>, y: int, n: int) -> Seq<
    TileCoord,
>
    decreases n,
{
    if n <= 0 {
        Seq::empty()
    } else {
        let before = planted_in_row(grid, noise, y, n - 1);
        if grows_tree(grid, noise, n - 1, y) {
            before.push(TileCoord { col: (n - 1) as i32, row: y as i32 })
        } else {
            before
        }
    }
}

/// The tiles of the first `rows` rows on which a tree grows, row by row.
pub open spec fn planted(grid: GridView, noise: Seq<Vec<u32>>, rows: int) -> Seq<TileCoord>
    decreases rows,
{
    if rows <= 0 {
        Seq::empty()
    } else {
        planted(grid, noise, rows - 1) + planted_in_row(
            grid,
            noise,
            rows - 1,
            noise[rows - 1]@.len() as int,
        )
    }
}

/// The index of a tile on the grid is an index into its rows.
pub proof fn lemma_index_in_range(width: int, height: int, col: int, row: int)
    requires
        0 <= col < width,
        0 <= row < height,
    ensures
        0 <= row * width + col < width * height,
{
    assert(0 <= row * width && row * width + width <= height * width) by (nonlinear_arith)
        requires
            0 <= row < height,
            0 <= width,
    ;
    assert(height * width == width * height) by (nonlinear_arith);
}

/// The tiles of a grid, row by row.
#[derive(Debug)]
struct TileRows {
    width: usize,
    height: usize,
    tiles: Vec<Tile>,
}

impl TileRows {
    #[verifier::type_invariant]
    closed spec fn inv(self) -> bool {
        &&& self.width <= MAX_DIMENSION
        &&& self.height <= MAX_DIMENSION
        &&& self.tiles@.len() == self.width * self.height
    }
}

/// A fixed-size grid of tiles, and the trees that stand on it.
#[derive(Debug)]
pub struct GridMap {
    rows: TileRows,
    tree_positions: Vec<TileCoord>,
}

impl View for GridMap {
    type V = GridView;

    closed spec fn view(&self) -> GridView {
        GridView {
            width: self.rows.width as int,
            height: self.rows.height as int,
            tiles: Seq::new(self.rows.tiles@.len(), |i: int| self.rows.tiles@[i].tile_type),
        }
    }
}

impl Clone for GridMap {
    /// A grid with the same tiles and the same trees.
    fn clone(&self) -> (copy: GridMap)
        ensures
            copy@ == self@,
            copy.trees() == self.trees(),
    {
        proof {
            use_type_invariant(&self.rows);
        }
        let mut tiles: Vec<Tile> = Vec::new();
        let mut i: usize = 0;
        while i < self.rows.tiles.len()
            invariant
                i <= self.rows.tiles.len(),
                tiles@ == self.rows.tiles@.take(i as int),
            decreases self.rows.tiles.len() - i,
        {
            tiles.push(self.rows.tiles[i]);
            assert(tiles@ =~= self.rows.tiles@.take(i + 1));
            i += 1;
        }
        assert(tiles@ =~= self.rows.tiles@);
        let mut tree_positions: Vec<TileCoord> = Vec::new();
        let mut j: usize = 0;
        while j < self.tree_positions.len()
            invariant
                j <= self.tree_positions.len(),
                tree_positions@ == self.tree_positions@.take(j as int),
            decreases self.tree_positions.len() - j,
        {
            tree_positions.push(self.tree_positions[j]);
            assert(tree_positions@ =~= self.tree_positions@.take(j + 1));
            j += 1;
        }
        assert(tree_positions@ =~= self.tree_positions@);
        GridMap {
            rows: TileRows { width: self.rows.width, height: self.rows.height, tiles },
            tree_positions,
        }
    }
}

impl GridMap {
    /// The tiles on which a tree stands, in the order in which they were planted.
    pub closed spec fn trees(&self) -> Seq<TileCoord> {
        self.tree_positions@
    }

    /// A grid of `width` by `height` tiles of land without trees, or `None`
    /// where a side is longer than `MAX_DIMENSION`.
    pub fn with_size(width: usize, height: usize) -> (r: Option<GridMap>)
        ensures
            r is Some <==> width <= MAX_DIMENSION && height <= MAX_DIMENSION,
            r matches Some(m) ==> {
                &&& m@.width == width
                &&& m@.height == height
                &&& m@.wf()
                &&& m@.tiles == Seq::new((width * height) as nat, |i: int| TileType::LAND)
                &&& m.trees().len() == 0
            },
    {
        if width > MAX_DIMENSION || height > MAX_DIMENSION {
            return None;
        }
        assert(width * height <= 32768 * 32768) by (nonlinear_arith)
            requires
                width <= 32768,
                height <= 32768,
        ;
        let count: usize = width * height;
        let mut tiles: Vec<Tile> = Vec::new();
        let mut i: usize = 0;
        while i < count
            invariant
                i <= count,
                tiles@.len() == i,
                forall|j: int| 0 <= j < i ==> tiles@[j].tile_type == TileType::LAND,
            decreases count - i,
        {
            tiles.push(Tile { tile_type: TileType::LAND });
            i += 1;
        }
        let m = GridMap { rows: TileRows { width, height, tiles }, tree_positions: Vec::new() };
        assert(m@.tiles =~= Seq::new((width * height) as nat, |i: int| TileType::LAND));
        Some(m)
    }

    /// The default grid: `MAP_WIDTH` by `MAP_HEIGHT` tiles of land.
    pub fn new() -> (m: GridMap)
        ensures
            m@.width == MAP_WIDTH,
            m@.height == MAP_HEIGHT,
            m@.wf(),
            m@.tiles == Seq::new((MAP_WIDTH * MAP_HEIGHT) as nat, |i: int| TileType::LAND),
            m.trees().len() == 0,
    {
        GridMap::with_size(MAP_WIDTH, MAP_HEIGHT).unwrap()
    }

    pub fn width(&self) -> (w: usize)
        ensures
            w == self@.width,
            self@.wf(),
    {
        proof {
            use_type_invariant(&self.rows);
        }
        self.rows.width
    }

    pub fn height(&self) -> (h: usize)
        ensures
            h == self@.height,
            self@.wf(),
    {
        proof {
            use_type_invariant(&self.rows);
        }
        self.rows.height
    }

    /// Number of tiles.
    pub fn size(&self) -> (n: usize)
        ensures
            n == self@.tile_count(),
            n == self@.tiles.len(),
            self@.wf(),
    {
        proof {
            use_type_invariant(&self.rows);
        }
        self.rows.tiles.len()
    }

    /// Whether tile `t` lies on the grid.
    pub fn tile_in_bounds(&self, t: TileCoord) -> (b: bool)
        ensures
            b == self@.in_bounds(t@),
            self@.wf(),
    {
        proof {
            use_type_invariant(&self.rows);
        }
        t.col >= 0 && t.row >= 0 && (t.col as usize) < self.rows.width && (t.row as usize) < self.rows.height
    }

    /// Row-major index of tile `t`.
    pub fn index_of_tile(&self, t: TileCoord) -> (idx: usize)
        requires
            self@.in_bounds(t@),
        ensures
            idx == self@.index_of(t@),
            idx < self@.tile_count(),
    {
        let col: usize = t.col as usize;
        let row: usize = t.row as usize;
        proof {
            use_type_invariant(&self.rows);
            lemma_index_in_range(self.rows.width as int, self.rows.height as int, col as int, row as int);
            lemma_tile_count_bound(self.rows.width as int, self.rows.height as int);
        }
        row * self.rows.width + col
    }

    /// Whether tile `t` lies on the grid and can be walked.
    pub fn tile_passable(&self, t: TileCoord) -> (b: bool)
        ensures
            b == self@.passable(t@),
            self@.wf(),
    {
        if !self.tile_in_bounds(t) {
            return false;
        }
        let idx: usize = self.index_of_tile(t);
        proof {
            use_type_invariant(&self.rows);
        }
        self.rows.tiles[idx].is_traversable()
    }

    /// Whether `point` lies on the grid.
    pub fn in_bounds(&self, point: Pos) -> (b: bool)
        ensures
            b == self@.in_bounds(tile_of(point)),
            self@.wf(),
    {
        self.tile_in_bounds(tile_containing(point))
    }

    /// Whether `point` lies on a tile of the grid that can be walked.
    pub fn is_traversable(&self, point: Pos) -> (b: bool)
        ensures
            b == self@.passable(tile_of(point)),
            self@.wf(),
    {
        self.tile_passable(tile_containing(point))
    }

    /// Row-major index of the tile that holds `point`.
    pub fn position_to_index(&self, point: Pos) -> (idx: usize)
        requires
            self@.in_bounds(tile_of(point)),
        ensures
            idx == self@.index_of(tile_of(point)),
            idx < self@.tile_count(),
    {
        self.index_of_tile(tile_containing(point))
    }

    /// The canonical position of the tile with row-major index `idx`.
    pub fn index_to_position(&self, idx: usize) -> (p: Pos)
        requires
            idx < self@.tile_count(),
        ensures
            self@.in_bounds(tile_of(p)),
            self@.index_of(tile_of(p)) == idx,
            p == tile_origin(tile_of(p)),
    {
        proof {
            use_type_invariant(&self.rows);
            lemma_index_split(self.rows.width as int, self.rows.height as int, idx as int);
        }
        let col: usize = idx % self.rows.width;
        let row: usize = idx / self.rows.width;
        origin_of(TileCoord { col: col as i32, row: row as i32 })
    }

    /// The kind of the tile with row-major index `idx`.
    pub fn tile_type_at(&self, idx: usize) -> (t: TileType)
        requires
            idx < self@.tile_count(),
        ensures
            t == self@.tiles[idx as int],
    {
        proof {
            use_type_invariant(&self.rows);
        }
        self.rows.tiles[idx].tile_type
    }

    /// Makes the tile with row-major index `idx` a tile of kind `tile_type`.
    pub fn set_tile_type(&mut self, idx: usize, tile_type: TileType)
        requires
            idx < old(self)@.tile_count(),
        ensures
            final(self)@.width == old(self)@.width,
            final(self)@.height == old(self)@.height,
            final(self)@.tiles == old(self)@.tiles.update(idx as int, tile_type),
            final(self).trees() == old(self).trees(),
    {
        proof {
            use_type_invariant(&self.rows);
        }
        self.rows.tiles[idx] = Tile { tile_type };
        assert(self@.tiles =~= old(self)@.tiles.update(idx as int, tile_type));
    }

    /// Makes every tile a tile of kind `tile_type`.
    pub fn fill(&mut self, tile_type: TileType)
        ensures
            final(self)@.width == old(self)@.width,
            final(self)@.height == old(self)@.height,
            final(self)@.tiles == Seq::new(old(self)@.tiles.len(), |i: int| tile_type),
            final(self).trees() == old(self).trees(),
    {
        proof {
            use_type_invariant(&self.rows);
        }
        let count: usize = self.rows.tiles.len();
        let mut i: usize = 0;
        while i < count
            invariant
                i <= count,
                count == self.rows.tiles@.len(),
                self.rows.width == old(self).rows.width,
                self.rows.height == old(self).rows.height,
                self.tree_positions == old(self).tree_positions,
                self.rows.tiles@.len() == self.rows.width * self.rows.height,
                self.rows.width <= MAX_DIMENSION,
                self.rows.height <= MAX_DIMENSION,
                forall|j: int| 0 <= j < i ==> (#[trigger] self.rows.tiles@[j]).tile_type == tile_type,
            decreases count - i,
        {
            self.rows.tiles[i] = Tile { tile_type };
            i += 1;
        }
        assert(self@.tiles =~= Seq::new(old(self)@.tiles.len(), |i: int| tile_type));
    }

    /// How many tiles are of kind `tile_type`.
    pub fn tile_count_by_type(&self, tile_type: TileType) -> (count: usize)
        ensures
            count == count_of(self@.tiles, tile_type),
    {
        let mut count: usize = 0;
        let mut i: usize = 0;
        while i < self.rows.tiles.len()
            invariant
                i <= self.rows.tiles.len(),
                count <= i,
                count == count_of(self@.tiles.take(i as int), tile_type),
            decreases self.rows.tiles.len() - i,
        {
            assert(self@.tiles.take(i + 1).drop_last() =~= self@.tiles.take(i as int));
            if self.rows.tiles[i].tile_type == tile_type {
                count += 1;
            }
            i += 1;
        }
        assert(self@.tiles.take(i as int) =~= self@.tiles);
        count
    }

    /// One step of the walk that digs a lake: from `at` one world unit in the
    /// direction that `choice` names, unless that leaves the grid.
    pub fn walk(&self, at: Pos, choice: usize) -> (to: Pos)
        ensures
            to == walk_step(self@, at, choice as int),
            self@.in_bounds(tile_of(at)) ==> self@.in_bounds(tile_of(to)),
    {
        proof {
            use_type_invariant(&self.rows);
        }
        let unit: i64 = UNIT as i64;
        let (dx, dy): (i64, i64) = if choice == 0 {
            (unit, 0)
        } else if choice == 1 {
            (0, unit)
        } else if choice == 2 {
            (-unit, 0)
        } else if choice == 3 {
            (0, -unit)
        } else {
            (0, 0)
        };
        let x: i64 = at.x as i64 + dx;
        let y: i64 = at.y as i64 + dy;
        let extent: i64 = TILE_EXTENT as i64;
        if 0 <= x && x < self.rows.width as i64 * extent && 0 <= y && y < self.rows.height as i64 * extent {
            Pos { x: x as i32, y: y as i32 }
        } else {
            at
        }
    }

    /// Digs the lake of the walk that begins on the tile with row-major index
    /// `river_start` and takes the steps `choices`: water on every tile on
    /// which the walk stands.
    pub fn dig_lake(&mut self, river_start: usize, choices: &Vec<usize>)
        requires
            river_start < old(self)@.tile_count(),
        ensures
            final(self)@.width == old(self)@.width,
            final(self)@.height == old(self)@.height,
            final(self).trees() == old(self).trees(),
            final(self)@.tiles == flooded(
                old(self)@,
                position_at(old(self)@, river_start as int),
                steps_of(choices@),
            ),
    {
        let mut current_tile: Pos = self.index_to_position(river_start);
        let ghost grid = self@;
        let ghost start = current_tile;
        let ghost steps = steps_of(choices@);
        proof {
            let at = river_start as int;
            use_type_invariant(&self.rows);
            lemma_index_split(grid.width, grid.height, at);
            assert(tile_of(start) == (at % grid.width, at / grid.width)) by {
                let t = tile_of(start);
                assert(start == tile_origin(t));
                assert(grid.index_of(t) == at);
                lemma_index_injective(grid, t, (at % grid.width, at / grid.width));
            }
            assert(steps.take(0) =~= Seq::<int>::empty());
        }
        self.set_tile_type(river_start, TileType::WATER);
        let mut j: usize = 0;
        while j < choices.len()
            invariant
                j <= choices.len(),
                steps == steps_of(choices@),
                self@.width == grid.width,
                self@.height == grid.height,
                self.trees() == old(self).trees(),
                grid.wf(),
                grid.in_bounds(tile_of(current_tile)),
                current_tile == walk_end(grid, start, steps.take(j as int)),
                self@.tiles == flooded(grid, start, steps.take(j as int)),
            decreases choices.len() - j,
        {
            let choice: usize = choices[j];
            let next_tile: Pos = self.walk(current_tile, choice);
            let idx: usize = self.position_to_index(next_tile);
            proof {
                assert(steps.take(j + 1).drop_last() =~= steps.take(j as int));
                assert(steps.take(j + 1).last() == choice as int);
                assert(walk_step(self@, current_tile, choice as int) == walk_step(
                    grid,
                    current_tile,
                    choice as int,
                ));
            }
            self.set_tile_type(idx, TileType::WATER);
            current_tile = next_tile;
            j += 1;
        }
        proof {
            assert(steps.take(j as int) =~= steps);
            assert(start == position_at(grid, river_start as int));
        }
    }

    /// Digs a lake: a walk of `LAKE_GEN_ITERATIONS` random steps from a random
    /// tile puts water on every tile it stands on. A grid without tiles is left
    /// as it is.
    pub fn generate_lake(&mut self)
        ensures
            final(self)@.width == old(self)@.width,
            final(self)@.height == old(self)@.height,
            final(self).trees() == old(self).trees(),
            old(self)@.tile_count() == 0 ==> final(self)@.tiles == old(self)@.tiles,
            old(self)@.tile_count() > 0 ==> exists|start: int, choices: Seq<int>|
                is_lake(old(self)@, start, choices, final(self)@.tiles),
    {
        let size: usize = self.size();
        if size == 0 {
            return ;
        }
        let mut rng = thread_generator();
        let river_start: usize = draw_below(&mut rng, size);
        let mut choices: Vec<usize> = Vec::new();
        let mut j: usize = 0;
        while j < LAKE_GEN_ITERATIONS
            invariant
                j <= LAKE_GEN_ITERATIONS,
                choices@.len() == j,
                forall|i: int| 0 <= i < choices@.len() ==> #[trigger] choices@[i] < 4,
            decreases LAKE_GEN_ITERATIONS - j,
        {
            let choice: usize = draw_below(&mut rng, 4);
            choices.push(choice);
            j += 1;
        }
        self.dig_lake(river_start, &choices);
        proof {
            assert(is_lake(old(self)@, river_start as int, steps_of(choices@), self@.tiles));
        }
    }

    /// Plants a tree on every tile of land where the noise is below the
    /// threshold. `noise_map` holds the noise in thousandths, row by row; what
    /// of it lies beside the grid plants nothing.
    pub fn spawn_trees(&mut self, noise_map: &Vec<Vec<u32>>)
        ensures
            final(self)@ == old(self)@,
            final(self).trees() == old(self).trees() + planted(
                old(self)@,
                noise_map@,
                noise_map@.len() as int,
            ),
    {
        let ghost grid = self@;
        let mut y: usize = 0;
        while y < noise_map.len()
            invariant
                y <= noise_map.len(),
                self@ == grid,
                self.trees() == old(self).trees() + planted(grid, noise_map@, y as int),
            decreases noise_map.len() - y,
        {
            let row: &Vec<u32> = &noise_map[y];
            let ghost before = self.trees();
            let mut x: usize = 0;
            while x < row.len()
                invariant
                    x <= row.len(),
                    y < noise_map.len(),
                    row == noise_map@[y as int],
                    self@ == grid,
                    self.trees() == before + planted_in_row(grid, noise_map@, y as int, x as int),
                decreases row.len() - x,
            {
                let noise_value: u32 = row[x];
                let on_grid: bool = x < self.rows.width && y < self.rows.height;
                proof {
                    use_type_invariant(&self.rows);
                }
                if noise_value < TREE_SPAWN_NOISE_TRESHOLD && on_grid {
                    let here = TileCoord { col: x as i32, row: y as i32 };
                    if self.tile_passable(here) {
                        self.tree_positions.push(here);
                    }
                }
                assert(self.trees() =~= before + planted_in_row(
                    grid,
                    noise_map@,
                    y as int,
                    x as int + 1,
                ));
                x += 1;
            }
            assert(self.trees() =~= old(self).trees() + planted(grid, noise_map@, y as int + 1));
            y += 1;
        }
    }

    /// Cuts the grid into chunks of `MAP_CHUNK_SIZE` by `MAP_CHUNK_SIZE`
    /// tiles, row by row; the last chunk of a row and the chunks of the last
    /// row are as much smaller as the grid asks.
    pub fn get_chunks(&self) -> (chunks: Vec<Chunk>)
        ensures
            chunks@ == chunk_rows(self@.width, self@.height, chunks_along(self@.height)),
    {
        proof {
            use_type_invariant(&self.rows);
        }
        let width: usize = self.rows.width;
        let height: usize = self.rows.height;
        let mut chunks: Vec<Chunk> = Vec::new();
        let mut x: usize = 0;
        let mut y: usize = 0;
        let ghost mut i: int = 0;
        let ghost mut j: int = 0;
        loop
            invariant_except_break
                0 <= i < chunks_along(width as int),
                0 <= j < chunks_along(height as int),
                x == i * MAP_CHUNK_SIZE,
                y == j * MAP_CHUNK_SIZE,
                chunks@ == chunk_rows(width as int, height as int, j) + chunk_row(
                    width as int,
                    height as int,
                    j,
                    i,
                ),
            invariant
                width == self@.width,
                height == self@.height,
                width <= MAX_DIMENSION,
                height <= MAX_DIMENSION,
            ensures
                chunks@ == chunk_rows(width as int, height as int, chunks_along(height as int)),
            decreases chunks_along(height as int) - j, chunks_along(width as int) - i,
        {
            let across: usize = if width - x < MAP_CHUNK_SIZE { width - x } else { MAP_CHUNK_SIZE };
            let up: usize = if height - y < MAP_CHUNK_SIZE { height - y } else { MAP_CHUNK_SIZE };
            let chunk = Chunk {
                min: TileCoord { col: x as i32, row: y as i32 },
                max: TileCoord { col: (x + across) as i32, row: (y + up) as i32 },
            };
            assert(chunk == chunk_at(width as int, height as int, i, j));
            chunks.push(chunk);
            assert(chunks@ =~= chunk_rows(width as int, height as int, j) + chunk_row(
                width as int,
                height as int,
                j,
                i + 1,
            ));
            x += across;
            proof {
                i = i + 1;
            }
            if x >= width {
                assert(i == chunks_along(width as int));
                x = 0;
                y += up;
                proof {
                    i = 0;
                    j = j + 1;
                    assert(chunk_row(width as int, height as int, j, 0) =~= Seq::empty());
                    assert(chunks@ =~= chunk_rows(width as int, height as int, j) + chunk_row(
                        width as int,
                        height as int,
                        j,
                        0,
                    ));
                }
                if y >= height {
                    assert(j == chunks_along(height as int));
                    break ;
                }
            }
        }
        chunks
    }

    /// The tiles on which a tree stands.
    pub fn tree_positions(&self) -> (trees: &Vec<TileCoord>)
        ensures
            trees@ == self.trees(),
    {
        &self.tree_positions
    }
}

/// The canonical position of the tile with row-major index `idx` of a grid
/// that is `MAP_WIDTH` tiles wide.
pub fn idx_to_vec2(idx: i32) -> (p: Pos)
    requires
        0 <= idx < MAP_WIDTH * MAP_HEIGHT,
    ensures
        p == tile_origin((idx as int % MAP_WIDTH as int, idx as int / MAP_WIDTH as int)),
{
    let width: i32 = MAP_WIDTH as i32;
    Pos { x: (idx % width) * TILE_EXTENT, y: (idx / width) * TILE_EXTENT }
}

/// The row-major index, on a grid that is `MAP_WIDTH` tiles wide, of the tile
/// that holds `point`. A negative coordinate counts as zero.
pub fn vec2_to_idx(point: Pos) -> (idx: usize)
    ensures
        idx == (if point.y < 0 { 0 } else { point.y as int / TILE_EXTENT as int }) * MAP_WIDTH + (if point.x
            < 0 { 0 } else { point.x as int / TILE_EXTENT as int }),
{
    let col: usize = if point.x < 0 { 0 } else { (point.x / TILE_EXTENT) as usize };
    let row: usize = if point.y < 0 { 0 } else { (point.y / TILE_EXTENT) as usize };
    row * MAP_WIDTH + col
}

/// Two tiles of the grid with one row-major index are one tile.
pub proof fn lemma_index_injective(grid: GridView, a: (int, int), b: (int, int))
    requires
        grid.in_bounds(a),
        grid.in_bounds(b),
        grid.index_of(a) == grid.index_of(b),
    ensures
        a == b,
{
    let w = grid.width;
    assert(a.1 == b.1) by (nonlinear_arith)
        requires
            0 <= a.0 < w,
            0 <= b.0 < w,
            a.1 * w + a.0 == b.1 * w + b.0,
    ;
    assert(a.1 * w == b.1 * w);
}

/// A grid within the limits has at most 2^30 tiles.
pub proof fn lemma_tile_count_bound(width: int, height: int)
    requires
        0 <= width <= MAX_DIMENSION,
        0 <= height <= MAX_DIMENSION,
    ensures
        0 <= width * height <= 0x4000_0000,
{
    assert(0 <= width * height <= 0x4000_0000) by (nonlinear_arith)
        requires
            0 <= width <= 32768,
            0 <= height <= 32768,
    ;
}

/// A row-major index below the number of tiles splits into a column and a
/// row on the grid.
pub proof fn lemma_index_split(width: int, height: int, idx: int)
    requires
        0 <= width,
        0 <= height,
        0 <= idx < width * height,
    ensures
        width > 0,
        0 <= idx % width < width,
        0 <= idx / width < height,
        (idx / width) * width + idx % width == idx,
{
    assert(width > 0) by (nonlinear_arith)
        requires
            0 <= width,
            0 <= idx < width * height,
    ;
    vstd::arithmetic::div_mod::lemma_fundamental_div_mod(idx, width);
    vstd::arithmetic::div_mod::lemma_mod_bound(idx, width);
    let q = idx / width;
    assert(width * q == q * width) by (nonlinear_arith);
    assert(0 <= q < height) by (nonlinear_arith)
        requires
            width > 0,
            0 <= idx < width * height,
            idx == q * width + idx % width,
            0 <= idx % width < width,
    ;
}

} // verus!
