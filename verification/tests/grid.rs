use ecosystem_sim::geometry::{Pos, TileCoord};
use ecosystem_sim::map::{
    idx_to_vec2, vec2_to_idx, Chunk, GridMap, Tile, TileType, LAKE_GEN_ITERATIONS, MAP_HEIGHT,
    MAP_WIDTH, MAX_DIMENSION,
};

fn chunk(min: (i32, i32), max: (i32, i32)) -> Chunk {
    Chunk {
        min: TileCoord { col: min.0, row: min.1 },
        max: TileCoord { col: max.0, row: max.1 },
    }
}

#[test]
fn the_default_grid_is_all_land() {
    let grid = GridMap::new();
    assert_eq!(grid.width(), MAP_WIDTH);
    assert_eq!(grid.height(), MAP_HEIGHT);
    assert_eq!(grid.size(), 20000);
    assert_eq!(grid.tile_count_by_type(TileType::LAND), 20000);
    assert_eq!(grid.tile_count_by_type(TileType::WATER), 0);
    assert!(grid.tree_positions().is_empty());
}

#[test]
fn a_grid_has_the_size_asked_for() {
    let grid = GridMap::with_size(7, 3).unwrap();
    assert_eq!((grid.width(), grid.height(), grid.size()), (7, 3, 21));
    let empty = GridMap::with_size(0, 5).unwrap();
    assert_eq!(empty.size(), 0);
    assert!(!empty.in_bounds(Pos { x: 0, y: 0 }));
    assert!(GridMap::with_size(MAX_DIMENSION, 1).is_some());
    assert!(GridMap::with_size(MAX_DIMENSION + 1, 1).is_none());
    assert!(GridMap::with_size(1, MAX_DIMENSION + 1).is_none());
    assert!(GridMap::with_size(usize::MAX, usize::MAX).is_none());
}

#[test]
fn land_can_be_walked_and_water_cannot() {
    assert!(Tile { tile_type: TileType::LAND }.is_traversable());
    assert!(!Tile { tile_type: TileType::WATER }.is_traversable());
}

#[test]
fn fill_changes_every_tile() {
    let mut grid = GridMap::with_size(4, 5).unwrap();
    grid.fill(TileType::WATER);
    assert_eq!(grid.tile_count_by_type(TileType::WATER), 20);
    assert_eq!(grid.tile_count_by_type(TileType::LAND), 0);
    grid.fill(TileType::LAND);
    assert_eq!(grid.tile_count_by_type(TileType::LAND), 20);
    assert_eq!((grid.width(), grid.height()), (4, 5));
}

#[test]
fn one_tile_is_set() {
    let mut grid = GridMap::with_size(4, 5).unwrap();
    grid.set_tile_type(6, TileType::WATER);
    assert_eq!(grid.tile_type_at(6), TileType::WATER);
    assert_eq!(grid.tile_type_at(5), TileType::LAND);
    assert_eq!(grid.tile_count_by_type(TileType::WATER), 1);
    assert!(!grid.is_traversable(Pos { x: 2 * 4000 + 17, y: 4000 + 3999 }));
    assert!(grid.is_traversable(Pos { x: 4000, y: 4000 }));
    assert!(!grid.tile_passable(TileCoord { col: 2, row: 1 }));
    assert!(grid.tile_passable(TileCoord { col: 1, row: 2 }));
}

#[test]
fn bounds_of_the_grid() {
    let grid = GridMap::with_size(10, 5).unwrap();
    assert!(grid.in_bounds(Pos { x: 0, y: 0 }));
    assert!(grid.in_bounds(Pos { x: 39999, y: 19999 }));
    assert!(!grid.in_bounds(Pos { x: 40000, y: 0 }));
    assert!(!grid.in_bounds(Pos { x: 0, y: 20000 }));
    assert!(!grid.in_bounds(Pos { x: -1, y: 0 }));
    assert!(!grid.in_bounds(Pos { x: 0, y: -1 }));
    assert!(!grid.is_traversable(Pos { x: 40000, y: 0 }));
    assert!(grid.tile_in_bounds(TileCoord { col: 9, row: 4 }));
    assert!(!grid.tile_in_bounds(TileCoord { col: 10, row: 4 }));
    assert!(!grid.tile_in_bounds(TileCoord { col: 9, row: 5 }));
    assert!(!grid.tile_in_bounds(TileCoord { col: -1, row: 0 }));
    assert!(!grid.tile_passable(TileCoord { col: 0, row: -1 }));
}

#[test]
fn positions_and_indices() {
    let grid = GridMap::with_size(10, 5).unwrap();
    assert_eq!(grid.position_to_index(Pos { x: 0, y: 0 }), 0);
    assert_eq!(grid.position_to_index(Pos { x: 3 * 4000 + 5, y: 2 * 4000 + 3999 }), 23);
    assert_eq!(grid.position_to_index(Pos { x: 39999, y: 19999 }), 49);
    assert_eq!(grid.index_to_position(23), Pos { x: 12000, y: 8000 });
    assert_eq!(grid.index_to_position(49), Pos { x: 36000, y: 16000 });
    assert_eq!(grid.index_of_tile(TileCoord { col: 9, row: 4 }), 49);
    for idx in 0..50 {
        assert_eq!(grid.position_to_index(grid.index_to_position(idx)), idx);
    }
}

#[test]
fn positions_and_indices_of_the_default_grid() {
    assert_eq!(idx_to_vec2(0), Pos { x: 0, y: 0 });
    assert_eq!(idx_to_vec2(199), Pos { x: 796000, y: 0 });
    assert_eq!(idx_to_vec2(200), Pos { x: 0, y: 4000 });
    assert_eq!(idx_to_vec2(19999), Pos { x: 796000, y: 396000 });
    assert_eq!(vec2_to_idx(Pos { x: 0, y: 0 }), 0);
    assert_eq!(vec2_to_idx(Pos { x: 3999, y: 3999 }), 0);
    assert_eq!(vec2_to_idx(Pos { x: 4000, y: 4000 }), 201);
    assert_eq!(vec2_to_idx(Pos { x: -4000, y: 4000 }), 200);
    assert_eq!(vec2_to_idx(Pos { x: 8000, y: -1 }), 2);
    assert_eq!(vec2_to_idx(Pos { x: 800000, y: 0 }), 200);
    assert_eq!(vec2_to_idx(Pos { x: i32::MAX, y: i32::MAX }), 536870 * 200 + 536870);
    for idx in [0, 1, 199, 200, 12345, 19999] {
        assert_eq!(vec2_to_idx(idx_to_vec2(idx)), idx as usize);
    }
}

#[test]
fn a_step_of_the_walk() {
    let grid = GridMap::with_size(2, 2).unwrap();
    let at = Pos { x: 4000, y: 4000 };
    assert_eq!(grid.walk(at, 0), Pos { x: 5000, y: 4000 });
    assert_eq!(grid.walk(at, 1), Pos { x: 4000, y: 5000 });
    assert_eq!(grid.walk(at, 2), Pos { x: 3000, y: 4000 });
    assert_eq!(grid.walk(at, 3), Pos { x: 4000, y: 3000 });
    assert_eq!(grid.walk(at, 4), at);
    assert_eq!(grid.walk(at, usize::MAX), at);
    // a step that would leave the grid is not taken
    assert_eq!(grid.walk(Pos { x: 7000, y: 0 }, 0), Pos { x: 7000, y: 0 });
    assert_eq!(grid.walk(Pos { x: 6999, y: 0 }, 0), Pos { x: 7999, y: 0 });
    assert_eq!(grid.walk(Pos { x: 999, y: 0 }, 2), Pos { x: 999, y: 0 });
    assert_eq!(grid.walk(Pos { x: 0, y: 0 }, 3), Pos { x: 0, y: 0 });
    assert_eq!(grid.walk(Pos { x: 0, y: 7000 }, 1), Pos { x: 0, y: 7000 });
    assert_eq!(grid.walk(Pos { x: i32::MAX, y: i32::MAX }, 0), Pos { x: i32::MAX, y: i32::MAX });
}

#[test]
fn a_lake_is_water_around_its_spring() {
    let mut grid = GridMap::with_size(10, 10).unwrap();
    grid.generate_lake();
    let water = grid.tile_count_by_type(TileType::WATER);
    // 25000 steps of one unit each on a grid of 40 by 40 units leave the
    // first tile; with the step numbers stuck on one value they would not
    assert!(water > 1);
    assert!(water <= 100);
    assert_eq!(grid.tile_count_by_type(TileType::LAND), 100 - water);
    assert_eq!((grid.width(), grid.height(), grid.size()), (10, 10, 100));
    assert!(grid.tree_positions().is_empty());
}

#[test]
fn a_lake_on_the_default_grid() {
    let mut grid = GridMap::new();
    grid.generate_lake();
    let water = grid.tile_count_by_type(TileType::WATER);
    assert!(water >= 1);
    assert!(water <= LAKE_GEN_ITERATIONS + 1);
    assert_eq!(grid.tile_count_by_type(TileType::LAND) + water, 20000);
}

#[test]
fn lakes_differ() {
    let mut counts = Vec::new();
    for _ in 0..8 {
        let mut grid = GridMap::new();
        grid.generate_lake();
        let cells: Vec<usize> = (0..grid.size()).filter(|i| grid.tile_type_at(*i) == TileType::WATER).collect();
        counts.push(cells);
    }
    assert!(counts.iter().any(|c| *c != counts[0]));
}

#[test]
fn a_lake_on_a_single_tile_and_on_no_tile() {
    let mut one = GridMap::with_size(1, 1).unwrap();
    one.generate_lake();
    assert_eq!(one.tile_count_by_type(TileType::WATER), 1);
    let mut none = GridMap::with_size(0, 0).unwrap();
    none.generate_lake();
    assert_eq!(none.size(), 0);
}

#[test]
fn trees_grow_on_land_under_the_threshold() {
    let mut grid = GridMap::with_size(3, 2).unwrap();
    grid.set_tile_type(1, TileType::WATER);
    let noise = vec![vec![299, 0, 300], vec![1000, 150, 299]];
    grid.spawn_trees(&noise);
    assert_eq!(
        *grid.tree_positions(),
        vec![TileCoord { col: 0, row: 0 }, TileCoord { col: 1, row: 1 }, TileCoord { col: 2, row: 1 }]
    );
    assert_eq!(grid.tile_count_by_type(TileType::WATER), 1);
    // planting again adds to what stands
    grid.spawn_trees(&vec![vec![0]]);
    assert_eq!(grid.tree_positions().len(), 4);
    assert_eq!(grid.tree_positions()[3], TileCoord { col: 0, row: 0 });
}

#[test]
fn noise_beside_the_grid_plants_nothing() {
    let mut grid = GridMap::with_size(2, 1).unwrap();
    let noise = vec![vec![0, 0, 0], vec![0, 0], vec![]];
    grid.spawn_trees(&noise);
    assert_eq!(*grid.tree_positions(), vec![TileCoord { col: 0, row: 0 }, TileCoord { col: 1, row: 0 }]);
    let mut other = GridMap::with_size(2, 2).unwrap();
    other.spawn_trees(&Vec::new());
    assert!(other.tree_positions().is_empty());
}

#[test]
fn a_copy_of_a_grid() {
    let mut grid = GridMap::with_size(3, 3).unwrap();
    grid.set_tile_type(4, TileType::WATER);
    grid.spawn_trees(&vec![vec![0, 999, 0]]);
    let copy = grid.clone();
    grid.fill(TileType::WATER);
    assert_eq!(copy.tile_count_by_type(TileType::WATER), 1);
    assert_eq!(copy.tile_type_at(4), TileType::WATER);
    assert_eq!(*copy.tree_positions(), vec![TileCoord { col: 0, row: 0 }, TileCoord { col: 2, row: 0 }]);
    assert_eq!((copy.width(), copy.height()), (3, 3));
}

#[test]
fn the_default_grid_in_chunks() {
    let chunks = GridMap::new().get_chunks();
    assert_eq!(chunks.len(), 50);
    assert_eq!(chunks[0], chunk((0, 0), (20, 20)));
    assert_eq!(chunks[1], chunk((20, 0), (40, 20)));
    assert_eq!(chunks[9], chunk((180, 0), (200, 20)));
    assert_eq!(chunks[10], chunk((0, 20), (20, 40)));
    assert_eq!(chunks[49], chunk((180, 80), (200, 100)));
}

#[test]
fn chunks_at_the_rim_are_smaller() {
    let chunks = GridMap::with_size(45, 25).unwrap().get_chunks();
    assert_eq!(
        chunks,
        vec![
            chunk((0, 0), (20, 20)),
            chunk((20, 0), (40, 20)),
            chunk((40, 0), (45, 20)),
            chunk((0, 20), (20, 25)),
            chunk((20, 20), (40, 25)),
            chunk((40, 20), (45, 25)),
        ]
    );
    assert_eq!(GridMap::with_size(20, 20).unwrap().get_chunks(), vec![chunk((0, 0), (20, 20))]);
    assert_eq!(GridMap::with_size(1, 21).unwrap().get_chunks(), vec![chunk((0, 0), (1, 20)), chunk((0, 20), (1, 21))]);
}

#[test]
fn a_grid_without_tiles_is_one_empty_chunk() {
    assert_eq!(GridMap::with_size(0, 0).unwrap().get_chunks(), vec![chunk((0, 0), (0, 0))]);
    assert_eq!(
        GridMap::with_size(0, 30).unwrap().get_chunks(),
        vec![chunk((0, 0), (0, 20)), chunk((0, 20), (0, 30))]
    );
    assert_eq!(
        GridMap::with_size(30, 0).unwrap().get_chunks(),
        vec![chunk((0, 0), (20, 0)), chunk((20, 0), (30, 0))]
    );
}

fn water_of(grid: &GridMap) -> Vec<usize> {
    (0..grid.size()).filter(|i| grid.tile_type_at(*i) == TileType::WATER).collect()
}

#[test]
fn a_lake_along_a_given_walk() {
    // from the corner of the middle tile four units east: the fourth step
    // enters the next tile
    let mut grid = GridMap::with_size(3, 3).unwrap();
    grid.dig_lake(4, &vec![0, 0, 0]);
    assert_eq!(water_of(&grid), vec![4]);
    grid.dig_lake(4, &vec![0, 0, 0, 0]);
    assert_eq!(water_of(&grid), vec![4, 5]);
    // one unit west or south leaves the tile at once
    let mut grid = GridMap::with_size(3, 3).unwrap();
    grid.dig_lake(4, &vec![2]);
    assert_eq!(water_of(&grid), vec![3, 4]);
    let mut grid = GridMap::with_size(3, 3).unwrap();
    grid.dig_lake(4, &vec![3, 2]);
    assert_eq!(water_of(&grid), vec![0, 1, 4]);
    // north, four units
    let mut grid = GridMap::with_size(3, 3).unwrap();
    grid.dig_lake(4, &vec![1, 1, 1, 1]);
    assert_eq!(water_of(&grid), vec![4, 7]);
}

#[test]
fn a_walk_stops_at_the_rim() {
    let mut grid = GridMap::with_size(2, 2).unwrap();
    grid.dig_lake(0, &vec![2, 3, 2, 3]);
    assert_eq!(water_of(&grid), vec![0]);
    let mut steps = vec![0; 20];
    steps.extend(vec![1; 20]);
    let mut grid = GridMap::with_size(2, 2).unwrap();
    grid.dig_lake(0, &steps);
    assert_eq!(water_of(&grid), vec![0, 1, 3]);
}

#[test]
fn a_walk_without_steps_and_steps_that_name_no_direction() {
    let mut grid = GridMap::with_size(3, 3).unwrap();
    grid.dig_lake(8, &Vec::new());
    assert_eq!(water_of(&grid), vec![8]);
    grid.dig_lake(8, &vec![4, 5, usize::MAX, 4, 4, 4, 4, 4]);
    assert_eq!(water_of(&grid), vec![8]);
    assert_eq!((grid.width(), grid.height()), (3, 3));
}
