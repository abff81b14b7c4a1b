use std::collections::VecDeque;

use ecosystem_sim::geometry::{ceil_sqrt, tile_containing, Pos, TileCoord};
use ecosystem_sim::map::{GridMap, TileType};
use ecosystem_sim::pathfinder::{
    distance_between, find_node, lowest_cost_index, vec_contains_node, Node, Pathfinder,
};

fn tile(col: i32, row: i32) -> Pos {
    Pos { x: col * 4000, y: row * 4000 }
}

fn small_grid() -> GridMap {
    GridMap::with_size(10, 10).unwrap()
}

fn with_water(tiles: &[(usize, usize)]) -> GridMap {
    let mut grid = small_grid();
    for (col, row) in tiles {
        grid.set_tile_type(row * 10 + col, TileType::WATER);
    }
    grid
}

fn way_of(path: Option<VecDeque<Pos>>) -> Vec<Pos> {
    path.unwrap().into_iter().collect()
}

fn adjacent(a: Pos, b: Pos) -> bool {
    let dc = (a.x - b.x).abs();
    let dr = (a.y - b.y).abs();
    a != b && (dc == 0 || dc == 4000) && (dr == 0 || dr == 4000)
}

fn node(col: i32, row: i32, g_cost: u64, h_cost: u64) -> Node {
    Node { pos: TileCoord { col, row }, g_cost, h_cost, parent_node: None }
}

#[test]
fn straight_way_along_a_row() {
    let finder = Pathfinder::new(small_grid());
    let way = way_of(finder.a_star(tile(0, 0), tile(3, 0)));
    assert_eq!(way, vec![tile(1, 0), tile(2, 0), tile(3, 0)]);
}

#[test]
fn detour_around_a_blocked_tile() {
    let finder = Pathfinder::new(with_water(&[(2, 0)]));
    let way = way_of(finder.a_star(tile(0, 0), tile(3, 0)));
    assert!(!way.contains(&tile(2, 0)));
    assert!(way.iter().any(|p| p.y == 4000));
    assert_eq!(way, vec![tile(1, 0), tile(2, 1), tile(3, 0)]);
}

#[test]
fn diagonal_way() {
    let finder = Pathfinder::new(small_grid());
    let way = way_of(finder.a_star(tile(0, 0), tile(2, 2)));
    assert_eq!(way, vec![tile(1, 1), tile(2, 2)]);
}

#[test]
fn way_to_the_left_and_down() {
    let finder = Pathfinder::new(small_grid());
    let way = way_of(finder.a_star(tile(5, 5), tile(3, 5)));
    assert_eq!(way, vec![tile(4, 5), tile(3, 5)]);
    let way = way_of(finder.a_star(tile(5, 5), tile(5, 3)));
    assert_eq!(way, vec![tile(5, 4), tile(5, 3)]);
}

#[test]
fn blocked_goal_has_no_way_from_any_start() {
    let finder = Pathfinder::new(with_water(&[(4, 4)]));
    for col in 0..10 {
        for row in 0..10 {
            assert!(finder.a_star(tile(col, row), tile(4, 4)).is_none());
        }
    }
}

#[test]
fn start_on_the_goal_tile_gives_the_empty_way() {
    let finder = Pathfinder::new(small_grid());
    let way = way_of(finder.a_star(tile(3, 3), Pos { x: 12000 + 3999, y: 12000 + 1 }));
    assert!(way.is_empty());
}

#[test]
fn positions_off_the_grid_have_no_way() {
    let finder = Pathfinder::new(small_grid());
    assert!(finder.a_star(tile(0, 0), tile(10, 0)).is_none());
    assert!(finder.a_star(tile(0, 0), tile(0, 10)).is_none());
    assert!(finder.a_star(tile(0, 0), Pos { x: -1, y: 0 }).is_none());
    assert!(finder.a_star(tile(-1, 0), tile(3, 0)).is_none());
    assert!(finder.a_star(tile(0, 10), tile(3, 0)).is_none());
    assert!(finder.a_star(Pos { x: i32::MIN, y: i32::MAX }, tile(3, 0)).is_none());
    assert!(finder.a_star(tile(3, 0), Pos { x: i32::MAX, y: i32::MIN }).is_none());
}

#[test]
fn goal_behind_water_has_no_way() {
    let wall: Vec<(usize, usize)> = (0..10).map(|row| (5, row)).collect();
    let finder = Pathfinder::new(with_water(&wall));
    assert!(finder.a_star(tile(0, 0), tile(9, 9)).is_none());
    assert!(finder.a_star(tile(9, 9), tile(0, 0)).is_none());
    assert!(finder.a_star(tile(0, 0), tile(4, 9)).is_some());
}

#[test]
fn start_on_water_can_still_leave() {
    let finder = Pathfinder::new(with_water(&[(0, 0)]));
    let way = way_of(finder.a_star(tile(0, 0), tile(2, 0)));
    assert_eq!(way, vec![tile(1, 0), tile(2, 0)]);
}

#[test]
fn consecutive_positions_are_adjacent() {
    let mut water: Vec<(usize, usize)> = (0..9).map(|row| (3, row)).collect();
    water.extend((1..10).map(|row| (6, row)));
    let finder = Pathfinder::new(with_water(&water));
    let start = tile(0, 0);
    let goal = tile(9, 9);
    let way = way_of(finder.a_star(start, goal));
    assert!(!way.is_empty());
    assert!(adjacent(start, way[0]));
    for pair in way.windows(2) {
        assert!(adjacent(pair[0], pair[1]));
    }
    assert_eq!(*way.last().unwrap(), goal);
    for p in &way {
        assert!(*p != start);
        assert!(!water.contains(&((p.x / 4000) as usize, (p.y / 4000) as usize)));
        assert_eq!(p.x % 4000, 0);
        assert_eq!(p.y % 4000, 0);
    }
}

#[test]
fn searching_again_gives_the_same_way() {
    let finder = Pathfinder::new(with_water(&[(2, 0), (2, 1), (2, 2), (5, 5)]));
    let first = finder.a_star(tile(0, 0), tile(8, 3));
    let second = finder.a_star(tile(0, 0), tile(8, 3));
    assert!(first.is_some());
    assert_eq!(first, second);
    assert_eq!(finder.a_star(tile(0, 0), tile(2, 1)), finder.a_star(tile(0, 0), tile(2, 1)));
}

#[test]
fn positions_are_taken_for_their_tiles() {
    let finder = Pathfinder::new(small_grid());
    let exact = finder.a_star(tile(1, 1), tile(4, 2));
    let loose = finder.a_star(Pos { x: 4000 + 1234, y: 4000 + 3999 }, Pos { x: 16000 + 1, y: 8000 + 2500 });
    assert_eq!(exact, loose);
}

#[test]
fn the_finder_keeps_the_grid_it_was_made_from() {
    let mut grid = small_grid();
    let finder = Pathfinder::new(grid.clone());
    grid.set_tile_type(3, TileType::WATER);
    assert!(finder.a_star(tile(0, 0), tile(3, 0)).is_some());
    assert!(Pathfinder::new(grid).a_star(tile(0, 0), tile(3, 0)).is_none());
}

#[test]
fn way_over_the_default_grid() {
    let finder = Pathfinder::new(GridMap::new());
    let way = way_of(finder.a_star(tile(100, 50), tile(104, 50)));
    assert_eq!(way, vec![tile(101, 50), tile(102, 50), tile(103, 50), tile(104, 50)]);
}

#[test]
fn walking_back_ends_on_a_grid_full_of_detours() {
    let mut water: Vec<(usize, usize)> = Vec::new();
    for col in [1usize, 3, 5, 7] {
        for row in 0..10 {
            let gap = if col % 4 == 1 { 9 } else { 0 };
            if row != gap {
                water.push((col, row));
            }
        }
    }
    let finder = Pathfinder::new(with_water(&water));
    let way = way_of(finder.a_star(tile(0, 0), tile(9, 0)));
    assert!(way.len() < 100);
    assert_eq!(*way.last().unwrap(), tile(9, 0));
    let mut seen = way.clone();
    seen.sort_by_key(|p| (p.x, p.y));
    seen.dedup();
    assert_eq!(seen.len(), way.len());
}

#[test]
fn distances_are_rounded_up() {
    let origin = TileCoord { col: 0, row: 0 };
    assert_eq!(distance_between(origin, origin), 0);
    assert_eq!(distance_between(origin, TileCoord { col: 1, row: 0 }), 4);
    assert_eq!(distance_between(origin, TileCoord { col: 3, row: 0 }), 12);
    assert_eq!(distance_between(origin, TileCoord { col: 1, row: 1 }), 6);
    assert_eq!(distance_between(origin, TileCoord { col: 2, row: 1 }), 9);
    assert_eq!(distance_between(TileCoord { col: 2, row: 1 }, origin), 9);
    assert_eq!(distance_between(origin, TileCoord { col: 3, row: 4 }), 20);
    assert_eq!(distance_between(TileCoord { col: -1, row: -1 }, TileCoord { col: 1, row: 1 }), 12);
    assert_eq!(
        distance_between(TileCoord { col: i32::MIN, row: 0 }, TileCoord { col: i32::MAX, row: 0 }),
        4 * (u32::MAX as u64)
    );
}

#[test]
fn square_roots_are_rounded_up() {
    assert_eq!(ceil_sqrt(0), 0);
    assert_eq!(ceil_sqrt(1), 1);
    assert_eq!(ceil_sqrt(2), 2);
    assert_eq!(ceil_sqrt(4), 2);
    assert_eq!(ceil_sqrt(5), 3);
    assert_eq!(ceil_sqrt(16), 4);
    assert_eq!(ceil_sqrt(32), 6);
    assert_eq!(ceil_sqrt(1_000_000), 1000);
    assert_eq!(ceil_sqrt(1_000_001), 1001);
    assert_eq!(ceil_sqrt(u128::MAX), 1u128 << 64);
}

#[test]
fn the_tile_of_a_position() {
    assert_eq!(tile_containing(Pos { x: 0, y: 0 }), TileCoord { col: 0, row: 0 });
    assert_eq!(tile_containing(Pos { x: 3999, y: 4000 }), TileCoord { col: 0, row: 1 });
    assert_eq!(tile_containing(Pos { x: -1, y: -4000 }), TileCoord { col: -1, row: -1 });
    assert_eq!(tile_containing(Pos { x: -4001, y: 8001 }), TileCoord { col: -2, row: 2 });
    assert_eq!(
        tile_containing(Pos { x: i32::MIN, y: i32::MAX }),
        TileCoord { col: -536871, row: 536870 }
    );
}

#[test]
fn the_rank_of_a_node() {
    assert_eq!(node(0, 0, 8, 4).f_cost(), 12);
    assert_eq!(node(0, 0, 0, 0).f_cost(), 0);
    assert_eq!(node(0, 0, u64::MAX, u64::MAX).f_cost(), 2 * (u64::MAX as u128));
}

#[test]
fn nodes_are_found_by_their_tile() {
    let nodes = vec![node(1, 0, 4, 8), node(1, 1, 6, 9), node(0, 1, 4, 13), node(1, 1, 1, 1)];
    assert!(vec_contains_node(&nodes, &node(1, 1, 0, 0)));
    assert!(!vec_contains_node(&nodes, &node(2, 2, 6, 9)));
    assert!(!vec_contains_node(&Vec::new(), &node(1, 1, 0, 0)));
    assert_eq!(find_node(&nodes, TileCoord { col: 1, row: 1 }), Some(1));
    assert_eq!(find_node(&nodes, TileCoord { col: 0, row: 1 }), Some(2));
    assert_eq!(find_node(&nodes, TileCoord { col: 0, row: 0 }), None);
}

#[test]
fn the_next_node_has_the_lowest_rank_then_the_lowest_estimate() {
    assert_eq!(lowest_cost_index(&vec![node(0, 0, 4, 8)]), 0);
    assert_eq!(lowest_cost_index(&vec![node(0, 0, 6, 9), node(1, 0, 4, 8), node(2, 0, 4, 13)]), 1);
    // equal ranks: the lower estimate
    assert_eq!(lowest_cost_index(&vec![node(0, 0, 4, 8), node(1, 0, 8, 4), node(2, 0, 6, 6)]), 1);
    // equal ranks and estimates: the first
    assert_eq!(lowest_cost_index(&vec![node(0, 0, 9, 9), node(1, 0, 4, 8), node(2, 0, 4, 8)]), 1);
}
