use std::collections::VecDeque;

use ecosystem_sim::components::{Animal, AnimalType, Path, RelativeTextureIndex, Tree};
use ecosystem_sim::geometry::Pos;
use ecosystem_sim::graphics::{DrawPathEvent, FrameAnimation, GraphicsPlugin, PathMarker, Placement};
use ecosystem_sim::vegetation::{Plant, PlantType, INITIAL_PLANT_COUNT, PLANT_TYPE_COUNT};

fn step(frame: usize, just_finished: bool, sheet_changed: bool, sheet_len: usize) -> (usize, bool) {
    let mut animation = FrameAnimation { current_frame: frame };
    let change =
        GraphicsPlugin::frame_animation(&mut animation, just_finished, sheet_changed, sheet_len);
    (animation.current_frame, change)
}

#[test]
fn an_animation_steps_through_its_sheet() {
    assert_eq!(step(0, true, false, 5), (1, false));
    assert_eq!(step(3, true, false, 5), (4, false));
    assert_eq!(step(4, true, false, 5), (0, false));
    assert_eq!(step(0, true, false, 1), (0, false));
    assert_eq!(step(7, true, false, 5), (3, false));
    assert_eq!(step(usize::MAX, true, false, 5), ((usize::MAX % 5 + 1) % 5, false));
}

#[test]
fn an_animation_waits_for_its_timer() {
    assert_eq!(step(3, false, false, 5), (3, false));
    assert_eq!(step(3, false, true, 5), (3, false));
    assert_eq!(step(3, false, true, 0), (3, false));
}

#[test]
fn a_new_sheet_starts_with_its_first_picture() {
    assert_eq!(step(3, true, true, 5), (0, true));
    assert_eq!(step(0, true, true, 0), (0, true));
}

#[test]
fn a_path_is_drawn_position_by_position() {
    let way = Path(VecDeque::from(vec![Pos { x: 4000, y: 0 }, Pos { x: 8000, y: 4000 }]));
    let markers = GraphicsPlugin::draw_paths(&DrawPathEvent(way));
    assert_eq!(
        markers,
        vec![
            PathMarker { place: Placement { x: 4000, y: 0, z: 0 }, size: 4 },
            PathMarker { place: Placement { x: 8000, y: 4000, z: 0 }, size: 4 },
        ]
    );
    assert!(GraphicsPlugin::draw_paths(&DrawPathEvent(Path(VecDeque::new()))).is_empty());
}

#[test]
fn a_sprite_stands_where_its_entity_is() {
    assert_eq!(
        GraphicsPlugin::update_sprite_positions(&Pos { x: -5, y: 70 }),
        Placement { x: -5, y: 70, z: 0 }
    );
}

#[test]
fn the_chances_of_the_plants() {
    assert_eq!(PlantType::Anthurium.spawn_chance(), 625);
    assert_eq!(PlantType::Daffidoil.spawn_chance(), 1250);
    assert_eq!(PlantType::Foxglove.spawn_chance(), 1250);
    assert_eq!(PlantType::Ginger.spawn_chance(), 1250);
    assert_eq!(PlantType::Heather.spawn_chance(), 1250);
    assert_eq!(PlantType::Pansies.spawn_chance(), 625);
    assert_eq!(PlantType::Proteam.spawn_chance(), 2500);
    assert_eq!(PlantType::Scarletstar.spawn_chance(), 1250);
}

#[test]
fn the_chances_add_up() {
    assert_eq!(PlantType::cdf_array(), vec![625, 1875, 3125, 4375, 5625, 6250, 8750, 10000]);
    let kinds = PlantType::all();
    assert_eq!(kinds.len(), PLANT_TYPE_COUNT);
    assert_eq!(kinds[0], PlantType::Anthurium);
    assert_eq!(kinds[7], PlantType::Scarletstar);
    let total: u32 = kinds.iter().map(|k| k.spawn_chance()).sum();
    assert_eq!(total, 10000);
}

#[test]
fn the_parts_of_an_entity() {
    let plant = Plant { growth_period: 3, plant_type: PlantType::Ginger };
    assert_eq!(plant.plant_type.spawn_chance(), 1250);
    assert_eq!(INITIAL_PLANT_COUNT, 50);
    assert_eq!(RelativeTextureIndex(4).0, 4);
    assert_eq!(Tree, Tree);
    assert_eq!(Animal, Animal);
    assert_eq!(AnimalType::Bunny, AnimalType::Bunny);
}
