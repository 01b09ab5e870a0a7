//! The simulation on small, hand-written data: movement, chemistry, heat, pressure,
//! machines, money and fingerprints.

use sim_core::chunk::{split, ChunkMap, CHUNK_CELLS};
use sim_core::compress;
use sim_core::elements::DataError;
use sim_core::entities::{Entity, EntityTable, Reach};
use sim_core::field::{Bounds, CellField};
use sim_core::heat::{self, AMBIENT_TEMPERATURE};
use sim_core::paint;
use sim_core::rng;
use sim_core::scene;
use sim_core::spawners::{self, Spawner};
use sim_core::step;
use sim_core::{ElementTable, FlatWorld, Grid, ReactionTable, Rules, World, EMPTY};

const DATA: &str = r##"{
  "elements": [
    {"id":1,"name":"structure","state":"solid","density":999999,"melting_point":99999,
     "boiling_point":99999,"thermal_conductivity":0.5,"color":"#808080","color_variance":0,
     "flammability":0.0,"hardness":1.0},
    {"id":2,"name":"sand","state":"powder","density":1600,"melting_point":1900,
     "boiling_point":2500,"thermal_conductivity":0.27,"color":"#C8A24A","color_variance":8,
     "flammability":0.0,"hardness":0.5,"value":1},
    {"id":3,"name":"water","state":"liquid","density":1000,"melting_point":273,
     "boiling_point":373,"thermal_conductivity":0.6,"color":"#3060C0","color_variance":4,
     "flammability":0.0,"hardness":0.0,"boilsInto":"steam"},
    {"id":4,"name":"wetSand","state":"powder","density":1900,"melting_point":1900,
     "boiling_point":2500,"thermal_conductivity":0.4,"color":"#806030","color_variance":4,
     "flammability":0.0,"hardness":0.5,"value":2,"residue":"sand"},
    {"id":5,"name":"gold","state":"powder","density":19300,"melting_point":1337,
     "boiling_point":3000,"thermal_conductivity":1.0,"color":"#FFD700","color_variance":0,
     "flammability":0.0,"hardness":0.5,"currency":true},
    {"id":6,"name":"steam","state":"gas","density":1,"melting_point":0,
     "boiling_point":373,"thermal_conductivity":0.1,"color":"#FFFFFF","color_variance":0,
     "flammability":0.0,"hardness":0.0,"condensesInto":"water"},
    {"id":7,"name":"inert","state":"solid","density":999999,"melting_point":99999,
     "boiling_point":99999,"thermal_conductivity":0.0,"color":"#202020","color_variance":0,
     "flammability":0.0,"hardness":1.0}
  ],
  "reactions": [
    {"reactants":["sand","water"],"products":["wetSand","wetSand"],"probability":1.0}
  ],
  "entities": [
    {"id":1,"name":"emitter","behaviour":"emit","tool":"emit","widthTiles":1,"heightTiles":1,"rate":2},
    {"id":2,"name":"vault","behaviour":"store","tool":"vault","widthTiles":1,"heightTiles":1},
    {"id":3,"name":"belt","behaviour":"belt","tool":"belt","widthTiles":1,"heightTiles":1,"chassis":"structure"},
    {"id":4,"name":"press","behaviour":"press","tool":"press","widthTiles":1,"heightTiles":1,"rate":4,"goldPer":2}
  ]
}"##;

fn rules() -> Rules {
    Rules::from_json(DATA).expect("the test data should load")
}

fn rules_without_reactions() -> Rules {
    let full = rules();
    Rules { elements: full.elements, reactions: ReactionTable::default(), entities: full.entities }
}

fn id(rules: &Rules, name: &str) -> u8 {
    rules.elements.id_of(name).expect(name)
}

#[test]
fn split_reconstructs_every_coordinate() {
    for coordinate in [-300, -145, -144, -1, 0, 1, 143, 144, 1000, i32::MIN, i32::MAX] {
        let (chunk, offset) = split(coordinate);
        assert!(offset < CHUNK_CELLS);
        assert_eq!(i64::from(chunk) * i64::from(CHUNK_CELLS) + i64::from(offset), i64::from(coordinate));
    }
}

#[test]
fn grid_reads_writes_and_refuses_its_outside() {
    let mut grid = Grid::new(4, 3);
    assert_eq!(grid.width(), 4);
    assert_eq!(grid.height(), 3);
    assert!(grid.set(1, 2, 5));
    assert!(!grid.set(4, 0, 5), "x = 4 is outside a 4-wide grid");
    assert_eq!(grid.get(1, 2), Some(5));
    assert_eq!(grid.get(-1, 0), None);
    assert_eq!(grid.index(3, 2), Some(11));
    assert_eq!(grid.count_of(5), 1);
    assert_eq!(grid.count_of(EMPTY), 11);

    grid.fill_rect(0, 0, 1, 1, 7);
    assert_eq!(grid.count_of(7), 4);

    let a = grid.index(1, 2).unwrap();
    let b = grid.index(3, 0).unwrap();
    grid.swap(a, b);
    assert_eq!(grid.get(3, 0), Some(5));
    assert_eq!(grid.get(1, 2), Some(EMPTY));

    grid.mark_moved(a);
    assert!(grid.is_moved(a));
    grid.clear_moved();
    assert!(!grid.is_moved(a));
    assert_eq!(CellField::bounds(&grid), Some(Bounds { min_x: 0, min_y: 0, max_x: 3, max_y: 2 }));
}

#[test]
fn a_cell_keeps_its_temperature_when_swapped_and_loses_it_when_cleared() {
    let mut map = ChunkMap::new();
    map.set(0, 0, 2);
    map.set_temperature(0, 0, 500);
    map.swap(0, 0, 200, 0);
    assert_eq!(map.temperature(200, 0), 500);
    assert_eq!(map.temperature(0, 0), AMBIENT_TEMPERATURE);
    map.set(200, 0, EMPTY);
    assert_eq!(map.temperature(200, 0), AMBIENT_TEMPERATURE, "empty space has no heat");
    map.set_temperature(5, 5, 900);
    assert_eq!(map.temperature(5, 5), AMBIENT_TEMPERATURE, "nor can it be given any");
}

#[test]
fn chunk_coordinates_come_back_in_key_order() {
    let mut map = ChunkMap::new();
    map.set(500, 0, 1);
    map.set(-500, 0, 1);
    map.set(0, -500, 1);
    map.set(0, 500, 1);
    let coords = map.chunk_coords();
    let mut sorted = coords.clone();
    sorted.sort();
    assert_eq!(coords, sorted);
    assert_eq!(coords.len(), 4);
    assert_eq!(map.count_of(1), 4);
    assert_eq!(map.count_of(EMPTY), 0, "empty space is not counted");
}

#[test]
fn movement_conserves_every_element_in_a_closed_box() {
    let rules = rules_without_reactions();
    let mut world = scene::sandbox_flat(48, 36, 7, &rules);
    let sand = id(&rules, "sand");
    let water = id(&rules, "water");
    let (sand_before, water_before) = (world.count_of(sand), world.count_of(water));
    assert!(sand_before > 0 && water_before > 0);
    let mut field = world.field().clone();
    for tick in 0..60 {
        step::step(&mut field, &rules.elements, &rules.reactions, 7, tick);
    }
    assert_eq!(field.count_of(sand), sand_before);
    assert_eq!(field.count_of(water), water_before);
    world.step_many(60);
    assert_eq!(world.count_of(sand), sand_before);
    assert_eq!(world.count_of(water), water_before);
}

#[test]
fn sand_sinks_through_water() {
    let rules = rules_without_reactions();
    let mut grid = Grid::new(3, 3);
    let sand = id(&rules, "sand");
    let water = id(&rules, "water");
    grid.set(1, 0, sand);
    grid.set(1, 1, water);
    grid.fill_rect(0, 2, 2, 2, id(&rules, "structure"));
    grid.fill_rect(0, 1, 0, 1, id(&rules, "structure"));
    grid.fill_rect(2, 1, 2, 1, id(&rules, "structure"));
    step::step(&mut grid, &rules.elements, &rules.reactions, 1, 0);
    assert_eq!(grid.get(1, 1), Some(sand));
    assert_eq!(grid.get(1, 0), Some(water));
}

#[test]
fn a_gas_rises_one_cell_per_tick() {
    let rules = rules_without_reactions();
    let mut world = scene::arena(20, 20, 1, &rules);
    let steam = id(&rules, "steam");
    world.field_mut().set(10, 15, steam);
    world.field_mut().set_temperature(10, 15, 500);
    world.step();
    assert_eq!(world.get(10, 14), steam);
    world.step();
    assert_eq!(world.get(10, 13), steam);
}

#[test]
fn touching_reactants_turn_into_their_products() {
    let rules = rules();
    let mut grid = Grid::new(2, 1);
    let (sand, water, wet) = (id(&rules, "sand"), id(&rules, "water"), id(&rules, "wetSand"));
    let inert = id(&rules, "inert");
    let mut walled = Grid::new(2, 2);
    walled.fill_rect(0, 1, 1, 1, inert);
    walled.set(0, 0, water);
    walled.set(1, 0, sand);
    step::step(&mut walled, &rules.elements, &rules.reactions, 3, 0);
    assert_eq!(walled.count_of(wet), 2, "probability 1.0 always fires");
    assert_eq!(walled.count_of(sand) + walled.count_of(water), 0);
    grid.set(0, 0, sand);
    assert_eq!(rules.reactions.len(), 1);
    let (reaction, flipped) = rules.reactions.between(water, sand).expect("either order");
    assert!(flipped);
    assert_eq!(reaction.products, [wet, wet]);
    assert!(rules.reactions.between(sand, sand).is_none());
}

#[test]
fn heat_flows_from_hot_to_cold_and_is_conserved() {
    let rules = rules_without_reactions();
    let mut grid = Grid::new(2, 1);
    let inert_free = id(&rules, "sand");
    grid.set(0, 0, inert_free);
    grid.set(1, 0, inert_free);
    grid.set_temperature(0, 0, 700);
    grid.set_temperature(1, 0, 300);
    heat::step(&mut grid, &rules.elements);
    let (a, b) = (grid.temperature(0, 0), grid.temperature(1, 0));
    assert_eq!(i32::from(a) + i32::from(b), 1000);
    assert!(a >= b && a < 700);
    // 400 * 0.27 (as 17694/65536) = 107.99, floored, under half the difference.
    assert_eq!(a, 593);
}

#[test]
fn an_insulator_blocks_heat() {
    let rules = rules_without_reactions();
    let mut grid = Grid::new(2, 1);
    grid.set(0, 0, id(&rules, "inert"));
    grid.set(1, 0, id(&rules, "sand"));
    grid.set_temperature(1, 0, 900);
    heat::step(&mut grid, &rules.elements);
    assert_eq!(grid.temperature(1, 0), 900);
}

#[test]
fn water_boils_at_its_boiling_point_and_steam_condenses_below_it() {
    let rules = rules_without_reactions();
    let (water, steam) = (id(&rules, "water"), id(&rules, "steam"));
    let mut grid = Grid::new(1, 1);
    grid.set(0, 0, water);
    grid.set_temperature(0, 0, 373);
    heat::step(&mut grid, &rules.elements);
    assert_eq!(grid.get(0, 0), Some(steam));
    heat::step(&mut grid, &rules.elements);
    assert_eq!(grid.get(0, 0), Some(steam), "at the threshold it stays steam");
    grid.set_temperature(0, 0, 372);
    heat::step(&mut grid, &rules.elements);
    assert_eq!(grid.get(0, 0), Some(water));
}

#[test]
fn load_is_the_weight_of_the_contiguous_column_above() {
    let rules = rules_without_reactions();
    let sand = id(&rules, "sand");
    let mut grid = Grid::new(1, 6);
    grid.set(0, 1, sand);
    grid.set(0, 2, sand);
    grid.set(0, 3, sand);
    grid.set(0, 5, sand);
    assert_eq!(compress::load_at(&grid, &rules.elements, 0, 4), 4800);
    assert_eq!(compress::load_at(&grid, &rules.elements, 0, 5), 0, "a gap carries nothing");
    assert_eq!(compress::load_at(&grid, &rules.elements, 0, 0), 0);
    compress::step(&mut grid, &rules.elements, 1, 0);
    assert_eq!(grid.count_of(sand), 4, "sand does not compact into anything");
}

#[test]
fn a_stroke_paints_whole_tiles_in_a_staircase() {
    let mut map = ChunkMap::new();
    paint::stroke(&mut map, (0, 0), (2, 2), 9);
    assert_eq!(map.count_of(9), 3 * 81);
    for tile in 0..3 {
        assert_eq!(map.get(tile * 9 + 4, tile * 9 + 4), Some(9));
    }
    assert_eq!(map.get(9 + 4, 4), Some(EMPTY), "the tile off the diagonal stays empty");
    paint::stroke(&mut map, (2, 2), (0, 0), EMPTY);
    assert_eq!(map.count_of(9), 0, "erasing is the same stroke with empty");
}

#[test]
fn a_shallow_stroke_steps_down_once() {
    let mut map = ChunkMap::new();
    paint::stroke(&mut map, (0, 0), (2, 1), 9);
    assert_eq!(map.count_of(9), 3 * 81);
    assert_eq!(map.get(4, 4), Some(9));
    assert_eq!(map.get(9 + 4, 9 + 4), Some(9));
    assert_eq!(map.get(18 + 4, 9 + 4), Some(9));
    assert_eq!(map.get(9 + 4, 4), Some(EMPTY));
    assert_eq!(map.get(18 + 4, 4), Some(EMPTY));
}

#[test]
fn a_one_cell_spawner_always_lands_on_its_cell() {
    let mut map = ChunkMap::new();
    let spawner = Spawner { x: 3, y: 2, width: 1, element: 2, rate: 3 };
    spawners::emit(&mut map, &[spawner], 11, 4);
    assert_eq!(map.get(3, 2), Some(2));
    assert_eq!(map.count_of(2), 1, "later grains find the cell taken");
    let idle = Spawner { x: 0, y: 0, width: 0, element: 2, rate: 5 };
    spawners::emit(&mut map, &[idle], 11, 5);
    assert_eq!(map.count_of(2), 1, "a spawner of no width emits nothing");
}

#[test]
fn spawners_never_overwrite_matter() {
    let mut map = ChunkMap::new();
    for x in 0..4 {
        map.set(x, 0, 1);
    }
    let spawner = Spawner { x: 0, y: 0, width: 4, element: 2, rate: 10 };
    spawners::emit(&mut map, &[spawner], 5, 0);
    assert_eq!(map.count_of(2), 0, "a full row takes nothing");
    assert_eq!(map.count_of(1), 4);
    spawners::emit(&mut map, &[Spawner { x: 0, y: 1, width: 4, element: 2, rate: 10 }], 5, 0);
    let emitted = map.count_of(2);
    assert!(emitted >= 1 && emitted <= 4);
}

#[test]
fn rng_stays_in_range_and_repeats() {
    for salt in 0..50 {
        assert!(rng::below(1, 2, 3, 4, salt, 7) < 7);
        assert_eq!(rng::noise_salted(9, 8, 7, 6, salt), rng::noise_salted(9, 8, 7, 6, salt));
    }
    assert_eq!(rng::below(1, 2, 3, 4, 5, 0), 0);
    assert_eq!(rng::noise(1, 2, 3, 4), rng::noise_salted(1, 2, 3, 4, 0));
}

#[test]
fn machines_load_from_data_and_refuse_bad_rows() {
    let rules = rules();
    assert_eq!(rules.entities.len(), 4);
    let belt = rules.entities.get(3).expect("belt");
    assert_eq!(belt.chassis, id(&rules, "structure"));
    assert_eq!(belt.reach, Reach::Body);
    assert_eq!(belt.mouth_width, 9);
    assert_eq!(rules.entities.id_of("press"), Some(4));

    let elements = &rules.elements;
    let no_chassis = r#"{"entities":[{"id":1,"name":"b","behaviour":"belt","tool":"b","widthTiles":1,"heightTiles":1}]}"#;
    assert_eq!(EntityTable::from_json(no_chassis, elements).unwrap_err(), DataError::BadField { field: "chassis" });
    let cold = r#"{"entities":[{"id":1,"name":"h","behaviour":"heater","tool":"h","widthTiles":1,"heightTiles":1}]}"#;
    assert_eq!(EntityTable::from_json(cold, elements).unwrap_err(), DataError::BadField { field: "heatOutput" });
    let zero = r#"{"entities":[{"id":0,"name":"z","behaviour":"emit","tool":"z","widthTiles":1,"heightTiles":1}]}"#;
    assert_eq!(EntityTable::from_json(zero, elements).unwrap_err(), DataError::ReservedId);
    let twice = r#"{"entities":[{"id":1,"name":"a","behaviour":"emit","tool":"a","widthTiles":1,"heightTiles":1},{"id":1,"name":"b","behaviour":"emit","tool":"b","widthTiles":1,"heightTiles":1}]}"#;
    assert_eq!(EntityTable::from_json(twice, elements).unwrap_err(), DataError::DuplicateId(1));
    assert!(EntityTable::from_json("{}", elements).unwrap().is_empty());
}

#[test]
fn reactions_refuse_unknown_elements_and_odd_counts() {
    let table = ElementTable::from_json(DATA).unwrap();
    let unknown = r#"{"reactions":[{"reactants":["sand","lava"],"products":["sand","sand"],"probability":0.5}]}"#;
    assert_eq!(ReactionTable::from_json(unknown, &table).unwrap_err(), DataError::UnknownElement { field: "reactants" });
    let three = r#"{"reactions":[{"reactants":["sand","water","sand"],"products":["sand","sand"],"probability":0.5}]}"#;
    assert_eq!(ReactionTable::from_json(three, &table).unwrap_err(), DataError::BadField { field: "reactants" });
    let no_chance = r#"{"reactions":[{"reactants":["sand","water"],"products":["sand","sand"]}]}"#;
    assert_eq!(ReactionTable::from_json(no_chance, &table).unwrap_err(), DataError::MissingField { field: "probability" });
    assert!(ReactionTable::from_json("{}", &table).unwrap().is_empty());
}

#[test]
fn machine_geometry_is_in_tiles() {
    let mut entity = Entity::new(1, 2, 3, 0);
    let rules = rules();
    entity.defaults_from(rules.entities.get(1).unwrap());
    assert_eq!((entity.width_tiles, entity.height_tiles, entity.rate), (1, 1, 2));
    assert_eq!(entity.left(), 18);
    assert_eq!(entity.top(), 27);
    assert_eq!(entity.mouth(), 36);
    assert_eq!(entity.body(), (18, 27, 26, 35));
    assert_eq!(entity.reach_area(Reach::Below), (18, 36, 26, 44));
    assert!(entity.covers(2, 3));
    assert!(!entity.covers(3, 3));
    let sized = Entity::sized(2, 0, 0, 3, 2);
    assert_eq!(sized.body(), (0, 0, 26, 17));
    assert_eq!(Entity::belt(3, 0, 0, -1).direction, -1);
    assert_eq!(Entity::filter(3, 0, 0, 1, 5).element, 5);
    assert_eq!(sized.effective_rate(rules.entities.get(4).unwrap()), 4);
}

#[test]
fn an_emitter_fills_its_mouth_until_it_is_blocked() {
    let rules = rules_without_reactions();
    let mut world = World::new(3, rules.clone());
    let water = id(&rules, "water");
    let emitter = Entity::new(1, 0, 0, water);
    world.place(emitter);
    let placed = world.entities()[0];
    assert!(!placed.is_blocked(rules.entities.get(1).unwrap(), world.field(), &rules.elements));
    world.step();
    assert!(world.count_of(water) >= 1);
    // Fill the mouth row solid, and the emitter backs up.
    for x in 0..9 {
        world.field_mut().set(x, 9, id(&rules, "structure"));
    }
    assert!(placed.is_blocked(rules.entities.get(1).unwrap(), world.field(), &rules.elements));
}

#[test]
fn a_belt_carries_cargo_one_cell_per_tick() {
    let rules = rules_without_reactions();
    let mut world = World::new(3, rules.clone());
    let gold = id(&rules, "gold");
    world.place(Entity::belt(3, 0, 1, 1));
    assert_eq!(world.get(4, 13), id(&rules, "structure"), "a belt's body is solid chassis");
    world.field_mut().set(2, 8, gold);
    world.step();
    assert_eq!(world.get(3, 8), gold, "carried one cell downstream");
}

#[test]
fn spending_is_all_or_nothing() {
    let rules = rules_without_reactions();
    let mut world = World::new(3, rules.clone());
    let gold = id(&rules, "gold");
    world.place(Entity::sized(2, 0, 0, 1, 1));
    for x in 0..3 {
        world.field_mut().set(x, 8, gold);
    }
    world.field_mut().set(20, 8, gold);
    assert_eq!(world.stored(), 3, "gold outside a vault is not money");
    let before = world.content_hash();
    assert_eq!(world.spend(4), 0, "a partial charge is not a purchase");
    assert_eq!(world.content_hash(), before);
    assert_eq!(world.spend(0), 0);
    assert_eq!(world.spend(2), 2);
    assert_eq!(world.stored(), 1);
    assert_eq!(world.count_of(gold), 2);
}

#[test]
fn the_flat_and_chunked_worlds_agree() {
    let rules = rules();
    let mut flat = scene::sandbox_flat(40, 30, 11, &rules);
    let mut chunked = scene::sandbox(40, 30, 11, &rules);
    assert_eq!(flat.hash(), chunked.hash());
    for _ in 0..40 {
        flat.step();
        chunked.step();
        assert_eq!(flat.hash(), chunked.hash());
    }
    assert_eq!(flat.content_hash(), chunked.content_hash());
}

#[test]
fn a_narrow_sandbox_puts_its_divider_beyond_the_frame() {
    let rules = rules_without_reactions();
    let chunked = scene::sandbox(5, 12, 3, &rules);
    let flat = scene::sandbox_flat(5, 12, 3, &rules);
    let structure = rules.elements.id_of("structure").unwrap();
    assert_eq!(chunked.get(5, 6), structure, "the divider stands one column past the frame");
    assert_ne!(chunked.content_hash(), flat.content_hash());
    let wide = scene::sandbox(6, 12, 3, &rules);
    assert_eq!(wide.get(6, 6), EMPTY, "from six columns on it stands inside");
}

#[test]
fn fingerprints_fold_in_the_tick_but_content_hashes_do_not() {
    let rules = rules_without_reactions();
    let mut world = scene::arena(12, 12, 2, &rules);
    let (hash, content) = (world.hash(), world.content_hash());
    world.step();
    assert_ne!(world.hash(), hash);
    assert_eq!(world.content_hash(), content, "an empty arena does not change");
    let flat = FlatWorld::new(3, 2, 9, rules);
    assert_eq!(flat.structural_hash(), flat.structural_hash());
    assert_eq!(flat.cells().len(), 6);
}

#[test]
fn entity_lookup_and_removal() {
    let rules = rules();
    let mut world = World::new(1, rules);
    world.place(Entity::sized(2, 0, 0, 2, 2));
    world.place(Entity::new(1, 5, 5, 2));
    assert_eq!(world.entity_at(1, 1), Some(0));
    assert_eq!(world.entity_at(5, 5), Some(1));
    assert_eq!(world.entity_at(9, 9), None);
    assert_eq!(world.count_of_kind(1), 1);
    assert!(world.remove(0));
    assert!(!world.remove(5));
    assert_eq!(world.entities().len(), 1);
    world.clear_entities();
    assert_eq!(world.entities().len(), 0);
}

#[test]
fn sleeping_skips_settled_chunks_without_changing_anything() {
    let rules = rules_without_reactions();
    let mut awake = scene::sandbox(60, 40, 4, &rules);
    let mut sleepy = scene::sandbox(60, 40, 4, &rules);
    sleepy.set_sleeping(true);
    sleepy.set_viewport(Some(Bounds { min_x: 0, min_y: 0, max_x: 10, max_y: 10 }), -3);
    for _ in 0..30 {
        awake.step();
        sleepy.step();
    }
    assert_eq!(awake.content_hash(), sleepy.content_hash());
    assert!(sleepy.awake_chunk_count() <= sleepy.field().chunk_count());
}

#[test]
fn compaction_drops_empty_chunks_and_changes_nothing_else() {
    let mut map = ChunkMap::new();
    map.set(0, 0, 3);
    map.set(200, 0, 4);
    map.set(-200, -200, 5);
    map.set_temperature(200, 0, 600);
    map.set(-200, -200, EMPTY);
    map.mark_active(1000, 1000);
    assert_eq!(map.chunk_count(), 4);
    map.compact();
    assert_eq!(map.chunk_count(), 2, "the emptied chunk and the untouched one go");
    assert_eq!(map.get(0, 0), Some(3));
    assert_eq!(map.get(200, 0), Some(4));
    assert_eq!(map.temperature(200, 0), 600);
    assert_eq!(map.get(-200, -200), Some(EMPTY));
    assert_eq!(map.count_of(4), 1);
    map.set(1000, 1000, 6);
    assert_eq!(map.get(1000, 1000), Some(6));
    assert_eq!(map.chunk_coords().len(), 3);
}

#[test]
fn solid_matter_never_moves_without_reactions() {
    let rules = rules_without_reactions();
    let world = scene::sandbox_flat(40, 30, 11, &rules);
    let structure = id(&rules, "structure");
    let mut grid = world.field().clone();
    let before: Vec<(i32, i32)> = (0..30)
        .flat_map(|y| (0..40).map(move |x| (x, y)))
        .filter(|&(x, y)| grid.get(x, y) == Some(structure))
        .collect();
    assert!(!before.is_empty());
    for tick in 0..40 {
        step::step(&mut grid, &rules.elements, &rules.reactions, 11, tick);
    }
    for (x, y) in before {
        assert_eq!(grid.get(x, y), Some(structure), "({}, {})", x, y);
    }
}

#[test]
fn heat_is_swept_left_to_right_one_pair_at_a_time() {
    let rules = rules_without_reactions();
    let sand = id(&rules, "sand");
    let mut grid = Grid::new(3, 1);
    for x in 0..3 {
        grid.set(x, 0, sand);
    }
    grid.set_temperature(0, 0, 900);
    grid.set_temperature(1, 0, 300);
    grid.set_temperature(2, 0, 300);
    heat::step(&mut grid, &rules.elements);
    // The left pair first: 600 at 0.27 moves 161. Then the middle passes on 43 of its
    // new 161-degree lead.
    assert_eq!(
        [grid.temperature(0, 0), grid.temperature(1, 0), grid.temperature(2, 0)],
        [739, 418, 343]
    );
}

const PRESSURE_DATA: &str = r##"{
  "elements": [
    {"id":1,"name":"sand","state":"powder","density":1600,"melting_point":1900,
     "boiling_point":2500,"thermal_conductivity":0.27,"color":"#C8A24A","color_variance":0,
     "flammability":0.0,"hardness":0.5},
    {"id":2,"name":"ash","state":"powder","density":500,"melting_point":1900,
     "boiling_point":2500,"thermal_conductivity":0.27,"color":"#404040","color_variance":0,
     "flammability":0.0,"hardness":0.0,"compactsInto":"coal","compactionLoad":1000},
    {"id":3,"name":"coal","state":"solid","density":1400,"melting_point":1900,
     "boiling_point":2500,"thermal_conductivity":0.27,"color":"#101010","color_variance":0,
     "flammability":0.0,"hardness":1.0}
  ]
}"##;

#[test]
fn ash_under_enough_weight_compacts_into_coal() {
    let elements = ElementTable::from_json(PRESSURE_DATA).expect("pressure data");
    // Twice the threshold: the chance is certain.
    let mut deep = Grid::new(1, 3);
    deep.set(0, 0, 1);
    deep.set(0, 1, 1);
    deep.set(0, 2, 2);
    compress::step(&mut deep, &elements, 5, 9);
    assert_eq!(deep.get(0, 2), Some(3));
    assert_eq!(compress::load_at(&deep, &elements, 0, 2), 3200);
    // Under the threshold nothing happens.
    let mut shallow = Grid::new(1, 2);
    shallow.set(0, 0, 2);
    shallow.set(0, 1, 2);
    compress::step(&mut shallow, &elements, 5, 9);
    assert_eq!(shallow.get(0, 1), Some(2));
    // Between one and two thresholds the roll decides: 600 past a 1000 threshold is a
    // 39321/65536 chance.
    let mut middle = Grid::new(1, 2);
    middle.set(0, 0, 1);
    middle.set(0, 1, 2);
    compress::step(&mut middle, &elements, 5, 9);
    let roll = rng::below(5, 9, 0, 1, compress::SALT_COMPACT, 0x1_0000);
    let expected = if roll < 39321 { 3 } else { 2 };
    assert_eq!(middle.get(0, 1), Some(expected));
}

#[test]
fn a_press_banks_value_and_mints_a_nugget_every_price() {
    let rules = rules_without_reactions();
    let (sand, gold) = (id(&rules, "sand"), id(&rules, "gold"));
    let mut grid = Grid::new(9, 10);
    for x in 0..3 {
        grid.set(x, 8, sand);
    }
    let mut machines = vec![Entity::sized(4, 0, 0, 1, 1)];
    let minted = sim_core::entities::tick(&mut grid, &mut machines, &rules.entities, &rules.elements, 1, 0);
    // Worth 1 each at a price of 2: the first banks, the second completes a nugget in
    // its own place, the third banks again. Sand leaves no residue.
    assert_eq!(minted, 1);
    assert_eq!(machines[0].bank, 1);
    assert_eq!(grid.get(0, 8), Some(EMPTY));
    assert_eq!(grid.get(1, 8), Some(gold));
    assert_eq!(grid.get(2, 8), Some(EMPTY));
}

#[test]
fn a_disabled_machine_does_nothing() {
    let rules = rules_without_reactions();
    let sand = id(&rules, "sand");
    let mut grid = Grid::new(9, 10);
    grid.set(0, 8, sand);
    let mut press = Entity::sized(4, 0, 0, 1, 1);
    press.enabled = false;
    let mut machines = vec![press];
    let minted = sim_core::entities::tick(&mut grid, &mut machines, &rules.entities, &rules.elements, 1, 0);
    assert_eq!(minted, 0);
    assert_eq!(machines[0], press);
    assert_eq!(grid.get(0, 8), Some(sand));
}

#[test]
fn a_belt_on_the_last_tile_row_of_the_plane_gets_its_chassis() {
    let rules = rules_without_reactions();
    let mut world = World::new(3, rules.clone());
    let structure = id(&rules, "structure");
    // Its body ends one cell short of the last whole tile the plane holds.
    world.place(Entity::belt(3, 0, 238_609_293, 1));
    assert_eq!(world.get(4, 2_147_483_637), structure);
    assert_eq!(world.get(4, 2_147_483_645), structure);
    assert_eq!(world.get(4, 2_147_483_646), EMPTY, "the row below the body stays empty");
}

#[test]
fn a_vault_in_the_far_corner_of_the_plane_counts_and_pays() {
    let rules = rules_without_reactions();
    let mut world = World::new(3, rules.clone());
    let gold = id(&rules, "gold");
    world.place(Entity::sized(2, 238_609_293, 238_609_293, 1, 1));
    world.field_mut().set(2_147_483_645, 2_147_483_645, gold);
    world.field_mut().set(2_147_483_637, 2_147_483_637, gold);
    assert_eq!(world.stored(), 2);
    assert_eq!(world.spend(1), 1);
    assert_eq!(world.stored(), 1);
    assert_eq!(world.count_of(gold), 1);
}

#[test]
fn a_vault_is_never_blocked_wherever_it_stands() {
    let rules = rules();
    let definition = rules.entities.get(2).expect("vault");
    let field = ChunkMap::new();
    for (x, y) in [(i32::MAX, i32::MAX), (i32::MIN, i32::MIN), (0, 0)] {
        let vault = Entity::sized(2, x, y, 1, 1);
        assert!(!vault.is_blocked(definition, &field, &rules.elements));
    }
}

#[test]
fn a_zero_width_arena_walls_two_stub_columns() {
    let rules = rules_without_reactions();
    let structure = id(&rules, "structure");
    let world = scene::arena(0, 3, 1, &rules);
    for y in 0..3 {
        assert_eq!(world.get(0, y), structure);
        assert_eq!(world.get(-1, y), structure);
    }
    assert_eq!(world.get(1, 0), EMPTY);
    assert_eq!(world.get(0, 3), EMPTY);
    let nothing = scene::arena(0, 0, 1, &rules);
    assert_eq!(nothing.field().chunk_count(), 0);
}

#[test]
fn painting_a_tile_wakes_a_sleeping_chunk() {
    let mut map = ChunkMap::new();
    map.set(0, 0, 3);
    map.set_sleeping(true);
    map.begin_tick();
    assert_eq!(map.awake_chunk_count(), 1, "a new chunk runs once");
    map.begin_tick();
    assert_eq!(map.awake_chunk_count(), 0, "a quiet chunk sleeps");
    paint::tile(&mut map, 1, 1, 2);
    map.begin_tick();
    assert_eq!(map.awake_chunk_count(), 1);
    assert_eq!(map.get(13, 13), Some(2));
}

#[test]
fn with_sleeping_off_every_chunk_runs() {
    let mut map = ChunkMap::new();
    map.set(0, 0, 3);
    map.set(500, -500, 3);
    map.begin_tick();
    map.begin_tick();
    assert_eq!(map.awake_chunk_count(), map.chunk_count());
    assert_eq!(map.chunk_count(), 2);
}

#[test]
fn a_write_that_reports_nothing_waits_in_a_sleeping_chunk() {
    let rules = rules_without_reactions();
    let sand = id(&rules, "sand");
    let structure = id(&rules, "structure");
    let mut sleepy = World::new(5, rules.clone());
    let mut awake = World::new(5, rules.clone());
    sleepy.set_sleeping(true);
    for world in [&mut sleepy, &mut awake] {
        world.field_mut().set(5, 100, structure);
        world.step();
        world.step();
        world.field_mut().set(5, 10, sand);
        world.step();
    }
    assert_eq!(awake.get(5, 11), sand, "awake, the grain falls");
    assert_eq!(sleepy.get(5, 10), sand, "asleep, nothing reported the write");
    assert_ne!(awake.content_hash(), sleepy.content_hash());
}

#[test]
fn the_census_counts_each_cell_once() {
    let mut map = ChunkMap::new();
    map.set(143, 0, 4);
    map.set(144, 0, 4);
    map.set(-1, -1, 4);
    map.swap(143, 0, 143, 1);
    assert_eq!(map.count_of(4), 3);
    assert_eq!(map.chunk_count(), 3);
    map.set(144, 0, EMPTY);
    map.compact();
    assert_eq!(map.count_of(4), 2);
    assert_eq!(map.chunk_count(), 2);
}

#[test]
fn a_viewport_over_a_write_keeps_its_chunk_running() {
    let rules = rules_without_reactions();
    let sand = id(&rules, "sand");
    let structure = id(&rules, "structure");
    let mut world = World::new(5, rules.clone());
    world.set_sleeping(true);
    world.set_viewport(Some(Bounds { min_x: 0, min_y: 0, max_x: 20, max_y: 20 }), 0);
    world.field_mut().set(5, 100, structure);
    world.step();
    world.step();
    world.field_mut().set(5, 10, sand);
    world.step();
    assert_eq!(world.get(5, 11), sand);
    assert_eq!(world.get(5, 10), EMPTY);
}

#[test]
fn overlapping_vaults_count_a_shared_nugget_twice() {
    let rules = rules_without_reactions();
    let mut world = World::new(3, rules.clone());
    let gold = id(&rules, "gold");
    world.place(Entity::sized(2, 0, 0, 1, 1));
    world.place(Entity::sized(2, 0, 0, 1, 1));
    world.field_mut().set(4, 4, gold);
    assert_eq!(world.stored(), 2);
    assert_eq!(world.spend(1), 1);
    assert_eq!(world.stored(), 0, "the one nugget was both vaults' balance");
}

#[test]
fn a_stroke_wakes_every_chunk_it_paints() {
    let mut map = ChunkMap::new();
    map.set(0, 0, 3);
    map.set(300, 0, 3);
    map.set_sleeping(true);
    map.begin_tick();
    map.begin_tick();
    assert_eq!(map.awake_chunk_count(), 0);
    paint::stroke(&mut map, (0, 0), (40, 0), 2);
    map.begin_tick();
    assert_eq!(map.awake_chunk_count(), map.chunk_count());
    assert_eq!(map.get(360, 8), Some(2));
}

#[test]
fn one_machine_per_tile() {
    let rules = rules();
    let mut world = World::new(1, rules);
    assert!(world.place_if_free(Entity::sized(2, 0, 0, 2, 2)));
    assert!(!world.place_if_free(Entity::new(1, 1, 1, 2)), "the vault covers tile (1, 1)");
    assert_eq!(world.entities().len(), 1);
    assert!(world.place_if_free(Entity::new(1, 2, 0, 2)));
    assert_eq!(world.entities().len(), 2);
}

#[test]
fn sleeping_the_viewport_and_split_runs_never_change_a_sandbox() {
    let rules = rules_without_reactions();
    let mut asleep = scene::sandbox(60, 40, 9, &rules);
    let mut awake = scene::sandbox(60, 40, 9, &rules);
    asleep.set_sleeping(true);
    asleep.set_viewport(Some(Bounds { min_x: 0, min_y: 0, max_x: 4, max_y: 4 }), 0);
    asleep.step_many(25);
    asleep.step_many(35);
    awake.step_many(60);
    assert_eq!(asleep.tick(), awake.tick());
    assert_eq!(asleep.hash(), awake.hash());
    for y in 0..40 {
        for x in 0..60 {
            assert_eq!(asleep.get(x, y), awake.get(x, y));
        }
    }
}

#[test]
fn a_narrow_sandbox_one_row_high_matches_the_flat_one() {
    let rules = rules_without_reactions();
    let mut chunked = scene::sandbox(5, 1, 3, &rules);
    let mut flat = scene::sandbox_flat(5, 1, 3, &rules);
    assert_eq!(chunked.content_hash(), flat.content_hash());
    chunked.step_many(5);
    flat.step_many(5);
    assert_eq!(chunked.content_hash(), flat.content_hash());
}

#[test]
fn a_still_sandbox_conserves_every_element_and_its_void() {
    let rules = rules_without_reactions();
    let mut flat = scene::sandbox_flat(48, 36, 5, &rules);
    let mut chunked = scene::sandbox(48, 36, 5, &rules);
    let before_flat: Vec<usize> = (0..=7u8).map(|id| flat.count_of(id)).collect();
    let before_chunked: Vec<usize> = (1..=7u8).map(|id| chunked.count_of(id)).collect();
    flat.step_many(40);
    chunked.step_many(40);
    let after_flat: Vec<usize> = (0..=7u8).map(|id| flat.count_of(id)).collect();
    let after_chunked: Vec<usize> = (1..=7u8).map(|id| chunked.count_of(id)).collect();
    assert_eq!(before_flat, after_flat, "the void is conserved as well");
    assert_eq!(before_chunked, after_chunked);
    assert_eq!((flat.width(), flat.height()), (48, 36));
    assert_eq!(flat.cells().len(), 48 * 36);
}
