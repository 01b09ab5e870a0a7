//! Pictures of the world: cell colours, machines drawn over empty cells, and the
//! reaction contact count.

use sim_core::entities::Entity;
use sim_core::field::CellField;
use sim_core::render::{contact_area, draw_entities, render, render_cells};
use sim_core::rng;
use sim_core::sprites::{SpriteTable, SPRITE_SIZE};
use sim_core::{ReactionTable, Rules, World};

const VOID: [u8; 4] = [0x07, 0x08, 0x06, 255];
const SHELL: [u8; 4] = [0x6B, 0x69, 0x63, 255];

fn frame(ch: char) -> String {
    let row = format!("\"{}\"", ch.to_string().repeat(SPRITE_SIZE));
    format!("[{}]", vec![row; SPRITE_SIZE].join(","))
}

fn data() -> String {
    format!(
        r##"{{
  "elements": [
    {{"id":1,"name":"structure","state":"solid","density":999999,"melting_point":99999,
     "boiling_point":99999,"thermal_conductivity":0.5,"color":"#808080","color_variance":0,
     "flammability":0.0,"hardness":1.0}},
    {{"id":2,"name":"sand","state":"powder","density":1600,"melting_point":1900,
     "boiling_point":2500,"thermal_conductivity":0.27,"color":"#C8A24A","color_variance":8,
     "flammability":0.0,"hardness":0.5}},
    {{"id":3,"name":"water","state":"liquid","density":1000,"melting_point":273,
     "boiling_point":373,"thermal_conductivity":0.6,"color":"#3060C0","color_variance":0,
     "flammability":0.0,"hardness":0.0}}
  ],
  "reactions": [
    {{"reactants":["sand","water"],"products":["sand","sand"],"probability":0.5}}
  ],
  "entities": [
    {{"id":2,"name":"vault","behaviour":"store","tool":"vault","widthTiles":2,"heightTiles":1,
     "sprites":[{{"pixels":{}}}]}}
  ]
}}"##,
        frame('#')
    )
}

fn rules() -> Rules {
    Rules::from_json(&data()).expect("the test data should load")
}

fn pixel(frame: &[u8], width: usize, x: usize, y: usize) -> [u8; 4] {
    let i = (y * width + x) * 4;
    [frame[i], frame[i + 1], frame[i + 2], frame[i + 3]]
}

#[test]
fn empty_space_is_the_void_and_solid_matter_its_own_colour() {
    let mut world = World::new(1, rules());
    world.field_mut().set(1, 0, 1);
    let picture = render_cells(&world, 0, 0, 3, 2);
    assert_eq!(picture.len(), 3 * 2 * 4);
    assert_eq!(pixel(&picture, 3, 0, 0), VOID);
    assert_eq!(pixel(&picture, 3, 1, 0), [0x80, 0x80, 0x80, 255]);
    assert_eq!(pixel(&picture, 3, 2, 1), VOID);
    // A window elsewhere sees the same cell at its own offset.
    let shifted = render_cells(&world, -1, 0, 3, 1);
    assert_eq!(pixel(&shifted, 3, 2, 0), [0x80, 0x80, 0x80, 255]);
    assert_eq!(render_cells(&world, 0, 0, 0, 5).len(), 0);
}

#[test]
fn a_varied_colour_shifts_by_a_hash_of_the_position() {
    let mut world = World::new(1, rules());
    world.field_mut().set(4, -3, 2);
    let picture = render_cells(&world, 4, -3, 1, 1);
    let shift = rng::below(0x9e37, 0, 4, -3, 7, 17) as i32 - 8;
    let expected = [0xC8, 0xA2, 0x4A].map(|c: i32| (c + shift).clamp(0, 255) as u8);
    assert_eq!(&picture[..3], &expected);
    assert_eq!(picture[3], 255);
    // The same cell renders the same way every time.
    assert_eq!(render_cells(&world, 4, -3, 1, 1), picture);
}

#[test]
fn a_machine_is_drawn_over_empty_cells_and_buried_by_matter() {
    let rules = rules();
    let sprites = SpriteTable::from_json(&data()).expect("sprites");
    let mut world = World::new(1, rules);
    world.place(Entity::new(2, 1, 0, 0));
    // Sand inside the machine's second tile buries that pixel.
    world.field_mut().set(20, 4, 1);
    let width = 30;
    let picture = render(&world, &sprites, 0, 0, 0, width as u32, 10);
    assert_eq!(pixel(&picture, width, 8, 0), VOID, "left of the machine");
    assert_eq!(pixel(&picture, width, 9, 0), SHELL, "its first tile");
    assert_eq!(pixel(&picture, width, 26, 8), SHELL, "the repeat across its width");
    assert_eq!(pixel(&picture, width, 27, 0), VOID, "right of the machine");
    assert_eq!(pixel(&picture, width, 20, 4), [0x80, 0x80, 0x80, 255], "matter wins");
    assert_eq!(pixel(&picture, width, 12, 9), VOID, "below the machine");
}

#[test]
fn drawing_clips_to_the_window() {
    let rules = rules();
    let sprites = SpriteTable::from_json(&data()).expect("sprites");
    let mut world = World::new(1, rules);
    world.place(Entity::new(2, 0, 0, 0));
    let mut picture = render_cells(&world, 5, 5, 10, 10);
    draw_entities(&mut picture, &world, &sprites, 0, 5, 5, 10, 10);
    for y in 0..10 {
        for x in 0..10 {
            let inside = 5 + x < 18 && 5 + y < 9;
            let expected = if inside { SHELL } else { VOID };
            assert_eq!(pixel(&picture, 10, x, y), expected, "({}, {})", x, y);
        }
    }
}

#[test]
fn contacts_count_each_touching_reactive_pair_once() {
    let rules = rules();
    let mut world = World::new(1, rules.clone());
    assert_eq!(contact_area(&world), 0);
    world.field_mut().set(0, 0, 2);
    world.field_mut().set(1, 0, 3);
    assert_eq!(contact_area(&world), 1);
    world.field_mut().set(0, 1, 3);
    assert_eq!(contact_area(&world), 2);
    // Water touching water has no reaction.
    world.field_mut().set(1, 1, 3);
    assert_eq!(contact_area(&world), 2);
    let inert = Rules { elements: rules.elements, reactions: ReactionTable::default(), entities: rules.entities };
    let mut quiet = World::new(1, inert);
    quiet.field_mut().set(0, 0, 2);
    quiet.field_mut().set(1, 0, 3);
    assert_eq!(contact_area(&quiet), 0);
}
