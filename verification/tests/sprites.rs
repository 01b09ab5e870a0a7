//! Sprite rules: which pixel map a machine is drawn with.

use sim_core::elements::DataError;
use sim_core::entities::EntityTable;
use sim_core::ElementTable;
use sim_core::sprites::{colour_of, ink_at, Ink, SpriteTable, Status, SPRITE_SIZE};
use sim_core::State;

/// One frame: nine rows of nine copies of `ch`.
fn frame(ch: char) -> String {
    let row = format!("\"{}\"", ch.to_string().repeat(SPRITE_SIZE));
    format!("[{}]", vec![row; SPRITE_SIZE].join(","))
}

fn sprite(when: &str, pixels: &str) -> String {
    if when.is_empty() {
        format!("{{\"pixels\":{}}}", pixels)
    } else {
        format!("{{\"when\":{},\"pixels\":{}}}", when, pixels)
    }
}

fn entity(id: u32, sprites: &[String]) -> String {
    format!("{{\"id\":{},\"name\":\"m{}\",\"sprites\":[{}]}}", id, id, sprites.join(","))
}

fn table(entities: &[String]) -> String {
    format!("{{\"entities\":[{}]}}", entities.join(","))
}

fn shipped() -> SpriteTable {
    let belt = entity(
        1,
        &[
            sprite("{\"status\":\"running\"}", &format!("[{},{}]", frame('#'), frame('='))),
            sprite("{\"status\":\"blocked\"}", &frame('\'')),
            sprite("{\"elementState\":\"liquid\"}", &frame('o')),
        ],
    );
    let compactor = entity(
        3,
        &[
            sprite("{\"row\":0}", &frame('#')),
            sprite("{\"row\":1}", &format!("[{},{}]", frame('o'), frame('='))),
        ],
    );
    let filter = entity(
        4,
        &[
            sprite("{\"element\":\"sand\"}", &frame('=')),
            sprite("", &frame('#')),
        ],
    );
    SpriteTable::from_json(&table(&[belt, compactor, filter, "{\"id\":2}".to_string()]))
        .expect("sprites")
}

fn filled(ch: u8) -> Vec<u8> {
    vec![ch; SPRITE_SIZE * SPRITE_SIZE]
}

#[test]
fn an_animated_rule_cycles_its_frames_by_the_counter() {
    let t = shipped();
    let frame0 = t.pick(1, "", None, Status::Running, 0, 0);
    let frame1 = t.pick(1, "", None, Status::Running, 1, 0);
    assert_eq!(frame0, Some(filled(b'#').as_slice()));
    assert_eq!(frame1, Some(filled(b'=').as_slice()));
    assert_ne!(frame0, frame1);
    // The counter wraps rather than running off the end.
    assert_eq!(t.pick(1, "", None, Status::Running, 2, 0), frame0);
    assert_eq!(t.pick(1, "", None, Status::Running, 7, 0), frame1);
    // A single-frame rule ignores the counter.
    assert_eq!(t.pick(1, "", None, Status::Blocked, 5, 0), Some(filled(b'\'').as_slice()));
}

#[test]
fn the_first_matching_rule_wins_and_unmatched_draws_nothing() {
    let t = shipped();
    // Running matches the first rule even when the element is a liquid.
    assert_eq!(
        t.pick(1, "water", Some(State::Liquid), Status::Running, 0, 0),
        Some(filled(b'#').as_slice())
    );
    // Disabled falls through to the state rule, or to nothing.
    assert_eq!(
        t.pick(1, "water", Some(State::Liquid), Status::Disabled, 0, 0),
        Some(filled(b'o').as_slice())
    );
    assert_eq!(t.pick(1, "sand", Some(State::Powder), Status::Disabled, 0, 0), None);
    assert_eq!(t.pick(1, "", None, Status::Disabled, 0, 0), None);
}

#[test]
fn a_tall_machine_draws_a_different_sprite_per_row() {
    let t = shipped();
    let gantry = t.pick(3, "", None, Status::Running, 0, 0);
    let ram = t.pick(3, "", None, Status::Running, 0, 1);
    assert!(gantry.is_some() && ram.is_some());
    assert_ne!(gantry, ram);
    assert_ne!(ram, t.pick(3, "", None, Status::Running, 1, 1), "the ram animates");
    assert_eq!(gantry, t.pick(3, "", None, Status::Running, 1, 0), "the gantry holds still");
    assert_eq!(t.pick(3, "", None, Status::Running, 0, 2), None);
}

#[test]
fn an_element_rule_singles_one_out_and_a_bare_rule_is_the_fallback() {
    let t = shipped();
    assert_eq!(t.pick(4, "sand", Some(State::Powder), Status::Blocked, 0, 0), Some(filled(b'=').as_slice()));
    assert_eq!(t.pick(4, "gold", Some(State::Powder), Status::Blocked, 0, 0), Some(filled(b'#').as_slice()));
    assert_eq!(t.pick(4, "sandy", None, Status::Running, 0, 3), Some(filled(b'#').as_slice()));
}

#[test]
fn kinds_without_rules_or_beyond_the_table_draw_nothing() {
    let t = shipped();
    assert_eq!(t.pick(2, "", None, Status::Running, 0, 0), None);
    assert_eq!(t.pick(0, "", None, Status::Running, 0, 0), None);
    assert_eq!(t.pick(200, "", None, Status::Running, 0, 0), None);
    let empty = SpriteTable::from_json("{}").expect("no entities is fine");
    assert_eq!(empty.pick(1, "", None, Status::Running, 0, 0), None);
    let not_array = SpriteTable::from_json("{\"entities\":3}").expect("ignored");
    assert_eq!(not_array.pick(1, "", None, Status::Running, 0, 0), None);
}

#[test]
fn a_later_entry_replaces_an_earlier_one_for_the_same_kind() {
    let doc = table(&[
        entity(1, &[sprite("", &frame('#'))]),
        entity(1, &[sprite("", &frame('='))]),
    ]);
    let t = SpriteTable::from_json(&doc).expect("sprites");
    assert_eq!(t.pick(1, "", None, Status::Running, 0, 0), Some(filled(b'=').as_slice()));
}

#[test]
fn malformed_sprites_are_refused_with_the_field_at_fault() {
    let short_rows = format!("[{}]", vec!["\"#########\""; SPRITE_SIZE - 1].join(","));
    let mut rows = vec!["\"#########\"".to_string(); SPRITE_SIZE];
    rows[4] = "\"########\"".to_string();
    let sheared = format!("[{}]", rows.join(","));
    rows[4] = "7".to_string();
    let not_text = format!("[{}]", rows.join(","));
    let cases: Vec<(String, DataError)> = vec![
        (table(&[entity(1, &[sprite("", &short_rows)])]), DataError::BadField { field: "pixels" }),
        (table(&[entity(1, &[sprite("", &sheared)])]), DataError::BadField { field: "pixels" }),
        (table(&[entity(1, &[sprite("", &not_text)])]), DataError::BadField { field: "pixels" }),
        (
            table(&[entity(1, &[sprite("", &format!("[{},3]", frame('#')))])]),
            DataError::BadField { field: "pixels" },
        ),
        (
            table(&[entity(1, &["{\"when\":{}}".to_string()])]),
            DataError::MissingField { field: "pixels" },
        ),
        (
            table(&[entity(1, &[sprite("{\"status\":\"asleep\"}", &frame('#'))])]),
            DataError::BadField { field: "status" },
        ),
        (
            table(&[entity(1, &[sprite("{\"elementState\":\"plasma\"}", &frame('#'))])]),
            DataError::BadField { field: "elementState" },
        ),
        (
            table(&[entity(1, &[sprite("{\"row\":-1}", &frame('#'))])]),
            DataError::BadField { field: "row" },
        ),
        (
            table(&[entity(1, &[sprite("{\"row\":\"top\"}", &frame('#'))])]),
            DataError::BadField { field: "row" },
        ),
        (
            table(&["{\"name\":\"anonymous\"}".to_string()]),
            DataError::MissingField { field: "id" },
        ),
        (
            table(&["{\"id\":300}".to_string()]),
            DataError::MissingField { field: "id" },
        ),
    ];
    for (doc, expected) in cases {
        match SpriteTable::from_json(&doc) {
            Err(e) => assert_eq!(format!("{:?}", e), format!("{:?}", expected), "{}", doc),
            Ok(_) => panic!("accepted {}", doc),
        }
    }
    assert!(matches!(SpriteTable::from_json("{"), Err(DataError::Json(_))));
}

#[test]
fn the_state_condition_is_checked_before_the_status() {
    let doc = table(&[entity(
        1,
        &[sprite("{\"elementState\":\"plasma\",\"status\":\"asleep\",\"row\":-2}", &frame('#'))],
    )]);
    match SpriteTable::from_json(&doc) {
        Err(DataError::BadField { field }) => assert_eq!(field, "elementState"),
        other => panic!("{:?}", other.map(|_| ())),
    }
}

#[test]
fn ink_reads_the_pixel_roles() {
    let mut pixels = filled(b' ');
    pixels[0] = b'#';
    pixels[1] = b'=';
    pixels[SPRITE_SIZE] = b'\'';
    pixels[SPRITE_SIZE * SPRITE_SIZE - 1] = b'o';
    assert_eq!(ink_at(&pixels, 0, 0), Ink::Shell);
    assert_eq!(ink_at(&pixels, 1, 0), Ink::ShellDark);
    assert_eq!(ink_at(&pixels, 0, 1), Ink::Trim);
    assert_eq!(ink_at(&pixels, SPRITE_SIZE - 1, SPRITE_SIZE - 1), Ink::Mouth);
    assert_eq!(ink_at(&pixels, 2, 2), Ink::Clear);
    // Outside the sprite there is nothing, not a panic.
    assert_eq!(ink_at(&pixels, SPRITE_SIZE, 0), Ink::Clear);
    assert_eq!(ink_at(&pixels, 0, SPRITE_SIZE), Ink::Clear);
}

#[test]
fn only_the_mouth_takes_the_element_colour() {
    let sand = [0xC8, 0xA2, 0x4A];
    assert_eq!(colour_of(Ink::Clear, sand), None);
    assert_eq!(colour_of(Ink::Shell, sand), Some([0x6B, 0x69, 0x63]));
    assert_eq!(colour_of(Ink::ShellDark, sand), Some([0x3A, 0x39, 0x36]));
    assert_eq!(colour_of(Ink::Trim, sand), Some([0x8B, 0x89, 0x82]));
    assert_eq!(colour_of(Ink::Mouth, sand), Some(sand));
}

/// Element and machine data in the shape the game ships: machine rows carry their
/// sprite rules beside their definitions.
fn shipped_data() -> (String, String) {
    let elements = r##"{"elements":[
      {"id":1,"name":"structure","state":"solid","density":999999,"melting_point":99999,
       "boiling_point":99999,"thermal_conductivity":0.5,"color":"#808080","color_variance":0,
       "flammability":0.0,"hardness":1.0}
    ]}"##
        .to_string();
    let belt_running = format!("[{},{}]", frame('#'), frame('='));
    let compactor_ram = format!("[{},{}]", frame('o'), frame('='));
    let entities = format!(
        "{{\"entities\":[\
         {{\"id\":1,\"name\":\"belt\",\"behaviour\":\"belt\",\"tool\":\"belt\",\"widthTiles\":1,\"heightTiles\":1,\"chassis\":\"structure\",\
           \"sprites\":[{},{}]}},\
         {{\"id\":2,\"name\":\"compactor\",\"behaviour\":\"store\",\"tool\":\"compactor\",\"widthTiles\":1,\"heightTiles\":2,\
           \"sprites\":[{},{}]}}]}}",
        sprite("{\"status\":\"running\"}", &belt_running),
        sprite("{\"status\":\"blocked\"}", &frame('\'')),
        sprite("{\"row\":0}", &frame('#')),
        sprite("{\"row\":1}", &compactor_ram),
    );
    (elements, entities)
}

#[test]
fn the_shipped_belt_animation_has_two_distinct_frames() {
    let (elements_json, entities_json) = shipped_data();
    let elements = ElementTable::from_json(&elements_json).expect("elements");
    let entities = EntityTable::from_json(&entities_json, &elements).expect("entities");
    let table = SpriteTable::from_json(&entities_json).expect("sprites");
    let belt_kind = entities.id_of("belt").expect("belt kind");

    let frame0 = table.pick(belt_kind, "", None, Status::Running, 0, 0);
    let frame1 = table.pick(belt_kind, "", None, Status::Running, 1, 0);
    assert!(frame0.is_some() && frame1.is_some(), "the running sprite should resolve");
    assert_ne!(frame0, frame1, "the two animation frames should differ");
    // The frame index wraps rather than panicking on an out-of-range counter.
    assert_eq!(table.pick(belt_kind, "", None, Status::Running, 2, 0), frame0);

    assert!(
        table.pick(belt_kind, "", None, Status::Blocked, 0, 0).is_some(),
        "the single-frame blocked sprite should still resolve"
    );
}

#[test]
fn the_shipped_compactor_draws_a_different_sprite_per_row() {
    let (elements_json, entities_json) = shipped_data();
    let elements = ElementTable::from_json(&elements_json).expect("elements");
    let entities = EntityTable::from_json(&entities_json, &elements).expect("entities");
    let table = SpriteTable::from_json(&entities_json).expect("sprites");

    let kind = entities.id_of("compactor").expect("compactor kind");
    let definition = entities.get(kind).expect("compactor");
    assert!(definition.height_tiles > 1, "this test needs a multi-tile machine");

    let gantry = table.pick(kind, "", None, Status::Running, 0, 0);
    let ram = table.pick(kind, "", None, Status::Running, 0, 1);
    assert!(gantry.is_some() && ram.is_some(), "both rows should resolve");
    assert_ne!(gantry, ram, "the two rows should not be the same tile twice");

    // The ram strokes; the gantry it hangs from does not.
    assert_ne!(ram, table.pick(kind, "", None, Status::Running, 1, 1), "the ram should animate");
    assert_eq!(gantry, table.pick(kind, "", None, Status::Running, 1, 0), "the gantry should hold still");
}
