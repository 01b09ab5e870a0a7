//! A deterministic starting world, shared by the tests and the verification harness.
//!
//! One placement routine feeds both the flat and the chunked builder. If they laid out
//! their worlds separately, comparing them could pass or fail for setup reasons rather
//! than for anything to do with chunking.

use vstd::prelude::*;
use vstd::string::StringSliceAdditionalSpecFns;
use crate::elements::{ElementId, ElementTable, EMPTY, first_named};
use crate::field::{CellField, shape_kept};
use crate::rng;
use crate::grid::lemma_index_in_range;
use crate::heat::AMBIENT_TEMPERATURE;
use crate::rules::Rules;
use crate::world::{FlatWorld, World};
use crate::grid::Grid;
use crate::heat;
use crate::transparent::{in_grid, inert_wall, on_rim, walled_alike};

verus! {

/// Whether `(x, y)` lies on the one-cell frame of a `width` by `height` box at the
/// origin.
pub open spec fn on_frame(width: int, height: int, x: int, y: int) -> bool {
    0 <= x < width && 0 <= y < height && (x == 0 || y == 0 || x == width - 1 || y == height - 1)
}

/// Whether the table names the three elements the sandbox is built from.
pub open spec fn has_scene_elements(table: ElementTable) -> bool {
    &&& first_named(table@, "structure".spec_bytes(), 0) is Some
    &&& first_named(table@, "sand".spec_bytes(), 0) is Some
    &&& first_named(table@, "water".spec_bytes(), 0) is Some
}

/// Every cell of the field is at ambient temperature.
pub open spec fn cold<F: CellField>(f: F) -> bool {
    forall|x: i32, y: i32| #[trigger] f.heat_at(x, y) == AMBIENT_TEMPERATURE
}

/// A write keeps a cold field cold: it either keeps a cell's temperature or, writing
/// empty space, resets it to ambient.
proof fn lemma_write_cold<F: CellField>(before: F, after: F, x: i32, y: i32)
    requires
        cold(before),
        after.heat_at(x, y) == AMBIENT_TEMPERATURE || after.heat_at(x, y) == before.heat_at(x, y),
        forall|i: i32, j: i32|
            !(i == x && j == y) ==> #[trigger] after.cell(i, j) == before.cell(i, j) && after.heat_at(i, j) == before.heat_at(i, j),
    ensures
        cold(after),
{
    assert forall|i: i32, j: i32| #[trigger] after.heat_at(i, j) == AMBIENT_TEMPERATURE by {
        if !(i == x && j == y) {
            assert(after.cell(i, j) == before.cell(i, j));
        }
    }
}

/// Fills an inclusive rectangle.
fn fill<F: CellField>(field: &mut F, x0: i32, y0: i32, x1: i32, y1: i32, id: ElementId)
    requires
        old(field).field_inv(),
    ensures
        final(field).field_inv(),
        shape_kept(*old(field), *final(field)),
        cold(*old(field)) ==> cold(*final(field)),
        old(field).all_active() ==> final(field).all_active(),
        forall|x: i32, y: i32| #[trigger] final(field).cell(x, y) == (if x0 <= x <= x1 && y0 <= y <= y1 && old(field).cell(x, y) is Some {
            Some(id)
        } else {
            old(field).cell(x, y)
        }),
{
    let mut y: i64 = y0 as i64;
    while y <= y1 as i64
        invariant
            field.field_inv(),
            shape_kept(*old(field), *field),
            cold(*old(field)) ==> cold(*field),
            old(field).all_active() ==> field.all_active(),
            y0 <= y,
            y <= y1 + 1 || y == y0,
            forall|i: i32, j: i32| #[trigger] field.cell(i, j) == (if x0 <= i <= x1 && y0 <= j < y && old(field).cell(i, j) is Some {
                Some(id)
            } else {
                old(field).cell(i, j)
            }),
        decreases y1 - y + 1,
    {
        let mut x: i64 = x0 as i64;
        while x <= x1 as i64
            invariant
                field.field_inv(),
                shape_kept(*old(field), *field),
                cold(*old(field)) ==> cold(*field),
                old(field).all_active() ==> field.all_active(),
                y0 <= y <= y1,
                x0 <= x,
                x <= x1 + 1 || x == x0,
                forall|i: i32, j: i32| #[trigger] field.cell(i, j) == (if x0 <= i <= x1 && (y0 <= j < y || (j == y && i < x))
                    && old(field).cell(i, j) is Some {
                    Some(id)
                } else {
                    old(field).cell(i, j)
                }),
            decreases x1 - x + 1,
        {
            let ghost before = *field;
            let (xi, yi) = (x as i32, y as i32);
            field.set(xi, yi, id);
            proof {
                if cold(before) {
                    lemma_write_cold(before, *field, xi, yi);
                }
                assert forall|i: i32, j: i32| #[trigger] field.cell(i, j) == (if x0 <= i <= x1 && (y0 <= j < y || (j == y && i
                    < x + 1)) && old(field).cell(i, j) is Some {
                    Some(id)
                } else {
                    old(field).cell(i, j)
                }) by {
                    if !(i == xi && j == yi) {
                        assert(field.cell(i, j) == before.cell(i, j));
                    }
                }
            }
            x = x + 1;
        }
        y = y + 1;
    }
}

pub open spec fn in_rect(x: int, y: int, x0: int, y0: int, x1: int, y1: int) -> bool {
    x0 <= x <= x1 && y0 <= y <= y1
}

/// The sandbox's walls: a one-cell frame, two ledges, and a divider.
pub open spec fn in_walls(width: int, height: int, x: int, y: int) -> bool {
    let right = width - 1;
    let bottom = height - 1;
    let third = right / 3;
    let two_thirds = 2 * right / 3;
    ||| in_rect(x, y, 0, 0, right, 0)
    ||| in_rect(x, y, 0, bottom, right, bottom)
    ||| in_rect(x, y, 0, 0, 0, bottom)
    ||| in_rect(x, y, right, 0, right, bottom)
    ||| in_rect(x, y, 2, bottom / 2, third, bottom / 2)
    ||| in_rect(x, y, two_thirds, bottom / 3, right - 2, bottom / 3)
    ||| (third <= i32::MAX - 4 && in_rect(x, y, third + 4, bottom / 2, third + 4, bottom - 1))
}

/// A cell once the walls are up.
pub open spec fn walled_cell(before: Option<ElementId>, width: int, height: int, structure: ElementId, x: i32, y: i32) -> Option<ElementId> {
    if before is Some && in_walls(width, height, x as int, y as int) {
        Some(structure)
    } else {
        before
    }
}

/// The hashed draw that decides a charge cell, the same for each 8 by 8 block.
pub open spec fn charge_draw(seed: u64, x: i32, y: i32) -> u32 {
    rng::below_spec(seed, 0, x >> 3u32, y >> 3u32, 0, 100)
}

/// A cell of the finished sandbox: across the top third, an empty cell inside the frame
/// takes sand on a draw under 45, water under 80, and otherwise stays empty.
pub open spec fn scene_cell(before: Option<ElementId>, width: int, height: int, seed: u64, structure: ElementId, sand: ElementId, water: ElementId, x: i32, y: i32) -> Option<ElementId> {
    let walled = walled_cell(before, width, height, structure, x, y);
    if 1 <= x < width - 1 && 1 <= y < (height - 1) / 3 && walled == Some(EMPTY) && charge_draw(seed, x, y) < 80 {
        Some(if charge_draw(seed, x, y) < 45 { sand } else { water })
    } else {
        walled
    }
}

/// The ids the sandbox is built from.
pub open spec fn scene_ids(table: ElementTable) -> (ElementId, ElementId, ElementId) {
    (
        first_named(table@, "structure".spec_bytes(), 0).unwrap(),
        first_named(table@, "sand".spec_bytes(), 0).unwrap(),
        first_named(table@, "water".spec_bytes(), 0).unwrap(),
    )
}

/// Places the sandbox: a closed box with two ledges and a divider in it, and a charge
/// of sand and water across the top third, mixed in coarse blocks by position hash.
fn build<F: CellField>(width: u32, height: u32, seed: u64, table: &ElementTable, field: &mut F)
    requires
        old(field).field_inv(),
        has_scene_elements(*table),
        1 <= width <= i32::MAX,
        1 <= height <= i32::MAX,
    ensures
        final(field).field_inv(),
        shape_kept(*old(field), *final(field)),
        cold(*old(field)) ==> cold(*final(field)),
        old(field).all_active() ==> final(field).all_active(),
        forall|x: i32, y: i32| #[trigger] final(field).cell(x, y) == scene_cell(
            old(field).cell(x, y),
            width as int,
            height as int,
            seed,
            scene_ids(*table).0,
            scene_ids(*table).1,
            scene_ids(*table).2,
            x,
            y,
        ),
{
    let structure = table.id_of("structure").unwrap();
    let sand = table.id_of("sand").unwrap();
    let water = table.id_of("water").unwrap();

    let right: i32 = width as i32 - 1;
    let bottom: i32 = height as i32 - 1;
    let ghost start = *field;
    let ghost w = width as int;
    let ghost h = height as int;

    // A one-cell frame. Nothing enters or leaves.
    fill(field, 0, 0, right, 0, structure);
    fill(field, 0, bottom, right, bottom, structure);
    fill(field, 0, 0, 0, bottom, structure);
    fill(field, right, 0, right, bottom, structure);
    // Two ledges and a divider, so material has to find its way around something.
    let third: i32 = right / 3;
    let two_thirds: i32 = ((2 * right as i64) / 3) as i32;
    fill(field, 2, bottom / 2, third, bottom / 2, structure);
    fill(field, two_thirds, bottom / 3, right - 2, bottom / 3, structure);
    if third <= i32::MAX - 4 {
        fill(field, third + 4, bottom / 2, third + 4, bottom - 1, structure);
    }
    let ghost walled = *field;
    proof {
        assert forall|x: i32, y: i32| #[trigger] walled.cell(x, y) == walled_cell(start.cell(x, y), w, h, structure, x, y) by {
        }
    }

    // A charge of material across the top third, by position hash in coarse blocks so
    // the two materials arrive in pockets that have to interact.
    let fill_bottom: i32 = bottom / 3;
    let mut y: i32 = 1;
    while y < fill_bottom
        invariant
            1 <= y,
            y <= fill_bottom || y == 1,
            field.field_inv(),
            shape_kept(*old(field), *field),
            cold(*old(field)) ==> cold(*field),
            old(field).all_active() ==> field.all_active(),
            right == width - 1,
            fill_bottom == (height - 1) / 3,
            w == width,
            h == height,
            (structure, sand, water) == scene_ids(*table),
            forall|i: i32, j: i32| #[trigger] walled.cell(i, j) == walled_cell(start.cell(i, j), w, h, structure, i, j),
            forall|i: i32, j: i32| #[trigger] field.cell(i, j) == (if j < y {
                scene_cell(start.cell(i, j), w, h, seed, structure, sand, water, i, j)
            } else {
                walled.cell(i, j)
            }),
        decreases fill_bottom - y,
    {
        let mut x: i32 = 1;
        while x < right
            invariant
                1 <= x,
                x <= right || x == 1,
                1 <= y < fill_bottom,
                field.field_inv(),
                shape_kept(*old(field), *field),
                cold(*old(field)) ==> cold(*field),
                old(field).all_active() ==> field.all_active(),
                right == width - 1,
                fill_bottom == (height - 1) / 3,
                w == width,
                h == height,
                (structure, sand, water) == scene_ids(*table),
                forall|i: i32, j: i32| #[trigger] walled.cell(i, j) == walled_cell(start.cell(i, j), w, h, structure, i, j),
                forall|i: i32, j: i32| #[trigger] field.cell(i, j) == (if j < y || (j == y && 1 <= i < x) {
                    scene_cell(start.cell(i, j), w, h, seed, structure, sand, water, i, j)
                } else {
                    walled.cell(i, j)
                }),
            decreases right - x,
        {
            let ghost before = *field;
            if field.get(x, y) == Some(EMPTY) {
                let draw = rng::below(seed, 0, x >> 3u32, y >> 3u32, 0, 100);
                let chosen: Option<ElementId> = if draw < 45 {
                    Some(sand)
                } else if draw < 80 {
                    Some(water)
                } else {
                    None
                };
                match chosen {
                    Some(id) => {
                        let ghost unset = *field;
                        field.set(x, y, id);
                        proof {
                            if cold(unset) {
                                lemma_write_cold(unset, *field, x, y);
                            }
                        }
                    },
                    None => {},
                }
            }
            proof {
                assert forall|i: i32, j: i32| #[trigger] field.cell(i, j) == (if j < y || (j == y && 1 <= i < x + 1) {
                    scene_cell(start.cell(i, j), w, h, seed, structure, sand, water, i, j)
                } else {
                    walled.cell(i, j)
                }) by {
                    if !(i == x && j == y) {
                        assert(field.cell(i, j) == before.cell(i, j));
                        if j == y && i < 1 {
                            assert(scene_cell(start.cell(i, j), w, h, seed, structure, sand, water, i, j) == walled.cell(i, j));
                        }
                    } else {
                        assert(before.cell(x, y) == walled.cell(x, y));
                    }
                }
            }
            x = x + 1;
        }
        proof {
            assert forall|i: i32, j: i32| #[trigger] field.cell(i, j) == (if j < y + 1 {
                scene_cell(start.cell(i, j), w, h, seed, structure, sand, water, i, j)
            } else {
                walled.cell(i, j)
            }) by {
                if j == y && !(1 <= i < x) {
                    assert(scene_cell(start.cell(i, j), w, h, seed, structure, sand, water, i, j) == walled.cell(i, j));
                }
            }
        }
        y = y + 1;
    }
    proof {
        assert forall|i: i32, j: i32| #[trigger] field.cell(i, j) == scene_cell(start.cell(i, j), w, h, seed, structure, sand, water, i, j) by {
            if j >= y {
                assert(scene_cell(start.cell(i, j), w, h, seed, structure, sand, water, i, j) == walled.cell(i, j));
            }
        }
    }
}

/// The sandbox on chunked storage.
pub fn sandbox(width: u32, height: u32, seed: u64, rules: &Rules) -> (r: World)
    requires
        has_scene_elements(rules.elements),
        1 <= width <= i32::MAX,
        1 <= height <= i32::MAX,
    ensures
        r.wf(),
        r.spec_seed() == seed,
        r.spec_tick() == 0,
        r.spec_entities().len() == 0,
        r.spec_collected() == 0,
        !r.spec_field().is_sleeping(),
        cold(r.spec_field()),
        crate::world::faithful(r.spec_field(), r.spec_rules().elements@),
        forall|x: i32, y: i32|
            on_frame(width as int, height as int, x as int, y as int) ==> #[trigger] r.spec_field().cell(x, y) == Some(
                first_named(rules.elements@, "structure".spec_bytes(), 0).unwrap(),
            ),
        forall|x: i32, y: i32| #[trigger] r.spec_field().cell(x, y) == scene_cell(
            Some(EMPTY),
            width as int,
            height as int,
            seed,
            scene_ids(rules.elements).0,
            scene_ids(rules.elements).1,
            scene_ids(rules.elements).2,
            x,
            y,
        ),
{
    let mut world = World::new(seed, rules.clone());
    let field = world.field_mut();
    proof {
        assert forall|x: i32, y: i32| #[trigger] field.heat_at(x, y) == AMBIENT_TEMPERATURE by {
            field.lemma_field(x, y);
        }
    }
    build(width, height, seed, &rules.elements, field);
    proof {
        crate::world::lemma_all_active_faithful(world.spec_field(), world.spec_rules().elements@);
    }
    world
}

/// A new grid is empty inside, has no cells outside, and is cold.
proof fn lemma_fresh_grid(g: Grid, width: u32, height: u32)
    requires
        g.wf(),
        g.spec_width() == width,
        g.spec_height() == height,
        forall|i: int| 0 <= i < g.area() ==> #[trigger] g.spec_cells()[i] == EMPTY,
    ensures
        forall|x: i32, y: i32| #[trigger] g.cell(x, y) == (if 0 <= x < width && 0 <= y < height {
            Some(EMPTY)
        } else {
            None
        }),
        cold(g),
{
    assert forall|x: i32, y: i32| #[trigger] g.cell(x, y) == (if 0 <= x < width && 0 <= y < height {
        Some(EMPTY)
    } else {
        None
    }) by {
        if g.inside(x, y) {
            lemma_index_in_range(x as int, y as int, width as int, height as int);
        }
    }
    assert forall|x: i32, y: i32| #[trigger] g.heat_at(x, y) == AMBIENT_TEMPERATURE by {
        g.lemma_field(x, y);
        assert(g.cell(x, y) == g.cell(x, y));
    }
}

/// The same sandbox on the flat reference storage.
pub fn sandbox_flat(width: u32, height: u32, seed: u64, rules: &Rules) -> (r: FlatWorld)
    requires
        has_scene_elements(rules.elements),
        1 <= width <= i32::MAX,
        1 <= height <= i32::MAX,
        width * height <= usize::MAX,
    ensures
        r.wf(),
        r.spec_seed() == seed,
        r.spec_tick() == 0,
        r.spec_entities().len() == 0,
        r.spec_collected() == 0,
        r.spec_field().spec_width() == width,
        r.spec_field().spec_height() == height,
        cold(r.spec_field()),
        forall|x: i32, y: i32|
            on_frame(width as int, height as int, x as int, y as int) ==> #[trigger] r.spec_field().cell(x, y) == Some(
                first_named(rules.elements@, "structure".spec_bytes(), 0).unwrap(),
            ),
        forall|x: i32, y: i32| #[trigger] r.spec_field().cell(x, y) == scene_cell(
            if 0 <= x < width && 0 <= y < height {
                Some(EMPTY)
            } else {
                None
            },
            width as int,
            height as int,
            seed,
            scene_ids(rules.elements).0,
            scene_ids(rules.elements).1,
            scene_ids(rules.elements).2,
            x,
            y,
        ),
{
    let mut world = FlatWorld::new(width, height, seed, rules.clone());
    let field = world.field_mut();
    let ghost start = *field;
    proof {
        lemma_fresh_grid(start, width, height);
    }
    build(width, height, seed, &rules.elements, field);
    world
}

/// Whether cell `(x, y)` is walled in an arena of this size: the top and bottom rows
/// across its width, and the left and right columns down its height. For a positive
/// size this is the frame; a zero size leaves a stub of wall on the other axis.
pub open spec fn arena_wall(width: int, height: int, x: int, y: int) -> bool {
    let right = width - 1;
    let bottom = height - 1;
    (0 <= x <= right && (y == 0 || y == bottom)) || (0 <= y <= bottom && (x == 0 || x == right))
}

/// A positive-sized arena is walled exactly on its frame.
pub proof fn lemma_arena_frame(width: int, height: int, x: int, y: int)
    requires
        1 <= width,
        1 <= height,
    ensures
        arena_wall(width, height, x, y) == on_frame(width, height, x, y),
{
}

/// An empty arena for the player to build in: walls on all four sides, nothing inside.
/// The world is infinite and nothing yet holds it up, so enclosing the playable area
/// keeps material from falling forever.
pub fn arena(width: u32, height: u32, seed: u64, rules: &Rules) -> (r: World)
    requires
        first_named(rules.elements@, "structure".spec_bytes(), 0) is Some,
        width <= i32::MAX,
        height <= i32::MAX,
    ensures
        r.wf(),
        r.spec_seed() == seed,
        r.spec_tick() == 0,
        r.spec_entities().len() == 0,
        forall|x: i32, y: i32| #[trigger] r.spec_field().cell(x, y) == Some(
            if arena_wall(width as int, height as int, x as int, y as int) {
                first_named(rules.elements@, "structure".spec_bytes(), 0).unwrap()
            } else {
                EMPTY
            },
        ),
{
    let structure = rules.elements.id_of("structure").unwrap();
    let mut world = World::new(seed, rules.clone());
    let right: i32 = width as i32 - 1;
    let bottom: i32 = height as i32 - 1;
    let field = world.field_mut();
    fill(field, 0, 0, right, 0, structure);
    fill(field, 0, bottom, right, bottom, structure);
    fill(field, 0, 0, 0, bottom, structure);
    fill(field, right, 0, right, bottom, structure);
    world
}


/// What a sandbox cell starts from decides whether it is a cell at all.
proof fn lemma_scene_cell_kind(before: Option<ElementId>, width: int, height: int, seed: u64, structure: ElementId, sand: ElementId, water: ElementId, x: i32, y: i32)
    ensures
        scene_cell(before, width, height, seed, structure, sand, water, x, y) is Some == before is Some,
        (6 <= width || height == 1) && 1 <= width && 1 <= height && !(0 <= x < width && 0 <= y < height) ==> scene_cell(
            before,
            width,
            height,
            seed,
            structure,
            sand,
            water,
            x,
            y,
        ) == before,
        on_frame(width, height, x as int, y as int) && before is Some && structure != EMPTY ==> scene_cell(
            before,
            width,
            height,
            seed,
            structure,
            sand,
            water,
            x,
            y,
        ) == Some(structure),
{
    let right = width - 1;
    let bottom = height - 1;
    if height == 1 && 1 <= width && width < 6 {
        assert(0 <= 2 * right / 3 && right / 3 <= 1) by (nonlinear_arith)
            requires
                0 <= right < 5,
        ;
    }
    if 6 <= width && 1 <= height {
        assert(0 <= right / 3 && right / 3 + 4 <= right) by (nonlinear_arith)
            requires
                right >= 5,
        ;
        assert(0 <= 2 * right / 3) by (nonlinear_arith)
            requires
                right >= 5,
        ;
        assert(0 <= bottom / 2 <= bottom && 0 <= bottom / 3 <= bottom) by (nonlinear_arith)
            requires
                bottom >= 0,
        ;
    }
}

/// The sandbox stands in a frame of structure. Where structure is inert wall, the
/// chunked sandbox and the flat one are walled in alike, once the box is wide enough
/// for its divider to stand inside it, or one row high so that it has no divider: in a
/// narrower, taller one the divider lands beyond the frame, which the flat world has no
/// cells for.
pub proof fn lemma_sandboxes_walled(flat: FlatWorld, chunked: World, width: u32, height: u32, seed: u64, rules: Rules)
    requires
        1 <= width <= i32::MAX,
        1 <= height <= i32::MAX,
        6 <= width || height == 1,
        flat.spec_field().spec_width() == width,
        flat.spec_field().spec_height() == height,
        cold(flat.spec_field()),
        cold(chunked.spec_field()),
        inert_wall(rules.elements@, rules.reactions@, scene_ids(rules.elements).0),
        forall|x: i32, y: i32| #[trigger] flat.spec_field().cell(x, y) == scene_cell(
            if 0 <= x < width && 0 <= y < height {
                Some(EMPTY)
            } else {
                None
            },
            width as int,
            height as int,
            seed,
            scene_ids(rules.elements).0,
            scene_ids(rules.elements).1,
            scene_ids(rules.elements).2,
            x,
            y,
        ),
        forall|x: i32, y: i32| #[trigger] chunked.spec_field().cell(x, y) == scene_cell(
            Some(EMPTY),
            width as int,
            height as int,
            seed,
            scene_ids(rules.elements).0,
            scene_ids(rules.elements).1,
            scene_ids(rules.elements).2,
            x,
            y,
        ),
    ensures
        walled_alike(heat::model_of(flat.spec_field()), heat::model_of(chunked.spec_field()), width as int, height as int, rules.elements@, rules.reactions@),
{
    let (f, c) = (flat.spec_field(), chunked.spec_field());
    let (a, b) = (heat::model_of(f), heat::model_of(c));
    let (w, h) = (width as int, height as int);
    let (st, sa, wa) = scene_ids(rules.elements);
    assert forall|x: i32, y: i32| in_grid(w, h, x as int, y as int) implies #[trigger] (a.cell)(x, y) == (b.cell)(x, y) && (a.heat)(x, y)
        == (b.heat)(x, y) && (a.cell)(x, y) is Some by {
        assert(f.cell(x, y) == scene_cell(Some(EMPTY), w, h, seed, st, sa, wa, x, y));
        assert(c.cell(x, y) == scene_cell(Some(EMPTY), w, h, seed, st, sa, wa, x, y));
        lemma_scene_cell_kind(Some(EMPTY), w, h, seed, st, sa, wa, x, y);
        assert(f.heat_at(x, y) == AMBIENT_TEMPERATURE && c.heat_at(x, y) == AMBIENT_TEMPERATURE);
    }
    assert forall|x: i32, y: i32| !in_grid(w, h, x as int, y as int) implies #[trigger] (a.cell)(x, y) is None && (b.cell)(x, y) == Some(EMPTY) by {
        assert(f.cell(x, y) == scene_cell(None, w, h, seed, st, sa, wa, x, y));
        assert(c.cell(x, y) == scene_cell(Some(EMPTY), w, h, seed, st, sa, wa, x, y));
        lemma_scene_cell_kind(None, w, h, seed, st, sa, wa, x, y);
        lemma_scene_cell_kind(Some(EMPTY), w, h, seed, st, sa, wa, x, y);
    }
    assert forall|x: i32, y: i32| on_rim(w, h, x as int, y as int) implies inert_wall(rules.elements@, rules.reactions@, #[trigger] (a.cell)(x, y).unwrap()) by {
        assert(f.cell(x, y) == scene_cell(Some(EMPTY), w, h, seed, st, sa, wa, x, y));
        lemma_scene_cell_kind(Some(EMPTY), w, h, seed, st, sa, wa, x, y);
    }
}

/// The chunked sandbox and the flat one, with the same rules and structure that heat
/// cannot change and nothing reacts with, evolve identically inside the frame, tick
/// after tick, for every seed and every size that holds its divider inside the frame
/// or has none.
pub proof fn lemma_sandboxes_stay_alike(flat: FlatWorld, chunked: World, width: u32, height: u32, seed: u64, rules: Rules, ticks: nat)
    requires
        flat.wf(),
        chunked.wf(),
        flat.spec_rules() == rules,
        chunked.spec_rules() == rules,
        flat.spec_seed() == seed,
        chunked.spec_seed() == seed,
        flat.spec_tick() == chunked.spec_tick(),
        flat.spec_entities().len() == 0,
        chunked.spec_entities().len() == 0,
        flat.spec_collected() == chunked.spec_collected(),
        1 <= width <= i32::MAX,
        1 <= height <= i32::MAX,
        6 <= width || height == 1,
        flat.spec_field().spec_width() == width,
        flat.spec_field().spec_height() == height,
        cold(flat.spec_field()),
        cold(chunked.spec_field()),
        inert_wall(rules.elements@, rules.reactions@, scene_ids(rules.elements).0),
        forall|x: i32, y: i32| #[trigger] flat.spec_field().cell(x, y) == scene_cell(
            if 0 <= x < width && 0 <= y < height {
                Some(EMPTY)
            } else {
                None
            },
            width as int,
            height as int,
            seed,
            scene_ids(rules.elements).0,
            scene_ids(rules.elements).1,
            scene_ids(rules.elements).2,
            x,
            y,
        ),
        forall|x: i32, y: i32| #[trigger] chunked.spec_field().cell(x, y) == scene_cell(
            Some(EMPTY),
            width as int,
            height as int,
            seed,
            scene_ids(rules.elements).0,
            scene_ids(rules.elements).1,
            scene_ids(rules.elements).2,
            x,
            y,
        ),
    ensures
        ({
            let field = flat.spec_field();
            let f = crate::world::flat_run(flat.state(), field.region(), |r: i32| field.spans(r), rules, seed, flat.spec_tick() as int, ticks);
            let c = crate::world::world_run(chunked.state(), rules, seed, chunked.spec_tick() as int, ticks);
            walled_alike(f.model, c.model, width as int, height as int, rules.elements@, rules.reactions@)
        }),
{
    lemma_sandboxes_walled(flat, chunked, width, height, seed, rules);
    crate::transparent::lemma_worlds_stay_alike(flat, chunked, ticks);
}

} // verus!
