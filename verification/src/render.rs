//! Pictures of the world, one pixel per cell, as RGBA bytes.
//!
//! Cells are drawn first, each in its element's colour; machines are drawn over them
//! afterwards, and only where no matter sits, so piling sand over a machine buries it.
//! Burial is visible because of the drawing order, not because of a special case.

use vstd::prelude::*;
use vstd::string::StringSliceAdditionalSpecFns;
use vstd::arithmetic::div_mod::{lemma_div_pos_is_pos, lemma_fundamental_div_mod, lemma_fundamental_div_mod_converse, lemma_mod_pos_bound};
use crate::elements::{ElementTable, ElementView, State, EMPTY};
use crate::entities::{blocked_spec, works_in_plane, Entity, EntityTypeView};
use crate::field::CellField;
use crate::field::Bounds;
use crate::reactions::between_spec;
use crate::rng;
use crate::sprites::{colour_of, colour_spec, ink_at, ink_at_spec, pick_spec, RuleView, SpriteTable, Status, SPRITE_SIZE};
use crate::world::World;

verus! {

/// A channel value held to `0..=255`.
pub open spec fn clamp_channel_spec(value: int) -> u8 {
    if value < 0 {
        0
    } else if value > 255 {
        255
    } else {
        value as u8
    }
}

fn clamp_channel(value: i32) -> (r: u8)
    ensures
        r == clamp_channel_spec(value as int),
{
    if value < 0 {
        0
    } else if value > 255 {
        255
    } else {
        value as u8
    }
}

/// The colour of empty space.
pub open spec fn void_rgb() -> Seq<u8> {
    seq![0x07u8, 0x08u8, 0x06u8]
}

/// The colour a cell of `id` at `(x, y)` is drawn in: its element's colour shifted by
/// a per-cell variance, hashed from the position so a cell does not shimmer between
/// frames. Empty space, and any id without a definition, is the void.
pub open spec fn cell_rgb(els: Seq<Option<ElementView>>, id: u8, x: i32, y: i32) -> Seq<u8> {
    if (id as int) < els.len() && els[id as int] is Some {
        let e = els[id as int].unwrap();
        let spread = e.color_variance as int;
        let shift = if spread == 0 {
            0
        } else {
            rng::below_spec(0x9e37, 0, x, y, 7, (spread * 2 + 1) as u32) as int - spread
        };
        seq![
            clamp_channel_spec(e.color[0] + shift),
            clamp_channel_spec(e.color[1] + shift),
            clamp_channel_spec(e.color[2] + shift),
        ]
    } else {
        void_rgb()
    }
}

fn cell_colour(elements: &ElementTable, id: u8, x: i32, y: i32) -> (r: [u8; 3])
    ensures
        r@ == cell_rgb(elements@, id, x, y),
{
    match elements.get(id) {
        Some(e) => {
            let spread: i32 = e.color_variance as i32;
            let shift: i32 = if spread == 0 {
                0
            } else {
                let noise = rng::below(0x9e37, 0, x, y, 7, (spread * 2 + 1) as u32);
                noise as i32 - spread
            };
            let c: [u8; 3] = [
                clamp_channel(e.color[0] as i32 + shift),
                clamp_channel(e.color[1] as i32 + shift),
                clamp_channel(e.color[2] as i32 + shift),
            ];
            proof {
                assert(e@.color == e.color@);
                assert(c@ =~= cell_rgb(elements@, id, x, y));
            }
            c
        },
        None => {
            let c: [u8; 3] = [0x07, 0x08, 0x06];
            proof {
                assert(c@ =~= void_rgb());
            }
            c
        },
    }
}

/// Where byte `i` of a `width`-wide RGBA frame lies: its screen column, its screen
/// row, and its channel (red, green, blue, alpha).
pub open spec fn pixel_of(i: int, width: int) -> (int, int, int) {
    ((i / 4) % width, (i / 4) / width, i % 4)
}

proof fn lemma_pixel_of(column: int, row: int, channel: int, width: int)
    requires
        0 <= column < width,
        0 <= row,
        0 <= channel < 4,
    ensures
        pixel_of((row * width + column) * 4 + channel, width) == (column, row, channel),
{
    lemma_fundamental_div_mod_converse((row * width + column) * 4 + channel, 4, row * width + column, channel);
    lemma_fundamental_div_mod_converse(row * width + column, width, row, column);
}

/// What the world holds at a cell, empty outside it.
pub open spec fn world_id(world: World, x: i32, y: i32) -> u8 {
    match world.spec_field().cell(x, y) {
        Some(id) => id,
        None => EMPTY,
    }
}

/// Byte `i` of the cell picture of the window whose top-left cell is `(ox, oy)`.
pub open spec fn cell_byte(world: World, ox: i32, oy: i32, width: int, i: int) -> u8 {
    let (sx, sy, c) = pixel_of(i, width);
    let x = (ox + sx) as i32;
    let y = (oy + sy) as i32;
    if c == 3 {
        255
    } else {
        cell_rgb(world.spec_rules().elements@, world_id(world, x, y), x, y)[c]
    }
}

/// The cells of a window of the world as RGBA, row by row from its top-left cell
/// `(origin_x, origin_y)`, fully opaque.
pub fn render_cells(world: &World, origin_x: i32, origin_y: i32, width: u32, height: u32) -> (r: Vec<u8>)
    requires
        world.wf(),
        origin_x + width <= i32::MAX as int + 1,
        origin_y + height <= i32::MAX as int + 1,
        width * height * 4 <= usize::MAX,
    ensures
        r@.len() == width * height * 4,
        forall|i: int| 0 <= i < r@.len() ==> #[trigger] r@[i] == cell_byte(*world, origin_x, origin_y, width as int, i),
{
    let mut frame: Vec<u8> = Vec::new();
    let mut row: u32 = 0;
    while row < height
        invariant
            world.wf(),
            origin_x + width <= i32::MAX as int + 1,
            origin_y + height <= i32::MAX as int + 1,
            width * height * 4 <= usize::MAX,
            row <= height,
            frame@.len() == row * width * 4,
            forall|i: int| 0 <= i < frame@.len() ==> #[trigger] frame@[i] == cell_byte(*world, origin_x, origin_y, width as int, i),
        decreases height - row,
    {
        let mut column: u32 = 0;
        while column < width
            invariant
                world.wf(),
                origin_x + width <= i32::MAX as int + 1,
                origin_y + height <= i32::MAX as int + 1,
                width * height * 4 <= usize::MAX,
                row < height,
                column <= width,
                frame@.len() == (row * width + column) * 4,
                forall|i: int| 0 <= i < frame@.len() ==> #[trigger] frame@[i] == cell_byte(*world, origin_x, origin_y, width as int, i),
            decreases width - column,
        {
            proof {
                assert((row * width + column) * 4 + 4 <= width * height * 4) by (nonlinear_arith)
                    requires
                        row < height,
                        column < width,
                ;
            }
            let x: i32 = (origin_x as i64 + column as i64) as i32;
            let y: i32 = (origin_y as i64 + row as i64) as i32;
            let id = world.get(x, y);
            let rgb = cell_colour(&world.rules().elements, id, x, y);
            let ghost base = (row * width + column) * 4;
            proof {
                lemma_pixel_of(column as int, row as int, 0, width as int);
                lemma_pixel_of(column as int, row as int, 1, width as int);
                lemma_pixel_of(column as int, row as int, 2, width as int);
                lemma_pixel_of(column as int, row as int, 3, width as int);
                assert(world_id(*world, x, y) == id);
            }
            frame.push(rgb[0]);
            frame.push(rgb[1]);
            frame.push(rgb[2]);
            frame.push(255);
            proof {
                assert(frame@.len() == base + 4);
                assert(cell_byte(*world, origin_x, origin_y, width as int, base) == rgb@[0]);
                assert(cell_byte(*world, origin_x, origin_y, width as int, base + 1) == rgb@[1]);
                assert(cell_byte(*world, origin_x, origin_y, width as int, base + 2) == rgb@[2]);
                assert(cell_byte(*world, origin_x, origin_y, width as int, base + 3) == 255);
                assert(base + 4 == (row * width + column + 1) * 4);
            }
            column = column + 1;
        }
        proof {
            assert((row * width + width) * 4 == (row + 1) * width * 4) by (nonlinear_arith);
        }
        row = row + 1;
    }
    proof {
        assert(row * width * 4 == width * height * 4) by (nonlinear_arith)
            requires
                row == height,
        ;
    }
    frame
}

proof fn lemma_pixel_bounds(i: int, width: int, height: int)
    requires
        0 <= i < width * height * 4,
        width > 0,
    ensures
        0 <= pixel_of(i, width).0 < width,
        0 <= pixel_of(i, width).1 < height,
        0 <= pixel_of(i, width).2 < 4,
        i == (pixel_of(i, width).1 * width + pixel_of(i, width).0) * 4 + pixel_of(i, width).2,
{
    let p = i / 4;
    lemma_fundamental_div_mod(i, 4);
    lemma_mod_pos_bound(i, 4);
    lemma_div_pos_is_pos(i, 4);
    lemma_fundamental_div_mod(p, width);
    lemma_mod_pos_bound(p, width);
    lemma_div_pos_is_pos(p, width);
    let sx = p % width;
    let sy = p / width;
    assert(p < width * height);
    assert(sy < height) by (nonlinear_arith)
        requires
            p == width * sy + sx,
            0 <= sx,
            p < width * height,
            width > 0,
    ;
    assert(i == (sy * width + sx) * 4 + i % 4) by (nonlinear_arith)
        requires
            i == 4 * p + i % 4,
            p == width * sy + sx,
    ;
}

/// The casing colour of a machine handling no element.
pub open spec fn unset_rgb() -> Seq<u8> {
    seq![0x98u8, 0x96u8, 0x8Fu8]
}

/// Byte `i` of a frame after a sprite is drawn over it with its top-left cell at
/// `(left, top)`: a sprite pixel with a colour lands where no matter sits, and
/// everything else shows through.
pub open spec fn blit_byte(frame: Seq<u8>, world: World, pixels: Seq<u8>, colour: Seq<u8>, left: int, top: int, ox: i32, oy: i32, width: int, i: int) -> u8 {
    let (sx, sy, c) = pixel_of(i, width);
    let column = ox + sx - left;
    let row = oy + sy - top;
    let x = (ox + sx) as i32;
    let y = (oy + sy) as i32;
    let ink = colour_spec(ink_at_spec(pixels, column, row), colour);
    if 0 <= column && 0 <= row && ink is Some && world_id(world, x, y) == EMPTY {
        if c == 3 {
            255
        } else {
            ink.unwrap()[c]
        }
    } else {
        frame[i]
    }
}

pub open spec fn blit_spec(frame: Seq<u8>, world: World, pixels: Seq<u8>, colour: Seq<u8>, left: int, top: int, ox: i32, oy: i32, width: int) -> Seq<u8> {
    Seq::new(frame.len(), |i: int| blit_byte(frame, world, pixels, colour, left, top, ox, oy, width, i))
}

/// The sprite pixels before `(column, row)` in row-major order drawn, the rest not yet.
pub open spec fn blit_upto(frame: Seq<u8>, world: World, pixels: Seq<u8>, colour: Seq<u8>, left: int, top: int, ox: i32, oy: i32, width: int, row: int, column: int) -> Seq<u8> {
    Seq::new(frame.len(), |i: int| {
        let (sx, sy, c) = pixel_of(i, width);
        let sc = ox + sx - left;
        let sr = oy + sy - top;
        if sr < row || (sr == row && sc < column) {
            blit_byte(frame, world, pixels, colour, left, top, ox, oy, width, i)
        } else {
            frame[i]
        }
    })
}

/// Draws one sprite into a frame, skipping the pixels where matter already sits.
fn blit(frame: &mut Vec<u8>, world: &World, pixels: &[u8], colour: [u8; 3], left: i64, top: i64, origin_x: i32, origin_y: i32, width: u32, height: u32)
    requires
        world.wf(),
        old(frame)@.len() == width * height * 4,
        pixels@.len() == SPRITE_SIZE * SPRITE_SIZE,
        width > 0,
        origin_x + width <= i32::MAX as int + 1,
        origin_y + height <= i32::MAX as int + 1,
        width * height * 4 <= usize::MAX,
        -0x10_0000_0000 <= left <= 0x10_0000_0000,
        -0x10_0000_0000 <= top <= 0x10_0000_0000,
    ensures
        final(frame)@ == blit_spec(old(frame)@, *world, pixels@, colour@, left as int, top as int, origin_x, origin_y, width as int),
{
    let ghost f0 = frame@;
    let ghost w = width as int;
    let ghost args = (f0, *world, pixels@, colour@, left as int, top as int);
    proof {
        assert(frame@ =~= blit_upto(f0, *world, pixels@, colour@, left as int, top as int, origin_x, origin_y, w, 0, 0)) by {
            assert forall|i: int| 0 <= i < f0.len() implies #[trigger] frame@[i] == blit_upto(f0, *world, pixels@, colour@, left as int, top as int, origin_x, origin_y, w, 0, 0)[i] by {
                lemma_pixel_bounds(i, w, height as int);
                let (sx, sy, c) = pixel_of(i, w);
                let sc = origin_x + sx - left;
                let sr = origin_y + sy - top;
                if sr < 0 || (sr == 0 && sc < 0) {
                    assert(blit_byte(f0, *world, pixels@, colour@, left as int, top as int, origin_x, origin_y, w, i) == f0[i]);
                }
            }
        }
    }
    let mut row: usize = 0;
    while row < SPRITE_SIZE
        invariant
            world.wf(),
            f0.len() == width * height * 4,
            w == width as int,
            pixels@.len() == SPRITE_SIZE * SPRITE_SIZE,
            width > 0,
            origin_x + width <= i32::MAX as int + 1,
            origin_y + height <= i32::MAX as int + 1,
            width * height * 4 <= usize::MAX,
            -0x10_0000_0000 <= left <= 0x10_0000_0000,
            -0x10_0000_0000 <= top <= 0x10_0000_0000,
            row <= SPRITE_SIZE,
            frame@ == blit_upto(f0, *world, pixels@, colour@, left as int, top as int, origin_x, origin_y, w, row as int, 0),
        decreases SPRITE_SIZE - row,
    {
        let mut column: usize = 0;
        while column < SPRITE_SIZE
            invariant
                world.wf(),
                f0.len() == width * height * 4,
                w == width as int,
                pixels@.len() == SPRITE_SIZE * SPRITE_SIZE,
                width > 0,
                origin_x + width <= i32::MAX as int + 1,
                origin_y + height <= i32::MAX as int + 1,
                width * height * 4 <= usize::MAX,
                -0x10_0000_0000 <= left <= 0x10_0000_0000,
                -0x10_0000_0000 <= top <= 0x10_0000_0000,
                row < SPRITE_SIZE,
                column <= SPRITE_SIZE,
                frame@ == blit_upto(f0, *world, pixels@, colour@, left as int, top as int, origin_x, origin_y, w, row as int, column as int),
            decreases SPRITE_SIZE - column,
        {
            blit_pixel(frame, world, pixels, colour, left, top, origin_x, origin_y, width, height, row, column, Ghost(f0));
            column = column + 1;
        }
        proof {
            let a = blit_upto(f0, *world, pixels@, colour@, left as int, top as int, origin_x, origin_y, w, row as int, SPRITE_SIZE as int);
            let b = blit_upto(f0, *world, pixels@, colour@, left as int, top as int, origin_x, origin_y, w, row as int + 1, 0);
            assert forall|i: int| 0 <= i < f0.len() implies #[trigger] a[i] == b[i] by {
                lemma_pixel_bounds(i, w, height as int);
                let (sx, sy, c) = pixel_of(i, w);
                let sc = origin_x + sx - left;
                let sr = origin_y + sy - top;
                if sr == row && sc >= SPRITE_SIZE {
                    assert(blit_byte(f0, *world, pixels@, colour@, left as int, top as int, origin_x, origin_y, w, i) == f0[i]);
                }
            }
            assert(a =~= b);
        }
        row = row + 1;
    }
    proof {
        let a = blit_upto(f0, *world, pixels@, colour@, left as int, top as int, origin_x, origin_y, w, SPRITE_SIZE as int, 0);
        let b = blit_spec(f0, *world, pixels@, colour@, left as int, top as int, origin_x, origin_y, w);
        assert forall|i: int| 0 <= i < f0.len() implies #[trigger] a[i] == b[i] by {
            lemma_pixel_bounds(i, w, height as int);
        }
        assert(a =~= b);
    }
}

/// One pixel of a sprite: drawn at its screen position if it has a colour, is on
/// screen, and no matter sits there.
fn blit_pixel(frame: &mut Vec<u8>, world: &World, pixels: &[u8], colour: [u8; 3], left: i64, top: i64, origin_x: i32, origin_y: i32, width: u32, height: u32, row: usize, column: usize, Ghost(f0): Ghost<Seq<u8>>)
    requires
        world.wf(),
        f0.len() == width * height * 4,
        pixels@.len() == SPRITE_SIZE * SPRITE_SIZE,
        width > 0,
        origin_x + width <= i32::MAX as int + 1,
        origin_y + height <= i32::MAX as int + 1,
        width * height * 4 <= usize::MAX,
        -0x10_0000_0000 <= left <= 0x10_0000_0000,
        -0x10_0000_0000 <= top <= 0x10_0000_0000,
        row < SPRITE_SIZE,
        column < SPRITE_SIZE,
        old(frame)@ == blit_upto(f0, *world, pixels@, colour@, left as int, top as int, origin_x, origin_y, width as int, row as int, column as int),
    ensures
        final(frame)@ == blit_upto(f0, *world, pixels@, colour@, left as int, top as int, origin_x, origin_y, width as int, row as int, column as int + 1),
{
    let ghost w = width as int;
    let ghost before = frame@;
    let ghost after = blit_upto(f0, *world, pixels@, colour@, left as int, top as int, origin_x, origin_y, w, row as int, column as int + 1);
    // Every byte outside this sprite pixel is already what it should be.
    proof {
        assert forall|i: int| 0 <= i < f0.len() && (origin_x + pixel_of(i, w).0 - left != column || origin_y + pixel_of(i, w).1 - top != row) implies #[trigger] before[i] == after[i] by {
            lemma_pixel_bounds(i, w, height as int);
        }
    }
    let x: i64 = left + column as i64;
    let y: i64 = top + row as i64;
    let sx: i64 = x - origin_x as i64;
    let sy: i64 = y - origin_y as i64;
    if sx < 0 || sy < 0 || sx >= width as i64 || sy >= height as i64 {
        proof {
            assert forall|i: int| 0 <= i < f0.len() implies #[trigger] before[i] == after[i] by {
                lemma_pixel_bounds(i, w, height as int);
            }
            assert(before =~= after);
        }
        return;
    }
    let ghost base = (sy * w + sx) * 4;
    proof {
        lemma_pixel_of(sx as int, sy as int, 0, w);
        lemma_pixel_of(sx as int, sy as int, 1, w);
        lemma_pixel_of(sx as int, sy as int, 2, w);
        lemma_pixel_of(sx as int, sy as int, 3, w);
        assert(base + 4 <= w * height * 4) by (nonlinear_arith)
            requires
                base == (sy * w + sx) * 4,
                0 <= sx < w,
                0 <= sy < height,
        ;
        // A byte on this sprite pixel is one of its four channels.
        assert forall|i: int| 0 <= i < f0.len() && origin_x + pixel_of(i, w).0 - left == column && origin_y + pixel_of(i, w).1 - top == row implies base <= i < base + 4 by {
            lemma_pixel_bounds(i, w, height as int);
        }
    }
    proof {
        assert(SPRITE_SIZE == 9);
        assert(row * 9 + column < 81) by (nonlinear_arith)
            requires
                row < 9,
                column < 9,
        ;
    }
    let ink = ink_at(pixels, column, row);
    let drawn = match colour_of(ink, colour) {
        Some(c) => c,
        None => {
            proof {
                assert forall|i: int| 0 <= i < f0.len() implies #[trigger] before[i] == after[i] by {
                    lemma_pixel_bounds(i, w, height as int);
                }
                assert(before =~= after);
            }
            return;
        },
    };
    let cx: i32 = x as i32;
    let cy: i32 = y as i32;
    if world.get(cx, cy) != EMPTY {
        proof {
            assert forall|i: int| 0 <= i < f0.len() implies #[trigger] before[i] == after[i] by {
                lemma_pixel_bounds(i, w, height as int);
            }
            assert(before =~= after);
        }
        return;
    }
    let offset: usize = ((sy as usize) * (width as usize) + sx as usize) * 4;
    frame.set(offset, drawn[0]);
    frame.set(offset + 1, drawn[1]);
    frame.set(offset + 2, drawn[2]);
    frame.set(offset + 3, 255);
    proof {
        assert(offset == base);
        assert forall|i: int| 0 <= i < f0.len() implies #[trigger] frame@[i] == after[i] by {
            lemma_pixel_bounds(i, w, height as int);
            if base <= i < base + 4 {
                assert(pixel_of(i, w) == (sx as int, sy as int, i - base));
            }
        }
        assert(frame@ =~= after);
    }
}

/// The definition of a machine kind, if the table has one.
pub open spec fn type_of(types: Seq<Option<EntityTypeView>>, kind: u8) -> Option<EntityTypeView> {
    if (kind as int) < types.len() {
        types[kind as int]
    } else {
        None
    }
}

/// The definition of an element, if the table has one.
pub open spec fn element_of(els: Seq<Option<ElementView>>, id: u8) -> Option<ElementView> {
    if (id as int) < els.len() {
        els[id as int]
    } else {
        None
    }
}

/// One row of a machine's footprint, tiles `tile_x..` of it, each drawn with `pixels`.
pub open spec fn draw_row(frame: Seq<u8>, world: World, pixels: Seq<u8>, colour: Seq<u8>, e: Entity, tiles_wide: int, tile_y: int, tile_x: int, ox: i32, oy: i32, width: int) -> Seq<u8>
    decreases tiles_wide - tile_x,
{
    if tile_x >= tiles_wide {
        frame
    } else {
        let left = e.tile_x * 9 + tile_x * 9;
        let top = e.tile_y * 9 + tile_y * 9;
        draw_row(blit_spec(frame, world, pixels, colour, left, top, ox, oy, width), world, pixels, colour, e, tiles_wide, tile_y, tile_x + 1, ox, oy, width)
    }
}

/// Rows `tile_y..` of a machine's footprint. Each row is drawn with the sprite picked
/// for that row, repeated across the width; a row nothing matches is left undrawn.
pub open spec fn draw_tiles(frame: Seq<u8>, world: World, sprites: Seq<Seq<RuleView>>, e: Entity, def: EntityTypeView, name: Seq<u8>, state: Option<State>, status: Status, colour: Seq<u8>, counter: usize, tile_y: int, ox: i32, oy: i32, width: int) -> Seq<u8>
    decreases def.height_tiles - tile_y,
{
    if tile_y >= def.height_tiles {
        frame
    } else {
        let next = match pick_spec(sprites, e.kind, name, state, status, counter, tile_y as u32) {
            Some(pixels) => draw_row(frame, world, pixels, colour, e, def.width_tiles as int, tile_y, 0, ox, oy, width),
            None => frame,
        };
        draw_tiles(next, world, sprites, e, def, name, state, status, colour, counter, tile_y + 1, ox, oy, width)
    }
}

/// Whether a machine is drawn as blocked or running.
pub open spec fn status_of(world: World, e: Entity, def: EntityTypeView) -> Status {
    if blocked_spec(e, def, world.spec_field(), world.spec_rules().elements@) {
        Status::Blocked
    } else {
        Status::Running
    }
}

/// One machine drawn over `frame`, tinted by the element it handles. A machine whose
/// kind has no definition, or whose workings do not lie in the plane, is not drawn.
pub open spec fn draw_entity(frame: Seq<u8>, world: World, sprites: Seq<Seq<RuleView>>, e: Entity, counter: usize, ox: i32, oy: i32, width: int) -> Seq<u8> {
    match type_of(world.spec_rules().entities@, e.kind) {
        Some(def) => if works_in_plane(e, def) {
            let element = element_of(world.spec_rules().elements@, e.element);
            let name = match element {
                Some(el) => el.name,
                None => Seq::empty(),
            };
            let state = match element {
                Some(el) => Some(el.state),
                None => None,
            };
            let colour = match element {
                Some(el) => el.color,
                None => unset_rgb(),
            };
            draw_tiles(frame, world, sprites, e, def, name, state, status_of(world, e, def), colour, counter, 0, ox, oy, width)
        } else {
            frame
        },
        None => frame,
    }
}

/// Machines `k..` drawn in placement order, a later one over an earlier.
pub open spec fn draw_all(frame: Seq<u8>, world: World, sprites: Seq<Seq<RuleView>>, counter: usize, k: int, ox: i32, oy: i32, width: int) -> Seq<u8>
    decreases world.spec_entities().len() - k,
{
    if k < 0 || k >= world.spec_entities().len() {
        frame
    } else {
        draw_all(draw_entity(frame, world, sprites, world.spec_entities()[k], counter, ox, oy, width), world, sprites, counter, k + 1, ox, oy, width)
    }
}

/// Draws every machine's sprite over the cells of a frame. `counter` is the animation
/// frame counter handed to the sprite table.
pub fn draw_entities(frame: &mut Vec<u8>, world: &World, sprites: &SpriteTable, counter: usize, origin_x: i32, origin_y: i32, width: u32, height: u32)
    requires
        world.wf(),
        sprites.wf(),
        old(frame)@.len() == width * height * 4,
        width > 0,
        origin_x + width <= i32::MAX as int + 1,
        origin_y + height <= i32::MAX as int + 1,
        width * height * 4 <= usize::MAX,
    ensures
        final(frame)@ == draw_all(old(frame)@, *world, sprites@, counter, 0, origin_x, origin_y, width as int),
{
    let entities: &[Entity] = world.entities();
    let ghost target = draw_all(frame@, *world, sprites@, counter, 0, origin_x, origin_y, width as int);
    let mut index: usize = 0;
    while index < entities.len()
        invariant
            world.wf(),
            sprites.wf(),
            entities@ == world.spec_entities(),
            frame@.len() == width * height * 4,
            width > 0,
            origin_x + width <= i32::MAX as int + 1,
            origin_y + height <= i32::MAX as int + 1,
            width * height * 4 <= usize::MAX,
            index <= entities@.len(),
            target == draw_all(frame@, *world, sprites@, counter, index as int, origin_x, origin_y, width as int),
        decreases entities@.len() - index,
    {
        let entity: Entity = entities[index];
        draw_one(frame, world, sprites, entity, counter, origin_x, origin_y, width, height);
        index = index + 1;
    }
}

fn draw_one(frame: &mut Vec<u8>, world: &World, sprites: &SpriteTable, entity: Entity, counter: usize, origin_x: i32, origin_y: i32, width: u32, height: u32)
    requires
        world.wf(),
        sprites.wf(),
        old(frame)@.len() == width * height * 4,
        width > 0,
        origin_x + width <= i32::MAX as int + 1,
        origin_y + height <= i32::MAX as int + 1,
        width * height * 4 <= usize::MAX,
    ensures
        final(frame)@ == draw_entity(old(frame)@, *world, sprites@, entity, counter, origin_x, origin_y, width as int),
        final(frame)@.len() == old(frame)@.len(),
{
    let definition = match world.rules().entities.get(entity.kind) {
        Some(d) => d,
        None => {
            return;
        },
    };
    if !entity.works_in_plane(definition) {
        return;
    }
    let ghost def = definition@;
    let status = if entity.is_blocked(definition, world.field(), &world.rules().elements) {
        Status::Blocked
    } else {
        Status::Running
    };
    let element = world.rules().elements.get(entity.element);
    let name: &str = match element {
        Some(el) => el.name.as_str(),
        None => "",
    };
    let state: Option<State> = match element {
        Some(el) => Some(el.state),
        None => None,
    };
    let colour: [u8; 3] = match element {
        Some(el) => el.color,
        None => [0x98, 0x96, 0x8F],
    };
    proof {
        reveal_strlit("");
        assert(colour@ == (match element_of(world.spec_rules().elements@, entity.element) {
            Some(el) => el.color,
            None => unset_rgb(),
        })) by {
            if element is None {
                assert(colour@ =~= unset_rgb());
            }
        }
        assert(name.spec_bytes() == (match element_of(world.spec_rules().elements@, entity.element) {
            Some(el) => el.name,
            None => Seq::<u8>::empty(),
        }));
    }
    let ghost target = draw_entity(frame@, *world, sprites@, entity, counter, origin_x, origin_y, width as int);
    let mut tile_y: u32 = 0;
    while tile_y < definition.height_tiles
        invariant
            world.wf(),
            sprites.wf(),
            frame@.len() == width * height * 4,
            width > 0,
            origin_x + width <= i32::MAX as int + 1,
            origin_y + height <= i32::MAX as int + 1,
            width * height * 4 <= usize::MAX,
            works_in_plane(entity, def),
            def == definition@,
            tile_y <= definition.height_tiles,
            target == draw_tiles(frame@, *world, sprites@, entity, def, name.spec_bytes(), state, status, colour@, counter, tile_y as int, origin_x, origin_y, width as int),
        decreases definition.height_tiles - tile_y,
    {
        match sprites.pick(entity.kind, name, state, status, counter, tile_y) {
            Some(pixels) => {
                let mut tile_x: u32 = 0;
                while tile_x < definition.width_tiles
                    invariant
                        world.wf(),
                        frame@.len() == width * height * 4,
                        pixels@.len() == SPRITE_SIZE * SPRITE_SIZE,
                        width > 0,
                        origin_x + width <= i32::MAX as int + 1,
                        origin_y + height <= i32::MAX as int + 1,
                        width * height * 4 <= usize::MAX,
                        works_in_plane(entity, def),
                        def == definition@,
                        tile_y < definition.height_tiles,
                        tile_x <= definition.width_tiles,
                        target == draw_tiles(
                            draw_row(frame@, *world, pixels@, colour@, entity, def.width_tiles as int, tile_y as int, tile_x as int, origin_x, origin_y, width as int),
                            *world, sprites@, entity, def, name.spec_bytes(), state, status, colour@, counter, tile_y as int + 1, origin_x, origin_y, width as int),
                    decreases definition.width_tiles - tile_x,
                {
                    let left: i64 = entity.tile_x as i64 * 9 + tile_x as i64 * 9;
                    let top: i64 = entity.tile_y as i64 * 9 + tile_y as i64 * 9;
                    blit(frame, world, pixels, colour, left, top, origin_x, origin_y, width, height);
                    tile_x = tile_x + 1;
                }
            },
            None => {},
        }
        tile_y = tile_y + 1;
    }
}

/// A window of the world as RGBA, one pixel per cell: the cells, then the machines
/// over them. `counter` is the animation frame counter.
pub fn render(world: &World, sprites: &SpriteTable, counter: usize, origin_x: i32, origin_y: i32, width: u32, height: u32) -> (r: Vec<u8>)
    requires
        world.wf(),
        sprites.wf(),
        origin_x + width <= i32::MAX as int + 1,
        origin_y + height <= i32::MAX as int + 1,
        width * height * 4 <= usize::MAX,
    ensures
        r@ == (if width == 0 {
            cells_spec(*world, origin_x, origin_y, width, height)
        } else {
            draw_all(cells_spec(*world, origin_x, origin_y, width, height), *world, sprites@, counter, 0, origin_x, origin_y, width as int)
        }),
{
    let mut frame = render_cells(world, origin_x, origin_y, width, height);
    proof {
        assert(frame@ =~= cells_spec(*world, origin_x, origin_y, width, height));
    }
    if width > 0 {
        draw_entities(&mut frame, world, sprites, counter, origin_x, origin_y, width, height);
    }
    frame
}

/// The cell picture of a window.
pub open spec fn cells_spec(world: World, ox: i32, oy: i32, width: u32, height: u32) -> Seq<u8> {
    Seq::new((width * height * 4) as nat, |i: int| cell_byte(world, ox, oy, width as int, i))
}

/// Two cells are in contact for a reaction: both hold matter, and a reaction is
/// defined between their elements.
pub open spec fn in_contact(world: World, x: i32, y: i32, x2: i32, y2: i32) -> bool {
    let here = world_id(world, x, y);
    let there = world_id(world, x2, y2);
    here != EMPTY && there != EMPTY && between_spec(world.spec_rules().reactions@, here, there, 0) is Some
}

/// The contacts a cell makes with its right and its lower neighbour, so each touching
/// pair is counted once.
pub open spec fn contacts_at(world: World, x: i32, y: i32) -> int {
    (if x < i32::MAX && in_contact(world, x, y, (x + 1) as i32, y) {
        1int
    } else {
        0int
    }) + (if y < i32::MAX && in_contact(world, x, y, x, (y + 1) as i32) {
        1int
    } else {
        0int
    })
}

pub open spec fn contact_row(world: World, b: Bounds, y: i32, x: int) -> int
    decreases b.max_x - x + 1,
{
    if x > b.max_x {
        0
    } else {
        contacts_at(world, x as i32, y) + contact_row(world, b, y, x + 1)
    }
}

pub open spec fn contact_rows(world: World, b: Bounds, y: int) -> int
    decreases b.max_y - y + 1,
{
    if y > b.max_y {
        0
    } else {
        contact_row(world, b, y as i32, b.min_x as int) + contact_rows(world, b, y + 1)
    }
}

/// How many touching pairs of cells over the stored region could react.
pub open spec fn contact_spec(world: World) -> int {
    if world.spec_rules().reactions@.len() == 0 {
        0
    } else {
        match world.spec_field().region() {
            Some(b) => contact_rows(world, b, b.min_y as int),
            None => 0,
        }
    }
}

proof fn lemma_contacts_nonneg_row(world: World, b: Bounds, y: i32, x: int)
    ensures
        contact_row(world, b, y, x) >= 0,
    decreases b.max_x - x + 1,
{
    if x <= b.max_x {
        lemma_contacts_nonneg_row(world, b, y, x + 1);
    }
}

proof fn lemma_contacts_nonneg(world: World, b: Bounds, y: int)
    ensures
        contact_rows(world, b, y) >= 0,
    decreases b.max_y - y + 1,
{
    if y <= b.max_y {
        lemma_contacts_nonneg_row(world, b, y as i32, b.min_x as int);
        lemma_contacts_nonneg(world, b, y + 1);
    }
}

/// Whether the pair at `(x, y)` and `(x2, y2)` could react.
fn touching_pair(world: &World, here: u8, x2: i32, y2: i32) -> (r: bool)
    requires
        world.wf(),
    ensures
        r == (world_id(*world, x2, y2) != EMPTY && between_spec(world.spec_rules().reactions@, here, world_id(*world, x2, y2), 0) is Some),
{
    let there = world.get(x2, y2);
    there != EMPTY && world.rules().reactions.between(here, there).is_some()
}

/// Cells where the two reactants of a reaction are touching, held at `u32::MAX`.
///
/// Contact area in the literal sense: not a modelled parameter but a count of where a
/// reaction can actually happen, which is what makes yield a property of a machine's
/// shape.
pub fn contact_area(world: &World) -> (r: u32)
    requires
        world.wf(),
    ensures
        r == (if contact_spec(*world) > u32::MAX { u32::MAX as int } else { contact_spec(*world) }),
{
    if world.rules().reactions.is_empty() {
        return 0;
    }
    let bounds = match world.field().bounds() {
        Some(b) => b,
        None => {
            return 0;
        },
    };
    let ghost total = contact_spec(*world);
    let ghost mut acc: int = 0;
    let mut contacts: u32 = 0;
    proof {
        lemma_contacts_nonneg(*world, bounds, bounds.min_y as int);
    }
    let mut y: i64 = bounds.min_y as i64;
    while y <= bounds.max_y as i64
        invariant
            world.wf(),
            world.spec_field().region() == Some(bounds),
            bounds.min_y <= y,
            y <= bounds.max_y as i64 + 1 || y == bounds.min_y,
            acc >= 0,
            total == acc + contact_rows(*world, bounds, y as int),
            contacts == (if acc > u32::MAX { u32::MAX as int } else { acc }),
        decreases bounds.max_y - y + 1,
    {
        let mut x: i64 = bounds.min_x as i64;
        while x <= bounds.max_x as i64
            invariant
                world.wf(),
                world.spec_field().region() == Some(bounds),
                bounds.min_y <= y <= bounds.max_y,
                bounds.min_x <= x,
                x <= bounds.max_x as i64 + 1 || x == bounds.min_x,
                acc >= 0,
                total == acc + contact_row(*world, bounds, y as i32, x as int) + contact_rows(*world, bounds, y + 1),
                contacts == (if acc > u32::MAX { u32::MAX as int } else { acc }),
            decreases bounds.max_x - x + 1,
        {
            let (cx, cy) = (x as i32, y as i32);
            let here = world.get(cx, cy);
            if here != EMPTY {
                // Right and below only, so each touching pair is counted once.
                if x < i32::MAX as i64 && touching_pair(world, here, cx + 1, cy) {
                    contacts = contacts.saturating_add(1);
                    proof {
                        acc = acc + 1;
                    }
                }
                if y < i32::MAX as i64 && touching_pair(world, here, cx, cy + 1) {
                    contacts = contacts.saturating_add(1);
                    proof {
                        acc = acc + 1;
                    }
                }
            }
            proof {
                lemma_contacts_nonneg_row(*world, bounds, cy, x + 1);
            }
            x = x + 1;
        }
        y = y + 1;
    }
    contacts
}

} // verus!
