//! Particle spawners: the only source of matter, and the game's one hard limit.
//!
//! Emission is a pure function of seed, tick and position, like everything else in the
//! sim, so a replay reproduces the same input stream exactly.

use vstd::prelude::*;
use crate::elements::{ElementId, EMPTY};
use crate::field::{CellField, occupied};
use crate::rng::{self, below_spec};

verus! {

#[derive(Clone, Copy, Debug)]
pub struct Spawner {
    /// Left edge of the emitting line, in cells.
    pub x: i32,
    pub y: i32,
    /// How many cells wide the emitter is.
    pub width: u32,
    pub element: ElementId,
    /// Cells emitted per tick.
    pub rate: u32,
}

/// The salt for grain `grain` of the spawner at position `index`: wrapping, so any
/// index and grain have one.
pub open spec fn grain_salt(index: int, grain: int) -> u32 {
    (((index % 0x1_0000_0000) * 31 + grain + 101) % 0x1_0000_0000) as u32
}

fn salt_for(index: usize, grain: u32) -> (r: u32)
    ensures
        r == grain_salt(index as int, grain as int),
{
    let low: u64 = (index as u64) % 0x1_0000_0000;
    ((low * 31 + grain as u64 + 101) % 0x1_0000_0000) as u32
}

/// Whether grain `grain` of the spawner at position `index` lands on cell `(x, y)`.
pub open spec fn grain_hits(spawner: Spawner, index: int, grain: int, seed: u64, tick: u64, x: i32, y: i32) -> bool {
    &&& spawner.width > 0
    &&& spawner.element != EMPTY
    &&& spawner.y == y
    &&& spawner.x + below_spec(seed, tick, spawner.x, spawner.y, grain_salt(index, grain), spawner.width) == x
}

/// Whether one of the spawner's first `grains` grains lands on cell `(x, y)`.
pub open spec fn hits_within(spawner: Spawner, index: int, grains: int, seed: u64, tick: u64, x: i32, y: i32) -> bool {
    exists|g: int| 0 <= g < grains && #[trigger] grain_hits(spawner, index, g, seed, tick, x, y)
}

/// The element that the first `count` spawners put into cell `(x, y)` if it starts
/// empty: that of the first spawner one of whose grains lands there.
pub open spec fn first_emitted(spawners: Seq<Spawner>, count: int, seed: u64, tick: u64, x: i32, y: i32) -> Option<ElementId>
    decreases count,
{
    if count <= 0 {
        None
    } else {
        match first_emitted(spawners, count - 1, seed, tick, x, y) {
            Some(e) => Some(e),
            None => if hits_within(spawners[count - 1], count - 1, spawners[count - 1].rate as int, seed, tick, x, y) {
                Some(spawners[count - 1].element)
            } else {
                None
            },
        }
    }
}

/// A cell after the first `count` spawners emitted, from its contents before.
pub open spec fn emitted_cell(before: Option<ElementId>, spawners: Seq<Spawner>, count: int, seed: u64, tick: u64, x: i32, y: i32) -> Option<
    ElementId,
> {
    if before == Some(EMPTY) && first_emitted(spawners, count, seed, tick, x, y) is Some {
        first_emitted(spawners, count, seed, tick, x, y)
    } else {
        before
    }
}

/// The first spawner whose grains reach a cell is one of the spawners, and emits matter.
proof fn lemma_first_emitted(spawners: Seq<Spawner>, count: int, seed: u64, tick: u64, x: i32, y: i32)
    requires
        0 <= count <= spawners.len(),
    ensures
        first_emitted(spawners, count, seed, tick, x, y) matches Some(e) ==> e != EMPTY && exists|i: int|
            0 <= i < spawners.len() && e == #[trigger] spawners[i].element,
    decreases count,
{
    if count > 0 {
        lemma_first_emitted(spawners, count - 1, seed, tick, x, y);
        if first_emitted(spawners, count - 1, seed, tick, x, y) is None && hits_within(
            spawners[count - 1],
            count - 1,
            spawners[count - 1].rate as int,
            seed,
            tick,
            x,
            y,
        ) {
            let g = choose|g: int| 0 <= g < spawners[count - 1].rate && #[trigger] grain_hits(spawners[count - 1], count - 1, g, seed, tick, x, y);
            assert(spawners[count - 1].element != EMPTY);
        }
    }
}

/// One grain of one spawner: it lands on a cell picked by a draw along the emitting
/// line, and fills it only if the cell is empty.
fn emit_grain<F: CellField>(field: &mut F, spawner: Spawner, index: usize, grain: u32, seed: u64, tick: u64)
    requires
        old(field).field_inv(),
    ensures
        final(field).field_inv(),
        forall|x: i32, y: i32| #[trigger] final(field).cell(x, y) == (if grain_hits(spawner, index as int, grain as int, seed, tick, x, y)
            && old(field).cell(x, y) == Some(EMPTY) {
            Some(spawner.element)
        } else {
            old(field).cell(x, y)
        }),
{
    if spawner.width == 0 || spawner.element == EMPTY {
        return;
    }
    // Salted by spawner and by grain, so two spawners at the same tick do not emit in
    // lockstep and one spawner's grains do not stack on one column.
    let salt = salt_for(index, grain);
    let offset = rng::below(seed, tick, spawner.x, spawner.y, salt, spawner.width);
    let target: i64 = spawner.x as i64 + offset as i64;
    if target <= i32::MAX as i64 {
        let x: i32 = target as i32;
        if field.get(x, spawner.y) == Some(EMPTY) {
            field.set(x, spawner.y, spawner.element);
            field.mark_active(x, spawner.y);
        }
    }
}

/// Emits from every spawner, in order.
///
/// A spawner cannot force material into an occupied cell: back-pressure is physical.
/// A clogged machine starves itself, and nothing special-cases that. So emission only
/// ever fills empty cells with a spawner's element, and never touches matter. Each
/// empty cell that some grain lands on takes the element of the first spawner to reach
/// it.
pub fn emit<F: CellField>(field: &mut F, spawners: &[Spawner], seed: u64, tick: u64)
    requires
        old(field).field_inv(),
    ensures
        final(field).field_inv(),
        forall|x: i32, y: i32| #[trigger] final(field).cell(x, y) == emitted_cell(old(field).cell(x, y), spawners@, spawners@.len() as int, seed, tick, x, y),
        forall|x: i32, y: i32| occupied(*old(field), x, y) ==> #[trigger] final(field).cell(x, y) == old(field).cell(x, y),
        forall|x: i32, y: i32|
            #[trigger] final(field).cell(x, y) != old(field).cell(x, y) ==> old(field).cell(x, y) == Some(EMPTY)
                && exists|i: int| 0 <= i < spawners@.len() && final(field).cell(x, y) == Some(#[trigger] spawners@[i].element),
{
    let mut index: usize = 0;
    while index < spawners.len()
        invariant
            index <= spawners@.len(),
            field.field_inv(),
            forall|x: i32, y: i32| #[trigger] field.cell(x, y) == emitted_cell(old(field).cell(x, y), spawners@, index as int, seed, tick, x, y),
        decreases spawners@.len() - index,
    {
        let spawner = spawners[index];
        let mut grain: u32 = 0;
        while grain < spawner.rate
            invariant
                index < spawners@.len(),
                spawner == spawners@[index as int],
                grain <= spawner.rate,
                field.field_inv(),
                forall|x: i32, y: i32| #[trigger] field.cell(x, y) == (if old(field).cell(x, y) == Some(EMPTY) {
                    match first_emitted(spawners@, index as int, seed, tick, x, y) {
                        Some(e) => Some(e),
                        None => if hits_within(spawner, index as int, grain as int, seed, tick, x, y) {
                            Some(spawner.element)
                        } else {
                            Some(EMPTY)
                        },
                    }
                } else {
                    old(field).cell(x, y)
                }),
            decreases spawner.rate - grain,
        {
            let ghost start = *field;
            emit_grain(field, spawner, index, grain, seed, tick);
            proof {
                assert forall|a: i32, b: i32| #[trigger] field.cell(a, b) == (if old(field).cell(a, b) == Some(EMPTY) {
                    match first_emitted(spawners@, index as int, seed, tick, a, b) {
                        Some(e) => Some(e),
                        None => if hits_within(spawner, index as int, grain + 1, seed, tick, a, b) {
                            Some(spawner.element)
                        } else {
                            Some(EMPTY)
                        },
                    }
                } else {
                    old(field).cell(a, b)
                }) by {
                    assert(start.cell(a, b) == (if old(field).cell(a, b) == Some(EMPTY) {
                        match first_emitted(spawners@, index as int, seed, tick, a, b) {
                            Some(e) => Some(e),
                            None => if hits_within(spawner, index as int, grain as int, seed, tick, a, b) {
                                Some(spawner.element)
                            } else {
                                Some(EMPTY)
                            },
                        }
                    } else {
                        old(field).cell(a, b)
                    }));
                    lemma_first_emitted(spawners@, index as int, seed, tick, a, b);
                    if hits_within(spawner, index as int, grain + 1, seed, tick, a, b) && !grain_hits(
                        spawner,
                        index as int,
                        grain as int,
                        seed,
                        tick,
                        a,
                        b,
                    ) {
                        let g = choose|g: int| 0 <= g < grain + 1 && #[trigger] grain_hits(spawner, index as int, g, seed, tick, a, b);
                        assert(hits_within(spawner, index as int, grain as int, seed, tick, a, b));
                    }
                    if grain_hits(spawner, index as int, grain as int, seed, tick, a, b) {
                        assert(hits_within(spawner, index as int, grain + 1, seed, tick, a, b));
                    }
                }
            }
            grain = grain + 1;
        }
        proof {
            assert forall|x: i32, y: i32| #[trigger] field.cell(x, y) == emitted_cell(old(field).cell(x, y), spawners@, index + 1, seed, tick, x, y) by {
                assert(spawners@[index as int] == spawner);
                lemma_first_emitted(spawners@, index + 1, seed, tick, x, y);
            }
        }
        index = index + 1;
    }
    proof {
        assert forall|x: i32, y: i32|
            #[trigger] field.cell(x, y) != old(field).cell(x, y) implies old(field).cell(x, y) == Some(EMPTY)
                && exists|i: int| 0 <= i < spawners@.len() && field.cell(x, y) == Some(#[trigger] spawners@[i].element) by {
            lemma_first_emitted(spawners@, spawners@.len() as int, seed, tick, x, y);
        }
        assert forall|x: i32, y: i32| occupied(*old(field), x, y) implies #[trigger] field.cell(x, y) == old(field).cell(x, y) by {}
    }
}

} // verus!
