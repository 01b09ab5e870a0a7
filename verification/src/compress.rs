//! Pressure: the weight of the column standing on a cell, and what enough of it does.
//!
//! Heat is a stored quantity that conducts; load is a derived one, recomputed every
//! tick from the arrangement of matter alone. Burnt residue compacts into fuel under
//! enough overburden, so depth is the dial.
//!
//! Load accumulates only through contiguous matter. A gap resets it to nothing: a
//! shelf with air under it presses on nothing.

use vstd::prelude::*;
use crate::elements::{Element, ElementId, ElementTable, ElementView, EMPTY};
use crate::field::{same_moved, Bounds, CellField};
use crate::rng;

verus! {

/// Continues the salt numbering of the other passes, so two unrelated draws never
/// correlate.
pub const SALT_COMPACT: u32 = 7;

/// `a + b`, held at the ends of the `i64` range.
pub open spec fn sat_add_spec(a: int, b: int) -> int {
    if a + b > i64::MAX {
        i64::MAX as int
    } else if a + b < i64::MIN {
        i64::MIN as int
    } else {
        a + b
    }
}

fn sat_add(a: i64, b: i64) -> (r: i64)
    ensures
        r == sat_add_spec(a as int, b as int),
{
    let sum: i128 = a as i128 + b as i128;
    if sum > i64::MAX as i128 {
        i64::MAX
    } else if sum < i64::MIN as i128 {
        i64::MIN
    } else {
        sum as i64
    }
}

/// The element defined for the cell at `(x, y)`, if it holds one.
pub open spec fn element_at<F: CellField>(f: F, els: Seq<Option<ElementView>>, x: i32, y: i32) -> Option<ElementView> {
    match f.cell(x, y) {
        Some(id) => if (id as int) < els.len() {
            els[id as int]
        } else {
            None
        },
        None => None,
    }
}

/// The weight of the contiguous column of matter from row `a` up to row `top`, added
/// to `acc`, one cell at a time.
pub open spec fn load_from<F: CellField>(f: F, els: Seq<Option<ElementView>>, x: i32, a: int, top: int, acc: int) -> int
    decreases a - top + 1,
{
    if a < top || a < i32::MIN {
        acc
    } else {
        match element_at(f, els, x, a as i32) {
            Some(e) => load_from(f, els, x, a - 1, top, sat_add_spec(acc, e.density as int)),
            None => acc,
        }
    }
}

/// The chance per tick, in 1/65536ths, that a cell under `load` compacts: how far past
/// its threshold the load is, as a ratio capped at 1, scaled by how soft the material
/// is.
pub open spec fn compaction_chance(e: ElementView, load: int) -> int {
    let threshold = e.compaction_load as int;
    let excess = if load - threshold < threshold { load - threshold } else { threshold };
    let ratio = (excess * 65536) / threshold;
    let soft = 65536 - e.hardness.0;
    let softness = if soft > 0 { soft } else { 0 };
    (softness * ratio) / 65536
}

/// Whether a cell of `e` under `load` can compact at all.
pub open spec fn under_pressure(e: ElementView, load: int) -> bool {
    e.compacts_into != EMPTY && e.compaction_load > 0 && load >= e.compaction_load
}

/// Whether the roll for a cell of `e` under `load` at `(x, y)` compacts it.
pub open spec fn crushes(e: ElementView, load: int, seed: u64, tick: u64, x: i32, y: i32) -> bool {
    under_pressure(e, load) && (rng::below_spec(seed, tick, x, y, SALT_COMPACT, 0x1_0000) as int) < compaction_chance(e, load)
}

/// What the pressure pass reads and writes: the contents of every position, and the
/// running load of every column of the swept region.
pub struct PressState {
    pub cell: spec_fn(i32, i32) -> Option<ElementId>,
    pub load: Seq<int>,
}

/// The defined element at a position, if any.
pub open spec fn defined_in(cell: spec_fn(i32, i32) -> Option<ElementId>, els: Seq<Option<ElementView>>, x: i32, y: i32) -> Option<ElementView> {
    match cell(x, y) {
        Some(id) => if id != EMPTY && (id as int) < els.len() {
            els[id as int]
        } else {
            None
        },
        None => None,
    }
}

/// One visited cell, in column `c`: anything but defined matter resets the column's
/// load; matter first feels the load on it, possibly compacting, and then adds its own
/// density as it now stands.
pub open spec fn press_visit(s: PressState, els: Seq<Option<ElementView>>, seed: u64, tick: u64, c: int, x: i32, y: i32) -> PressState {
    match defined_in(s.cell, els, x, y) {
        Some(e) => {
            let load = s.load[c];
            let cell = if crushes(e, load, seed, tick, x, y) {
                |i: i32, j: i32| if i == x && j == y { Some(e.compacts_into) } else { (s.cell)(i, j) }
            } else {
                s.cell
            };
            let weight = match cell(x, y) {
                Some(id) => if (id as int) < els.len() && els[id as int] is Some {
                    els[id as int].unwrap().density as int
                } else {
                    0
                },
                None => 0,
            };
            PressState { cell, load: s.load.update(c, sat_add_spec(load, weight)) }
        },
        None => PressState { cell: s.cell, load: s.load.update(c, 0) },
    }
}

/// Positions `x..=max_x` of row `y`, left to right.
pub open spec fn press_row(s: PressState, els: Seq<Option<ElementView>>, seed: u64, tick: u64, b: Bounds, y: i32, x: int) -> PressState
    decreases b.max_x - x + 1,
{
    if x > b.max_x {
        s
    } else {
        press_row(press_visit(s, els, seed, tick, x - b.min_x, x as i32, y), els, seed, tick, b, y, x + 1)
    }
}

/// Rows `y..=max_y`, top to bottom.
pub open spec fn press_rows(s: PressState, els: Seq<Option<ElementView>>, seed: u64, tick: u64, b: Bounds, y: int) -> PressState
    decreases b.max_y - y + 1,
{
    if y > b.max_y {
        s
    } else {
        press_rows(press_row(s, els, seed, tick, b, y as i32, b.min_x as int), els, seed, tick, b, y + 1)
    }
}

/// The contents after the whole pass: every column starts with no load at the top of
/// the swept region.
pub open spec fn press_step_spec<F: CellField>(f: F, els: Seq<Option<ElementView>>, seed: u64, tick: u64) -> spec_fn(i32, i32) -> Option<ElementId> {
    let start = |i: i32, j: i32| f.cell(i, j);
    match f.region() {
        Some(b) => if b.max_x - b.min_x + 1 <= 0 {
            start
        } else {
            press_rows(PressState { cell: start, load: Seq::new((b.max_x - b.min_x + 1) as nat, |k: int| 0int) }, els, seed, tick, b, b.min_y as int).cell
        },
        None => start,
    }
}

/// Compacts anything standing under enough weight.
///
/// One top-to-bottom sweep carrying a running load per column, so the whole field costs
/// a single pass rather than a walk up the column at every cell.
pub fn step<F: CellField>(field: &mut F, elements: &ElementTable, seed: u64, tick: u64)
    requires
        old(field).field_inv(),
    ensures
        final(field).field_inv(),
        forall|i: i32, j: i32| #[trigger] final(field).cell(i, j) == (press_step_spec(*old(field), elements@, seed, tick))(i, j),
        forall|i: i32, j: i32| #[trigger] final(field).heat_at(i, j) == old(field).heat_at(i, j),
        same_moved(*old(field), *final(field)),
{
    let ghost start = *field;
    let bounds = match field.bounds() {
        Some(b) => b,
        None => {
            return;
        },
    };
    let width: i64 = bounds.width();
    if width <= 0 || width > 0x1_0000_0000 {
        return;
    }
    // One accumulator per column, carried down the sweep. `i64` because an unbounded
    // canvas puts no ceiling on how tall a column can get.
    let mut load: Vec<i64> = Vec::new();
    let mut k: i64 = 0;
    while k < width
        invariant
            0 <= k <= width,
            load@.len() == k,
            forall|c: int| 0 <= c < load@.len() ==> load@[c] == 0,
        decreases width - k,
    {
        load.push(0);
        k = k + 1;
    }
    let ghost mut s = PressState { cell: |i: i32, j: i32| start.cell(i, j), load: Seq::new(width as nat, |c: int| 0int) };
    let ghost result = press_step_spec(start, elements@, seed, tick);
    proof {
        assert(result == press_rows(s, elements@, seed, tick, bounds, bounds.min_y as int).cell);
    }
    let mut y: i64 = bounds.min_y as i64;
    while y <= bounds.max_y as i64
        invariant
            field.field_inv(),
            load@.len() == width,
            width == bounds.max_x - bounds.min_x + 1,
            bounds.min_y <= y,
            y <= bounds.max_y as i64 + 1 || y == bounds.min_y,
            s.load.len() == width,
            forall|c: int| 0 <= c < width ==> #[trigger] s.load[c] == load@[c] as int,
            forall|i: i32, j: i32| #[trigger] field.cell(i, j) == (s.cell)(i, j),
            forall|i: i32, j: i32| #[trigger] field.heat_at(i, j) == start.heat_at(i, j),
            same_moved(start, *field),
            result == press_rows(s, elements@, seed, tick, bounds, y as int).cell,
        decreases bounds.max_y - y + 1,
    {
        let mut x: i64 = bounds.min_x as i64;
        while x <= bounds.max_x as i64
            invariant
                field.field_inv(),
                load@.len() == width,
                width == bounds.max_x - bounds.min_x + 1,
                bounds.min_y <= y <= bounds.max_y,
                bounds.min_x <= x,
                x <= bounds.max_x as i64 + 1 || x == bounds.min_x,
                s.load.len() == width,
                forall|c: int| 0 <= c < width ==> #[trigger] s.load[c] == load@[c] as int,
                forall|i: i32, j: i32| #[trigger] field.cell(i, j) == (s.cell)(i, j),
                forall|i: i32, j: i32| #[trigger] field.heat_at(i, j) == start.heat_at(i, j),
                same_moved(start, *field),
                result == press_rows(press_row(s, elements@, seed, tick, bounds, y as i32, x as int), elements@, seed, tick, bounds, y + 1).cell,
            decreases bounds.max_x - x + 1,
        {
            let (cx, cy) = (x as i32, y as i32);
            let column: usize = (x - bounds.min_x as i64) as usize;
            let ghost before = s;
            let ghost next = press_visit(s, elements@, seed, tick, column as int, cx, cy);
            proof {
                assert(press_row(s, elements@, seed, tick, bounds, y as i32, x as int) == press_row(next, elements@, seed, tick, bounds, y as i32, x + 1));
            }
            let element: &Element = match field.get(cx, cy) {
                Some(id) => {
                    if id == EMPTY {
                        load.set(column, 0);
                        proof {
                            s = next;
                        }
                        x = x + 1;
                        continue;
                    }
                    match elements.get(id) {
                        Some(e) => e,
                        None => {
                            load.set(column, 0);
                            proof {
                                s = next;
                            }
                            x = x + 1;
                            continue;
                        },
                    }
                },
                None => {
                    load.set(column, 0);
                    proof {
                        s = next;
                    }
                    x = x + 1;
                    continue;
                },
            };
            proof {
                assert(defined_in(s.cell, elements@, cx, cy) == Some(element@));
            }
            // What is already on this cell, before it adds its own weight to the total
            // for whatever is under it.
            let ghost pre = *field;
            crush(field, element, cx, cy, load[column], seed, tick);
            // Re-read: a cell that just compacted is a denser thing than it was, and
            // whatever is under it should feel what is actually standing there now.
            let weight: i64 = match field.get(cx, cy) {
                Some(id) => match elements.get(id) {
                    Some(e) => e.density as i64,
                    None => 0,
                },
                None => 0,
            };
            let total = sat_add(load[column], weight);
            load.set(column, total);
            proof {
                assert forall|i: i32, j: i32| #[trigger] field.cell(i, j) == (next.cell)(i, j) by {
                    if !(i == cx && j == cy) {
                        assert(field.cell(i, j) == pre.cell(i, j));
                    }
                }
                s = next;
            }
            x = x + 1;
        }
        y = y + 1;
    }
}

/// The chance per tick, in 1/65536ths, that a cell of `element` under `load` compacts.
fn chance_of(element: &Element, load: i64) -> (r: i64)
    requires
        under_pressure(element@, load as int),
    ensures
        r == compaction_chance(element@, load as int),
{
    let threshold: i64 = element.compaction_load as i64;
    let excess: i64 = if load - threshold < threshold {
        load - threshold
    } else {
        threshold
    };
    let ratio: i64 = (excess * 65536) / threshold;
    let soft: i64 = 65536 - element.hardness.0 as i64;
    let softness: i64 = if soft > 0 {
        soft
    } else {
        0
    };
    proof {
        assert(0 <= ratio <= 65536) by (nonlinear_arith)
            requires
                0 <= excess <= threshold,
                threshold > 0,
                ratio == (excess as int * 65536) / (threshold as int),
        ;
        assert(0 <= softness * ratio <= 0x2_0000_0000 * 65536) by (nonlinear_arith)
            requires
                0 <= softness <= 0x2_0000_0000,
                0 <= ratio <= 65536,
        ;
    }
    (softness * ratio) / 65536
}

/// Rolls for one cell under `load`: the chance scales with how far past its threshold
/// the load is, tempered by hardness, so a deeper pile compacts faster.
fn crush<F: CellField>(field: &mut F, element: &Element, x: i32, y: i32, load: i64, seed: u64, tick: u64)
    requires
        old(field).field_inv(),
    ensures
        final(field).field_inv(),
        final(field).cell(x, y) == (if crushes(element@, load as int, seed, tick, x, y) && old(field).cell(x, y) is Some {
            Some(element.compacts_into)
        } else {
            old(field).cell(x, y)
        }),
        forall|i: i32, j: i32| !(i == x && j == y) ==> #[trigger] final(field).cell(i, j) == old(field).cell(i, j),
        forall|i: i32, j: i32| #[trigger] final(field).heat_at(i, j) == old(field).heat_at(i, j),
        same_moved(*old(field), *final(field)),
{
    if element.compacts_into == EMPTY {
        return;
    }
    let threshold: i64 = element.compaction_load as i64;
    if threshold <= 0 || load < threshold {
        return;
    }
    // Under load and not yet compacted still counts as something happening here: a
    // settled pile moves nothing, so nothing else would keep its chunk awake.
    let ghost s0 = *field;
    field.mark_active(x, y);
    proof {
        assert forall|i: i32, j: i32| #[trigger] field.heat_at(i, j) == s0.heat_at(i, j) by {
            assert(field.cell(i, j) == s0.cell(i, j));
        }
    }
    let chance: i64 = chance_of(element, load);
    let roll = rng::below(seed, tick, x, y, SALT_COMPACT, 0x1_0000);
    if (roll as i64) < chance {
        replace_matter(field, x, y, element.compacts_into);
    }
}

/// Changes what a cell holds in place, keeping every temperature.
fn replace_matter<F: CellField>(field: &mut F, x: i32, y: i32, id: ElementId)
    requires
        old(field).field_inv(),
        id != EMPTY,
    ensures
        final(field).field_inv(),
        final(field).cell(x, y) == (if old(field).cell(x, y) is Some { Some(id) } else { None }),
        forall|i: i32, j: i32| !(i == x && j == y) ==> #[trigger] final(field).cell(i, j) == old(field).cell(i, j),
        forall|i: i32, j: i32| #[trigger] final(field).heat_at(i, j) == old(field).heat_at(i, j),
        same_moved(*old(field), *final(field)),
{
    let ghost before = *field;
    field.set(x, y, id);
    proof {
        assert forall|i: i32, j: i32| #[trigger] field.heat_at(i, j) == before.heat_at(i, j) by {
            assert(field.cell(i, j) == field.cell(i, j));
            if !(i == x && j == y) {
                assert(field.cell(i, j) == before.cell(i, j));
            }
        }
    }
}

/// The weight bearing down on one cell: the contiguous column of matter directly above
/// it, by density, up to the top of the swept region. For the inspector and for tests.
pub fn load_at<F: CellField>(field: &F, elements: &ElementTable, x: i32, y: i32) -> (r: i64)
    requires
        field.field_inv(),
    ensures
        r == (match field.region() {
            Some(b) => load_from(*field, elements@, x, y - 1, b.min_y as int, 0),
            None => 0,
        }),
{
    let bounds = match field.bounds() {
        Some(b) => b,
        None => {
            return 0;
        },
    };
    let mut total: i64 = 0;
    let mut above: i64 = y as i64 - 1;
    while above >= bounds.min_y as i64
        invariant
            field.field_inv(),
            field.region() == Some(bounds),
            above <= y - 1,
            bounds.min_y as i64 - 1 <= above || above == y - 1,
            load_from(*field, elements@, x, y - 1, bounds.min_y as int, 0) == load_from(*field, elements@, x, above as int, bounds.min_y as int, total as int),
        decreases above - bounds.min_y + 1,
    {
        let a: i32 = above as i32;
        let found: Option<&Element> = match field.get(x, a) {
            Some(id) => elements.get(id),
            None => None,
        };
        match found {
            Some(element) => {
                total = sat_add(total, element.density as i64);
            },
            None => {
                proof {
                    assert(element_at(*field, elements@, x, a) is None);
                    assert(load_from(*field, elements@, x, above as int, bounds.min_y as int, total as int) == total);
                }
                return total;
            },
        }
        above = above - 1;
    }
    total
}

} // verus!
