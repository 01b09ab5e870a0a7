//! The storage interface the physics rules are written against.
//!
//! There are two implementations: the flat `Grid` and the chunked `ChunkMap`. They
//! share this trait so they also share one copy of the rules, and every rule is
//! verified once, against the model below, for both.
//!
//! The model of a field is a function from positions to cells (`None` where the world
//! does not extend), a temperature per position, a moved flag per position, and a
//! census: how many cells hold each element.

use vstd::prelude::*;
use crate::elements::{ElementId, EMPTY};
use crate::heat::AMBIENT_TEMPERATURE;

verus! {

/// An inclusive region of cells to sweep.
#[derive(Clone, Copy, PartialEq, Eq, Structural, Debug)]
pub struct Bounds {
    pub min_x: i32,
    pub min_y: i32,
    pub max_x: i32,
    pub max_y: i32,
}

impl Bounds {
    pub open spec fn contains(self, x: int, y: int) -> bool {
        self.min_x <= x <= self.max_x && self.min_y <= y <= self.max_y
    }

    pub fn width(&self) -> (r: i64)
        ensures
            r == self.max_x - self.min_x + 1,
    {
        self.max_x as i64 - self.min_x as i64 + 1
    }

    pub fn height(&self) -> (r: i64)
        ensures
            r == self.max_y - self.min_y + 1,
    {
        self.max_y as i64 - self.min_y as i64 + 1
    }
}

/// Whether a region, if there is one, holds position `(x, y)`.
pub open spec fn region_holds(region: Option<Bounds>, x: int, y: int) -> bool {
    match region {
        Some(b) => b.contains(x, y),
        None => false,
    }
}

/// A coordinate moved one step outward, kept inside `i32`.
pub open spec fn widen(value: int) -> i32 {
    if value < i32::MIN {
        i32::MIN
    } else if value > i32::MAX {
        i32::MAX
    } else {
        value as i32
    }
}

/// A region grown by one cell on every side, as far as `i32` reaches: where anything
/// inside it can be after one step.
pub open spec fn grown(region: Option<Bounds>) -> Option<Bounds> {
    match region {
        Some(b) => Some(
            Bounds { min_x: widen(b.min_x - 1), min_y: widen(b.min_y - 1), max_x: widen(b.max_x + 1), max_y: widen(b.max_y + 1) },
        ),
        None => None,
    }
}

/// Every position other than `(x, y)` holds the same cell and temperature in both.
pub open spec fn same_elsewhere<F: CellField>(a: F, b: F, x: i32, y: i32) -> bool {
    forall|i: i32, j: i32|
        !(i == x && j == y) ==> #[trigger] b.cell(i, j) == a.cell(i, j) && b.heat_at(i, j)
            == a.heat_at(i, j)
}

/// Every position other than `(ax, ay)` and `(bx, by)` holds the same cell and
/// temperature in both.
pub open spec fn same_except_two<F: CellField>(a: F, b: F, ax: i32, ay: i32, bx: i32, by: i32) -> bool {
    forall|i: i32, j: i32|
        !(i == ax && j == ay) && !(i == bx && j == by) ==> #[trigger] b.cell(i, j) == a.cell(i, j)
            && b.heat_at(i, j) == a.heat_at(i, j)
}

/// The same matter everywhere: cells, temperatures and census.
pub open spec fn same_matter<F: CellField>(a: F, b: F) -> bool {
    &&& forall|i: i32, j: i32| #[trigger] b.cell(i, j) == a.cell(i, j) && b.heat_at(i, j) == a.heat_at(i, j)
    &&& same_census(a, b)
}

/// Every element occurs as often in both.
pub open spec fn same_census<F: CellField>(a: F, b: F) -> bool {
    forall|k: ElementId| (k != EMPTY || F::shape_fixed()) ==> #[trigger] b.census(k) == a.census(k)
}

/// Every moved flag is the same in both.
pub open spec fn same_moved<F: CellField>(a: F, b: F) -> bool {
    forall|i: i32, j: i32| #[trigger] b.moved_at(i, j) == a.moved_at(i, j)
}

/// Whether the storage may sleep is as before, and under a fixed shape, so are the
/// region and every row's spans.
/// Whether a storage that would have woken every part, or any one part, still does.
pub open spec fn wake_kept<F: CellField>(a: F, b: F) -> bool {
    &&& a.wakes_all() ==> b.wakes_all()
    &&& forall|i: i32, j: i32| #[trigger] a.wakes_at(i, j) ==> b.wakes_at(i, j)
}

/// Whether every cell reported as changed still is, and every cell that changed is.
pub open spec fn changes_reported<F: CellField>(a: F, b: F) -> bool {
    &&& forall|i: i32, j: i32| #[trigger] a.active_at(i, j) ==> b.active_at(i, j)
    &&& forall|i: i32, j: i32| #[trigger] b.cell(i, j) != a.cell(i, j) ==> b.active_at(i, j)
}

/// Whether a field at ambient temperature everywhere still is.
pub open spec fn cold_kept<F: CellField>(a: F, b: F) -> bool {
    (forall|i: i32, j: i32| #[trigger] a.heat_at(i, j) == AMBIENT_TEMPERATURE) ==> forall|i: i32, j: i32|
        #[trigger] b.heat_at(i, j) == AMBIENT_TEMPERATURE
}

/// Whether every part that was running still is.
pub open spec fn awake_kept<F: CellField>(a: F, b: F) -> bool {
    forall|i: i32, j: i32| #[trigger] a.awake_at(i, j) ==> b.awake_at(i, j)
}

pub open spec fn shape_kept<F: CellField>(a: F, b: F) -> bool {
    &&& b.may_sleep() == a.may_sleep()
    &&& F::shape_fixed() ==> b.region() == a.region() && forall|r: i32| #[trigger] b.spans(r) == a.spans(r)
}

/// Whether the cell at `(x, y)` holds matter.
pub open spec fn occupied<F: CellField>(f: F, x: i32, y: i32) -> bool {
    f.cell(x, y) is Some && f.cell(x, y) != Some(EMPTY)
}

/// What a write of `id` at `(x, y)` does to the census of `k`.
pub open spec fn census_after_write<F: CellField>(f: F, x: i32, y: i32, id: ElementId, k: ElementId) -> int {
    match f.cell(x, y) {
        Some(old) => f.census(k) - (if old == k { 1int } else { 0 }) + (if id == k { 1int } else { 0 }),
        None => f.census(k),
    }
}

/// Whether column `x` lies in one of the spans.
pub open spec fn in_spans(spans: Seq<(i32, i32)>, x: int) -> bool {
    exists|k: int| 0 <= k < spans.len() && #[trigger] spans[k].0 <= x <= spans[k].1
}

/// Spans that are non-empty, ascending and apart.
pub open spec fn spans_sorted(spans: Seq<(i32, i32)>) -> bool {
    &&& forall|k: int| 0 <= k < spans.len() ==> #[trigger] spans[k].0 <= spans[k].1
    &&& forall|j: int, k: int| 0 <= j < k < spans.len() ==> #[trigger] spans[j].1 < #[trigger] spans[k].0
}

pub trait CellField: Sized {
    /// The contents of a cell, or `None` where the world does not extend.
    spec fn cell(&self, x: i32, y: i32) -> Option<ElementId>;

    /// The temperature a cell reads as, in whole Kelvin.
    spec fn heat_at(&self, x: i32, y: i32) -> i16;

    /// Whether the cell's contents already moved this tick.
    spec fn moved_at(&self, x: i32, y: i32) -> bool;

    /// How many cells hold `id`. Meaningful for real elements, not for `EMPTY`.
    spec fn census(&self, id: ElementId) -> int;

    /// The region `bounds` reports.
    spec fn region(&self) -> Option<Bounds>;

    /// The storage's own invariant.
    spec fn field_inv(&self) -> bool;

    /// Whether the swept region and the spans of every row are fixed by the storage's
    /// shape alone, so that no write or move changes them.
    spec fn shape_fixed() -> bool;

    /// The x-ranges `active_spans` reports for row `y`, where the shape fixes them.
    spec fn spans(&self, y: i32) -> Seq<(i32, i32)>;

    /// Whether the spans of every row take in all of that row's matter, as they do
    /// unless parts of the storage are asleep.
    spec fn covers(&self) -> bool;

    /// Whether the storage may leave settled parts out of the sweep.
    spec fn may_sleep(&self) -> bool;

    /// Whether a change at cell `(x, y)` has been reported during the tick now
    /// running, so that the part of the storage holding it runs next tick.
    spec fn active_at(&self, x: i32, y: i32) -> bool;

    /// Whether the next `begin_tick` will wake every part of the storage: nothing
    /// sleeps, or every part is near reported activity or kept awake regardless.
    spec fn wakes_all(&self) -> bool;

    /// Whether the next `begin_tick` will wake the part holding cell `(x, y)`.
    spec fn wakes_at(&self, x: i32, y: i32) -> bool;

    /// Whether the part holding cell `(x, y)` runs in the tick now under way.
    spec fn awake_at(&self, x: i32, y: i32) -> bool;

    /// Whether a change has been reported in every part the storage holds, as in
    /// storage built since the last tick began.
    spec fn all_active(&self) -> bool;

    /// Heat only exists where matter does: an empty or missing cell reads as ambient,
    /// and every occupied cell lies in the swept region.
    proof fn lemma_field(&self, x: i32, y: i32)
        requires
            self.field_inv(),
        ensures
            !(self.cell(x, y) is Some && self.cell(x, y) != Some(EMPTY)) ==> self.heat_at(x, y) == AMBIENT_TEMPERATURE,
            (self.cell(x, y) is Some && self.cell(x, y) != Some(EMPTY)) ==> self.region() is Some && self.region().unwrap().contains(
                x as int,
                y as int,
            ),
    ;

    /// The contents of a cell, or `None` where the world does not extend.
    ///
    /// `None` is an impassable boundary, not empty space: a fixed grid has edges, and
    /// nothing may fall through them.
    fn get(&self, x: i32, y: i32) -> (r: Option<ElementId>)
        requires
            self.field_inv(),
        ensures
            r == self.cell(x, y),
    ;

    /// Places an element. Storage that grows on demand allocates here. Writing
    /// `EMPTY` clears the cell's temperature back to ambient; any other write keeps it.
    fn set(&mut self, x: i32, y: i32, id: ElementId)
        requires
            old(self).field_inv(),
        ensures
            final(self).field_inv(),
            final(self).cell(x, y) == (if old(self).cell(x, y) is Some {
                Some(id)
            } else {
                None
            }),
            final(self).heat_at(x, y) == (if id == EMPTY {
                AMBIENT_TEMPERATURE
            } else {
                old(self).heat_at(x, y)
            }),
            forall|i: i32, j: i32|
                !(i == x && j == y) ==> #[trigger] final(self).cell(i, j) == old(self).cell(i, j) && final(self).heat_at(i, j)
                    == old(self).heat_at(i, j),
            forall|k: ElementId|
                (k != EMPTY || Self::shape_fixed()) ==> #[trigger] final(self).census(k) == (match old(self).cell(x, y) {
                    Some(prior) => old(self).census(k) - (if prior == k {
                        1int
                    } else {
                        0
                    }) + (if id == k {
                        1int
                    } else {
                        0
                    }),
                    None => old(self).census(k),
                }),
            forall|i: i32, j: i32| #[trigger] final(self).moved_at(i, j) == old(self).moved_at(i, j),
            Self::shape_fixed() ==> final(self).region() == old(self).region() && forall|r: i32| #[trigger] final(self).spans(r) == old(self).spans(r),
            old(self).covers() ==> final(self).covers(),
            forall|i: i32, j: i32| #[trigger] old(self).active_at(i, j) ==> final(self).active_at(i, j),
            final(self).may_sleep() == old(self).may_sleep(),
            old(self).wakes_all() ==> final(self).wakes_all(),
            forall|i: i32, j: i32| #[trigger] old(self).wakes_at(i, j) ==> final(self).wakes_at(i, j),
            old(self).all_active() ==> final(self).all_active(),
    ;

    /// Exchanges two cells, temperatures included. Movement is always a swap, so no
    /// rule can create or destroy a particle.
    fn swap(&mut self, ax: i32, ay: i32, bx: i32, by: i32)
        requires
            old(self).field_inv(),
            old(self).cell(ax, ay) is Some,
            old(self).cell(bx, by) is Some,
        ensures
            final(self).field_inv(),
            final(self).cell(ax, ay) == old(self).cell(bx, by),
            final(self).cell(bx, by) == old(self).cell(ax, ay),
            final(self).heat_at(ax, ay) == old(self).heat_at(bx, by),
            final(self).heat_at(bx, by) == old(self).heat_at(ax, ay),
            forall|i: i32, j: i32|
                !(i == ax && j == ay) && !(i == bx && j == by) ==> #[trigger] final(self).cell(i, j)
                    == old(self).cell(i, j) && final(self).heat_at(i, j) == old(self).heat_at(i, j),
            forall|k: ElementId| (k != EMPTY || Self::shape_fixed()) ==> #[trigger] final(self).census(k) == old(self).census(k),
            forall|i: i32, j: i32| #[trigger] final(self).moved_at(i, j) == old(self).moved_at(i, j),
            Self::shape_fixed() ==> final(self).region() == old(self).region() && forall|r: i32| #[trigger] final(self).spans(r) == old(self).spans(r),
            old(self).covers() ==> final(self).covers(),
            final(self).may_sleep() == old(self).may_sleep(),
            old(self).wakes_all() ==> final(self).wakes_all(),
            forall|i: i32, j: i32| #[trigger] old(self).wakes_at(i, j) ==> final(self).wakes_at(i, j),
            forall|i: i32, j: i32| #[trigger] old(self).awake_at(i, j) ==> final(self).awake_at(i, j),
            forall|i: i32, j: i32| #[trigger] old(self).active_at(i, j) ==> final(self).active_at(i, j),
            forall|i: i32, j: i32| #[trigger] final(self).cell(i, j) != old(self).cell(i, j) ==> final(self).active_at(i, j),
    ;

    fn is_moved(&self, x: i32, y: i32) -> (r: bool)
        requires
            self.field_inv(),
        ensures
            r == self.moved_at(x, y),
    ;

    fn mark_moved(&mut self, x: i32, y: i32)
        requires
            old(self).field_inv(),
        ensures
            final(self).field_inv(),
            forall|i: i32, j: i32|
                #[trigger] final(self).cell(i, j) == old(self).cell(i, j) && final(self).heat_at(i, j) == old(self).heat_at(i, j),
            forall|k: ElementId| (k != EMPTY || Self::shape_fixed()) ==> #[trigger] final(self).census(k) == old(self).census(k),
            old(self).cell(x, y) is Some ==> final(self).moved_at(x, y),
            forall|i: i32, j: i32|
                !(i == x && j == y) ==> #[trigger] final(self).moved_at(i, j) == old(self).moved_at(
                    i,
                    j,
                ),
            Self::shape_fixed() ==> final(self).region() == old(self).region() && forall|r: i32| #[trigger] final(self).spans(r) == old(self).spans(r),
            old(self).covers() ==> final(self).covers(),
            final(self).may_sleep() == old(self).may_sleep(),
            old(self).wakes_all() ==> final(self).wakes_all(),
            forall|i: i32, j: i32| #[trigger] old(self).wakes_at(i, j) ==> final(self).wakes_at(i, j),
            forall|i: i32, j: i32| #[trigger] old(self).awake_at(i, j) ==> final(self).awake_at(i, j),
            forall|i: i32, j: i32| #[trigger] old(self).active_at(i, j) ==> final(self).active_at(i, j),
    ;

    /// Reports that something changed at a cell other than by a move, so storage that
    /// skips settled regions keeps simulating it.
    fn mark_active(&mut self, x: i32, y: i32)
        requires
            old(self).field_inv(),
        ensures
            final(self).field_inv(),
            forall|i: i32, j: i32|
                #[trigger] final(self).cell(i, j) == old(self).cell(i, j) && final(self).heat_at(i, j) == old(self).heat_at(i, j),
            forall|k: ElementId| (k != EMPTY || Self::shape_fixed()) ==> #[trigger] final(self).census(k) == old(self).census(k),
            forall|i: i32, j: i32| #[trigger] final(self).moved_at(i, j) == old(self).moved_at(i, j),
            Self::shape_fixed() ==> final(self).region() == old(self).region() && forall|r: i32| #[trigger] final(self).spans(r) == old(self).spans(r),
            old(self).covers() ==> final(self).covers(),
            final(self).active_at(x, y),
            forall|i: i32, j: i32| #[trigger] old(self).active_at(i, j) ==> final(self).active_at(i, j),
            final(self).may_sleep() == old(self).may_sleep(),
            old(self).wakes_all() ==> final(self).wakes_all(),
            forall|i: i32, j: i32| #[trigger] old(self).wakes_at(i, j) ==> final(self).wakes_at(i, j),
    ;

    /// The temperature a cell reads as.
    fn temperature(&self, x: i32, y: i32) -> (r: i16)
        requires
            self.field_inv(),
        ensures
            r == self.heat_at(x, y),
    ;

    /// Sets the temperature of a cell holding matter. Heat does not exist in empty
    /// space, so anywhere else this does nothing.
    fn set_temperature(&mut self, x: i32, y: i32, value: i16)
        requires
            old(self).field_inv(),
        ensures
            final(self).field_inv(),
            forall|i: i32, j: i32| #[trigger] final(self).cell(i, j) == old(self).cell(i, j),
            final(self).heat_at(x, y) == (if (old(self).cell(x, y) is Some && old(self).cell(x, y) != Some(EMPTY)) {
                value
            } else {
                old(self).heat_at(x, y)
            }),
            forall|i: i32, j: i32|
                !(i == x && j == y) ==> #[trigger] final(self).cell(i, j) == old(self).cell(i, j) && final(self).heat_at(i, j)
                    == old(self).heat_at(i, j),
            forall|k: ElementId| (k != EMPTY || Self::shape_fixed()) ==> #[trigger] final(self).census(k) == old(self).census(k),
            forall|i: i32, j: i32| #[trigger] final(self).moved_at(i, j) == old(self).moved_at(i, j),
            final(self).region() == old(self).region(),
            Self::shape_fixed() ==> forall|r: i32| #[trigger] final(self).spans(r) == old(self).spans(r),
            old(self).covers() ==> final(self).covers(),
            final(self).may_sleep() == old(self).may_sleep(),
            old(self).wakes_all() ==> final(self).wakes_all(),
            forall|i: i32, j: i32| #[trigger] old(self).wakes_at(i, j) ==> final(self).wakes_at(i, j),
            forall|i: i32, j: i32| #[trigger] old(self).active_at(i, j) ==> final(self).active_at(i, j),
    ;

    /// Called once before each tick's sweep, to clear per-tick state and work out what
    /// needs simulating.
    fn begin_tick(&mut self)
        requires
            old(self).field_inv(),
        ensures
            final(self).field_inv(),
            forall|i: i32, j: i32|
                #[trigger] final(self).cell(i, j) == old(self).cell(i, j) && final(self).heat_at(i, j) == old(self).heat_at(i, j),
            forall|k: ElementId| (k != EMPTY || Self::shape_fixed()) ==> #[trigger] final(self).census(k) == old(self).census(k),
            final(self).region() == old(self).region(),
            forall|i: i32, j: i32| !#[trigger] final(self).moved_at(i, j),
            Self::shape_fixed() ==> forall|r: i32| #[trigger] final(self).spans(r) == old(self).spans(r),
            !old(self).may_sleep() ==> final(self).covers(),
            old(self).wakes_all() ==> final(self).covers(),
            forall|i: i32, j: i32| old(self).wakes_at(i, j) && old(self).cell(i, j) is Some && old(self).cell(i, j) != Some(EMPTY) ==> #[trigger] final(self).awake_at(i, j),
            final(self).may_sleep() == old(self).may_sleep(),
    ;

    /// The region to sweep this tick, or `None` when there is nothing to simulate.
    fn bounds(&self) -> (r: Option<Bounds>)
        requires
            self.field_inv(),
        ensures
            r == self.region(),
    ;

    /// The x-ranges worth visiting on row `y`, ascending and non-overlapping, appended
    /// to `out`.
    fn active_spans(&self, y: i32, out: &mut Vec<(i32, i32)>)
        requires
            self.field_inv(),
        ensures
            final(out)@.len() >= old(out)@.len(),
            old(out)@.len() == 0 ==> forall|i: int|
                0 <= i < final(out)@.len() ==> #[trigger] final(out)@[i].0 <= final(out)@[i].1,
            Self::shape_fixed() ==> final(out)@ == old(out)@ + self.spans(y),
            old(out)@.len() == 0 ==> spans_sorted(final(out)@),
            old(out)@.len() == 0 && self.covers() ==> forall|x: i32|
                self.cell(x, y) is Some && self.cell(x, y) != Some(EMPTY) ==> #[trigger] in_spans(final(out)@, x as int),            old(out)@.len() == 0 ==> forall|x: i32|
                self.awake_at(x, y) && self.cell(x, y) is Some && self.cell(x, y) != Some(EMPTY) ==> #[trigger] in_spans(final(out)@, x as int),
    ;
}

} // verus!
