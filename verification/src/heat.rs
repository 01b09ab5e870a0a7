//! Temperature: a real per-cell quantity that conducts between touching matter and can
//! carry an element across its melting or boiling point.
//!
//! Deliberately separate from the movement sweep: its moved flags exist to stop a
//! particle being carried along twice in one tick, a concern unrelated to heat.
//!
//! Heat only exists where matter does: it does not conduct through empty space, and an
//! empty cell never reads as anything but ambient.

use vstd::prelude::*;
use crate::elements::{Element, ElementId, ElementTable, ElementView, EMPTY};
use crate::field::{changes_reported, region_holds, same_moved, shape_kept, Bounds, CellField};
use crate::visits::{fold_visits, idle_skipped, row_cols, rows_down};
use crate::fixed::{Fixed, clamp_i32, div_trunc};

verus! {

/// Room temperature, in whole Kelvin. What any cell reads as until something heats or
/// cools it, including storage that has never been allocated.
pub const AMBIENT_TEMPERATURE: i16 = 293;

/// How much heat moves from the hotter of two touching cells to the colder, given
/// their difference and the worse conductor of the pair: the scaled difference,
/// floored, and never more than half the difference, so the two meet in the middle at
/// equilibrium instead of swapping sides.
pub open spec fn transfer_spec(diff: int, conductivity: Fixed) -> int {
    let scaled = clamp_i32(div_trunc(clamp_i32(diff * 65536) * conductivity.0, 65536)) / 65536;
    if scaled < 0 {
        0
    } else if scaled > diff / 2 {
        diff / 2
    } else {
        scaled
    }
}

/// What an element becomes at `temperature`, or `EMPTY` for nothing. Boiling first: a
/// substance hot enough to boil already crossed its melting point on the way there.
/// Going up compares with `>=` and coming down with `<`, so a cell parked exactly on
/// a threshold settles instead of flipping every tick.
pub open spec fn transition_target(e: ElementView, temperature: int) -> u8 {
    if e.boils_into != EMPTY && temperature >= e.boiling_point {
        e.boils_into
    } else if e.melts_into != EMPTY && temperature >= e.melting_point {
        e.melts_into
    } else if e.condenses_into != EMPTY && temperature < e.boiling_point {
        e.condenses_into
    } else if e.freezes_into != EMPTY && temperature < e.melting_point {
        e.freezes_into
    } else {
        EMPTY
    }
}

/// What the heat pass reads and writes: the contents and the temperature of every
/// position.
pub struct HeatModel {
    pub cell: spec_fn(i32, i32) -> Option<ElementId>,
    pub heat: spec_fn(i32, i32) -> i16,
}

/// The model of a field.
pub open spec fn model_of<F: CellField>(f: F) -> HeatModel {
    HeatModel { cell: |i: i32, j: i32| f.cell(i, j), heat: |i: i32, j: i32| f.heat_at(i, j) }
}

/// The field holds what the model says, everywhere.
pub open spec fn agrees<F: CellField>(f: F, m: HeatModel) -> bool {
    &&& forall|i: i32, j: i32| #[trigger] f.cell(i, j) == (m.cell)(i, j)
    &&& forall|i: i32, j: i32| #[trigger] f.heat_at(i, j) == (m.heat)(i, j)
}

pub open spec fn holds_matter(m: HeatModel, x: i32, y: i32) -> bool {
    (m.cell)(x, y) is Some && (m.cell)(x, y) != Some(EMPTY)
}

/// The defined element at a position, if any.
pub open spec fn defined_at(m: HeatModel, els: Seq<Option<ElementView>>, x: i32, y: i32) -> Option<ElementView> {
    match (m.cell)(x, y) {
        Some(id) => if (id as int) < els.len() {
            els[id as int]
        } else {
            None
        },
        None => None,
    }
}

pub open spec fn with_heat(m: HeatModel, x: i32, y: i32, t: i16) -> HeatModel {
    HeatModel { cell: m.cell, heat: |i: i32, j: i32| if i == x && j == y { t } else { (m.heat)(i, j) } }
}

pub open spec fn with_cell(m: HeatModel, x: i32, y: i32, id: ElementId) -> HeatModel {
    HeatModel { cell: |i: i32, j: i32| if i == x && j == y { Some(id) } else { (m.cell)(i, j) }, heat: m.heat }
}

/// One exchange between two distinct cells of defined matter: the hotter gives the
/// colder `transfer_spec` of their difference, at the worse conductor's rate.
pub open spec fn exchange_spec(m: HeatModel, els: Seq<Option<ElementView>>, ax: i32, ay: i32, bx: i32, by: i32) -> HeatModel {
    if ax == bx && ay == by || !holds_matter(m, ax, ay) || !holds_matter(m, bx, by) {
        m
    } else {
        match (defined_at(m, els, ax, ay), defined_at(m, els, bx, by)) {
            (Some(a), Some(b)) => {
                let ta = (m.heat)(ax, ay) as int;
                let tb = (m.heat)(bx, by) as int;
                let conductivity = if a.thermal_conductivity.0 <= b.thermal_conductivity.0 {
                    a.thermal_conductivity
                } else {
                    b.thermal_conductivity
                };
                if ta > tb {
                    let moved = transfer_spec(ta - tb, conductivity);
                    with_heat(with_heat(m, ax, ay, (ta - moved) as i16), bx, by, (tb + moved) as i16)
                } else if tb > ta {
                    let moved = transfer_spec(tb - ta, conductivity);
                    with_heat(with_heat(m, ax, ay, (ta + moved) as i16), bx, by, (tb - moved) as i16)
                } else {
                    m
                }
            },
            _ => m,
        }
    }
}

/// The phase change a cell of defined matter undergoes at its temperature, if any.
pub open spec fn transition_spec(m: HeatModel, els: Seq<Option<ElementView>>, x: i32, y: i32) -> HeatModel {
    match defined_at(m, els, x, y) {
        Some(e) => {
            let target = transition_target(e, (m.heat)(x, y) as int);
            if holds_matter(m, x, y) && target != EMPTY {
                with_cell(m, x, y, target)
            } else {
                m
            }
        },
        None => m,
    }
}

/// One visited cell: if it holds matter, it exchanges with its right neighbour and
/// then its lower one (each only when occupied), and then undergoes any transition.
pub open spec fn visit_spec(m: HeatModel, els: Seq<Option<ElementView>>, x: i32, y: i32) -> HeatModel {
    if !holds_matter(m, x, y) {
        m
    } else {
        let m1 = if x < i32::MAX && holds_matter(m, (x + 1) as i32, y) {
            exchange_spec(m, els, x, y, (x + 1) as i32, y)
        } else {
            m
        };
        let m2 = if y < i32::MAX && holds_matter(m1, x, (y + 1) as i32) {
            exchange_spec(m1, els, x, y, x, (y + 1) as i32)
        } else {
            m1
        };
        transition_spec(m2, els, x, y)
    }
}

/// Positions `x..=max_x` of row `y`, left to right.
pub open spec fn row_spec(m: HeatModel, els: Seq<Option<ElementView>>, b: Bounds, y: i32, x: int) -> HeatModel
    decreases b.max_x - x + 1,
{
    if x > b.max_x {
        m
    } else {
        row_spec(visit_spec(m, els, x as i32, y), els, b, y, x + 1)
    }
}

/// Rows `y..=max_y`, top to bottom.
pub open spec fn rows_spec(m: HeatModel, els: Seq<Option<ElementView>>, b: Bounds, y: int) -> HeatModel
    decreases b.max_y - y + 1,
{
    if y > b.max_y {
        m
    } else {
        rows_spec(row_spec(m, els, b, y as i32, b.min_x as int), els, b, y + 1)
    }
}

/// The whole pass over the swept region.
pub open spec fn heat_step_spec(m: HeatModel, els: Seq<Option<ElementView>>, region: Option<Bounds>) -> HeatModel {
    match region {
        Some(b) => rows_spec(m, els, b, b.min_y as int),
        None => m,
    }
}

/// A visit to position `p` of the heat pass.
pub open spec fn heat_visit(els: Seq<Option<ElementView>>) -> spec_fn(HeatModel, (int, int)) -> HeatModel {
    |m: HeatModel, p: (int, int)|
        if in_plane(p) {
            visit_spec(m, els, p.0 as i32, p.1 as i32)
        } else {
            m
        }
}

/// Whether position `p` is a cell of the plane.
pub open spec fn in_plane(p: (int, int)) -> bool {
    i32::MIN <= p.0 <= i32::MAX && i32::MIN <= p.1 <= i32::MAX
}

/// Whether position `p` holds matter.
pub open spec fn matter_at() -> spec_fn(HeatModel, (int, int)) -> bool {
    |m: HeatModel, p: (int, int)| in_plane(p) && holds_matter(m, p.0 as i32, p.1 as i32)
}

/// The heat pass never changes where matter is, and passes over empty space.
pub(crate) proof fn lemma_heat_visit_idle(els: Seq<Option<ElementView>>)
    ensures
        idle_skipped(heat_visit(els), matter_at()),
        forall|m: HeatModel, p: (int, int), q: (int, int)| #[trigger] matter_at()(heat_visit(els)(m, p), q) == matter_at()(m, q),
{
    assert forall|m: HeatModel, p: (int, int), q: (int, int)| #[trigger] matter_at()(heat_visit(els)(m, p), q) == matter_at()(m, q) by {
        let (x, y) = (p.0 as i32, p.1 as i32);
        if in_plane(p) && holds_matter(m, x, y) {
            let m1 = if x < i32::MAX && holds_matter(m, (x + 1) as i32, y) {
                exchange_spec(m, els, x, y, (x + 1) as i32, y)
            } else {
                m
            };
            assert(m1.cell == m.cell);
            let m2 = if y < i32::MAX && holds_matter(m1, x, (y + 1) as i32) {
                exchange_spec(m1, els, x, y, x, (y + 1) as i32)
            } else {
                m1
            };
            assert(m2.cell == m.cell);
        }
    }
}

proof fn lemma_row_fold(m: HeatModel, els: Seq<Option<ElementView>>, b: Bounds, y: i32, x: int)
    requires
        b.min_x <= x,
    ensures
        row_spec(m, els, b, y, x) == fold_visits(m, heat_visit(els), row_cols(b, y as int, x)),
    decreases b.max_x - x + 1,
{
    let cols = row_cols(b, y as int, x);
    if x <= b.max_x {
        lemma_row_fold(visit_spec(m, els, x as i32, y), els, b, y, x + 1);
        assert(cols[0] == (x, y as int));
        assert(cols.drop_first() =~= row_cols(b, y as int, x + 1));
    }
}

pub(crate) proof fn lemma_rows_fold(m: HeatModel, els: Seq<Option<ElementView>>, b: Bounds, y: int)
    requires
        b.min_y <= y,
    ensures
        rows_spec(m, els, b, y) == fold_visits(m, heat_visit(els), rows_down(b, y)),
    decreases b.max_y - y + 1,
{
    if y <= b.max_y {
        let r = row_spec(m, els, b, y as i32, b.min_x as int);
        lemma_row_fold(m, els, b, y as i32, b.min_x as int);
        lemma_rows_fold(r, els, b, y + 1);
        crate::visits::lemma_fold_append(m, heat_visit(els), row_cols(b, y, b.min_x as int), rows_down(b, y + 1));
    }
}

/// The heat pass does not depend on the extent it sweeps, as long as that extent holds
/// all the matter: conduction and phase changes only ever happen in matter.
pub proof fn lemma_heat_extent(m: HeatModel, els: Seq<Option<ElementView>>, r1: Option<Bounds>, r2: Option<Bounds>)
    requires
        forall|x: i32, y: i32| #[trigger] holds_matter(m, x, y) ==> region_holds(r1, x as int, y as int) && region_holds(r2, x as int, y as int),
    ensures
        heat_step_spec(m, els, r1) == heat_step_spec(m, els, r2),
{
    lemma_heat_visit_idle(els);
    let live = matter_at();
    assert forall|p: (int, int)| #[trigger] live(m, p) implies region_holds(r1, p.0, p.1) && region_holds(r2, p.0, p.1) by {
        assert(holds_matter(m, p.0 as i32, p.1 as i32));
    }
    match (r1, r2) {
        (Some(b1), Some(b2)) => {
            lemma_rows_fold(m, els, b1, b1.min_y as int);
            lemma_rows_fold(m, els, b2, b2.min_y as int);
            crate::visits::lemma_region_extent(m, heat_visit(els), live, b1, b2);
        },
        (Some(b1), None) => {
            lemma_rows_fold(m, els, b1, b1.min_y as int);
            crate::visits::lemma_region_idle(m, heat_visit(els), live, b1);
        },
        (None, Some(b2)) => {
            lemma_rows_fold(m, els, b2, b2.min_y as int);
            crate::visits::lemma_region_idle(m, heat_visit(els), live, b2);
        },
        (None, None) => {},
    }
}

/// Conducts heat between touching matter, then applies any phase change the result
/// crosses.
///
/// Walks the whole swept region, top to bottom and left to right. For each occupied
/// cell, exchanges heat with its right and lower neighbour if that neighbour is also
/// occupied, so each adjacent pair is considered exactly once.
pub fn step<F: CellField>(field: &mut F, elements: &ElementTable)
    requires
        old(field).field_inv(),
    ensures
        final(field).field_inv(),
        agrees(*final(field), heat_step_spec(model_of(*old(field)), elements@, old(field).region())),
        same_moved(*old(field), *final(field)),
        shape_kept(*old(field), *final(field)),
        changes_reported(*old(field), *final(field)),
{
    step_from(field, elements, Ghost(model_of(*field)));
}

/// The pass from cells and temperatures `m0`, which the field holds.
pub(crate) fn step_from<F: CellField>(field: &mut F, elements: &ElementTable, Ghost(m0): Ghost<HeatModel>)
    requires
        old(field).field_inv(),
        agrees(*old(field), m0),
    ensures
        final(field).field_inv(),
        agrees(*final(field), heat_step_spec(m0, elements@, old(field).region())),
        same_moved(*old(field), *final(field)),
        shape_kept(*old(field), *final(field)),
        changes_reported(*old(field), *final(field)),
{
    let ghost start = *field;
    let bounds = match field.bounds() {
        Some(b) => b,
        None => {
            return;
        },
    };
    let ghost mut m = m0;
    let mut y: i64 = bounds.min_y as i64;
    while y <= bounds.max_y as i64
        invariant
            field.field_inv(),
            agrees(*field, m),
            same_moved(start, *field),
            shape_kept(start, *field),
            changes_reported(start, *field),
            heat_step_spec(m0, elements@, Some(bounds)) == rows_spec(m, elements@, bounds, y as int),
            bounds.min_y <= y,
            y <= bounds.max_y as i64 + 1 || y == bounds.min_y,
        decreases bounds.max_y - y + 1,
    {
        let mut x: i64 = bounds.min_x as i64;
        while x <= bounds.max_x as i64
            invariant
                field.field_inv(),
                agrees(*field, m),
                same_moved(start, *field),
                shape_kept(start, *field),
                changes_reported(start, *field),
                heat_step_spec(m0, elements@, Some(bounds)) == rows_spec(
                    row_spec(m, elements@, bounds, y as i32, x as int),
                    elements@,
                    bounds,
                    y + 1,
                ),
                bounds.min_y <= y <= bounds.max_y,
                bounds.min_x <= x,
                x <= bounds.max_x as i64 + 1 || x == bounds.min_x,
            decreases bounds.max_x - x + 1,
        {
            let (cx, cy) = (x as i32, y as i32);
            let occupied = match field.get(cx, cy) {
                Some(id) => id != EMPTY,
                None => false,
            };
            let ghost before = m;
            if occupied {
                if x < i32::MAX as i64 {
                    conduct(field, elements, cx, cy, cx + 1, cy, Ghost(m));
                    proof {
                        m = if holds_matter(m, (cx + 1) as i32, cy) {
                            exchange_spec(m, elements@, cx, cy, (cx + 1) as i32, cy)
                        } else {
                            m
                        };
                    }
                }
                let ghost m1 = m;
                if y < i32::MAX as i64 {
                    conduct(field, elements, cx, cy, cx, cy + 1, Ghost(m));
                    proof {
                        m = if holds_matter(m, cx, (cy + 1) as i32) {
                            exchange_spec(m, elements@, cx, cy, cx, (cy + 1) as i32)
                        } else {
                            m
                        };
                    }
                }
                // Re-read: the exchanges above may just have changed this cell's own
                // temperature, and that is exactly the value a transition checks.
                transition(field, elements, cx, cy, Ghost(m));
                proof {
                    m = transition_spec(m, elements@, cx, cy);
                }
            }
            proof {
                assert(m == visit_spec(before, elements@, cx, cy));
                assert(x as i32 == cx);
            }
            x = x + 1;
        }
        y = y + 1;
    }
}

/// Exchanges heat with one neighbour, when the neighbour holds matter.
fn conduct<F: CellField>(field: &mut F, elements: &ElementTable, ax: i32, ay: i32, bx: i32, by: i32, Ghost(m): Ghost<HeatModel>)
    requires
        old(field).field_inv(),
        agrees(*old(field), m),
    ensures
        final(field).field_inv(),
        agrees(*final(field), if holds_matter(m, bx, by) { exchange_spec(m, elements@, ax, ay, bx, by) } else { m }),
        same_moved(*old(field), *final(field)),
        shape_kept(*old(field), *final(field)),
        changes_reported(*old(field), *final(field)),
{
    let occupied = match field.get(bx, by) {
        Some(id) => id != EMPTY,
        None => false,
    };
    if occupied {
        exchange(field, elements, ax, ay, bx, by, Ghost(m));
    }
}

/// The worse conductor of two.
fn lower(a: Fixed, b: Fixed) -> (r: Fixed)
    ensures
        r.0 == (if a.0 <= b.0 { a.0 } else { b.0 }),
{
    if a.0 <= b.0 {
        a
    } else {
        b
    }
}

/// Moves heat between two touching cells, proportional to their temperature
/// difference and to how well the worse conductor of the pair carries it: an
/// insulating neighbour blocks heat even when the other side conducts perfectly.
///
/// The total is conserved, and the hotter cell never ends up colder than the other.
fn exchange<F: CellField>(field: &mut F, elements: &ElementTable, ax: i32, ay: i32, bx: i32, by: i32, Ghost(m): Ghost<HeatModel>)
    requires
        old(field).field_inv(),
        agrees(*old(field), m),
    ensures
        final(field).field_inv(),
        agrees(*final(field), exchange_spec(m, elements@, ax, ay, bx, by)),
        same_moved(*old(field), *final(field)),
        forall|i: i32, j: i32| #[trigger] final(field).cell(i, j) == old(field).cell(i, j),
        (ax != bx || ay != by) ==> final(field).heat_at(ax, ay) + final(field).heat_at(bx, by)
            == old(field).heat_at(ax, ay) + old(field).heat_at(bx, by),
        old(field).heat_at(ax, ay) >= old(field).heat_at(bx, by) ==> final(field).heat_at(ax, ay)
            >= final(field).heat_at(bx, by),
        old(field).heat_at(bx, by) >= old(field).heat_at(ax, ay) ==> final(field).heat_at(bx, by)
            >= final(field).heat_at(ax, ay),
        shape_kept(*old(field), *final(field)),
        changes_reported(*old(field), *final(field)),
{
    if ax == bx && ay == by {
        return;
    }
    // Heat only exists where matter does.
    if field.get(ax, ay) == Some(EMPTY) || field.get(bx, by) == Some(EMPTY) {
        return;
    }
    let a_element: &Element = match field.get(ax, ay) {
        Some(id) => match elements.get(id) {
            Some(e) => e,
            None => {
                return;
            },
        },
        None => {
            return;
        },
    };
    let b_element: &Element = match field.get(bx, by) {
        Some(id) => match elements.get(id) {
            Some(e) => e,
            None => {
                return;
            },
        },
        None => {
            return;
        },
    };
    proof {
        assert(defined_at(m, elements@, ax, ay) == Some(a_element@));
        assert(defined_at(m, elements@, bx, by) == Some(b_element@));
    }
    let a_temp = field.temperature(ax, ay);
    let b_temp = field.temperature(bx, by);
    if a_temp == b_temp {
        return;
    }
    let (hot_temp, cold_temp, hot_is_a) = if a_temp > b_temp {
        (a_temp, b_temp, true)
    } else {
        (b_temp, a_temp, false)
    };
    let diff: i32 = hot_temp as i32 - cold_temp as i32;
    let conductivity = lower(a_element.thermal_conductivity, b_element.thermal_conductivity);
    let scaled: i32 = Fixed::from_int(diff).saturating_mul(conductivity).floor_to_int();
    let half: i32 = diff / 2;
    let transferred: i32 = if scaled < 0 {
        0
    } else if scaled > half {
        half
    } else {
        scaled
    };
    proof {
        assert(transferred == transfer_spec(diff as int, conductivity));
    }
    if transferred == 0 {
        proof {
            assert(exchange_spec(m, elements@, ax, ay, bx, by).heat =~= m.heat);
        }
        return;
    }
    let new_hot: i16 = (hot_temp as i32 - transferred) as i16;
    let new_cold: i16 = (cold_temp as i32 + transferred) as i16;
    let (new_a, new_b) = if hot_is_a {
        (new_hot, new_cold)
    } else {
        (new_cold, new_hot)
    };
    let ghost before = *field;
    field.set_temperature(ax, ay, new_a);
    let ghost s1 = *field;
    assert(s1.heat_at(ax, ay) == new_a);
    assert(s1.cell(bx, by) == before.cell(bx, by));
    field.set_temperature(bx, by, new_b);
    let ghost s2 = *field;
    assert(s2.heat_at(bx, by) == new_b);
    assert(s2.cell(ax, ay) == s1.cell(ax, ay));
    assert(s2.heat_at(ax, ay) == new_a);
    field.mark_active(ax, ay);
    field.mark_active(bx, by);
    assert(field.cell(ax, ay) == s2.cell(ax, ay));
    assert(field.cell(bx, by) == s2.cell(bx, by));
    proof {
        let r = exchange_spec(m, elements@, ax, ay, bx, by);
        assert(r == with_heat(with_heat(m, ax, ay, new_a), bx, by, new_b));
        assert forall|i: i32, j: i32| #[trigger] field.heat_at(i, j) == (r.heat)(i, j) by {
            if i == bx && j == by {
            } else if i == ax && j == ay {
            } else {
                assert(s1.cell(i, j) == before.cell(i, j));
                assert(s2.cell(i, j) == s1.cell(i, j));
                assert(field.cell(i, j) == s2.cell(i, j));
                assert(field.heat_at(i, j) == before.heat_at(i, j));
            }
        }
    }
}

/// Applies the phase change an element's temperature calls for, if any. A change of
/// identity in place, not a move: the temperature already sitting here is the correct
/// temperature for whatever this becomes.
fn transition<F: CellField>(field: &mut F, elements: &ElementTable, x: i32, y: i32, Ghost(m): Ghost<HeatModel>)
    requires
        old(field).field_inv(),
        agrees(*old(field), m),
    ensures
        final(field).field_inv(),
        agrees(*final(field), transition_spec(m, elements@, x, y)),
        same_moved(*old(field), *final(field)),
        shape_kept(*old(field), *final(field)),
        changes_reported(*old(field), *final(field)),
{
    let id = match field.get(x, y) {
        Some(id) => id,
        None => {
            return;
        },
    };
    if id == EMPTY {
        proof {
            assert(transition_spec(m, elements@, x, y) == m);
        }
        return;
    }
    let element = match elements.get(id) {
        Some(e) => e,
        None => {
            return;
        },
    };
    let temperature: i32 = field.temperature(x, y) as i32;
    let target = phase_target(element, temperature);
    if target == EMPTY {
        return;
    }
    let ghost before = *field;
    field.set(x, y, target);
    let ghost s1 = *field;
    field.mark_active(x, y);
    proof {
        let r = transition_spec(m, elements@, x, y);
        assert(r == with_cell(m, x, y, target));
        assert forall|i: i32, j: i32| #[trigger] field.cell(i, j) == (r.cell)(i, j) by {
            if !(i == x && j == y) {
                assert(field.cell(i, j) == before.cell(i, j));
            }
        }
        assert forall|i: i32, j: i32| #[trigger] field.heat_at(i, j) == (r.heat)(i, j) by {
            assert(field.cell(i, j) == s1.cell(i, j));
            if !(i == x && j == y) {
                assert(s1.cell(i, j) == before.cell(i, j));
                assert(field.heat_at(i, j) == before.heat_at(i, j));
            }
        }
    }
}

/// What `element` becomes at `temperature`; `EMPTY` for nothing.
pub fn phase_target(element: &Element, temperature: i32) -> (r: u8)
    ensures
        r == transition_target(element@, temperature as int),
{
    if element.boils_into != EMPTY && temperature >= element.boiling_point {
        element.boils_into
    } else if element.melts_into != EMPTY && temperature >= element.melting_point {
        element.melts_into
    } else if element.condenses_into != EMPTY && temperature < element.boiling_point {
        element.condenses_into
    } else if element.freezes_into != EMPTY && temperature < element.melting_point {
        element.freezes_into
    } else {
        EMPTY
    }
}


/// Every temperature is ambient.
pub open spec fn cold_model(m: HeatModel) -> bool {
    forall|x: i32, y: i32| #[trigger] (m.heat)(x, y) == AMBIENT_TEMPERATURE
}

/// No cell of defined matter changes state at ambient temperature.
pub open spec fn calm_model(m: HeatModel, els: Seq<Option<ElementView>>) -> bool {
    forall|x: i32, y: i32|
        holds_matter(m, x, y) && #[trigger] defined_at(m, els, x, y) is Some ==> transition_target(
            defined_at(m, els, x, y).unwrap(),
            AMBIENT_TEMPERATURE as int,
        ) == EMPTY
}

/// In a cold world where nothing changes state at ambient temperature, no heat flows
/// and nothing changes state: the heat pass leaves it as it is.
pub proof fn lemma_cold_calm_idle(m: HeatModel, els: Seq<Option<ElementView>>, region: Option<Bounds>)
    requires
        cold_model(m),
        calm_model(m, els),
    ensures
        heat_step_spec(m, els, region) == m,
{
    assert forall|x: i32, y: i32| #[trigger] visit_spec(m, els, x, y) == m by {
        if holds_matter(m, x, y) {
            assert((m.heat)(x, y) == AMBIENT_TEMPERATURE);
            if x < i32::MAX {
                assert((m.heat)((x + 1) as i32, y) == AMBIENT_TEMPERATURE);
            }
            if y < i32::MAX {
                assert((m.heat)(x, (y + 1) as i32) == AMBIENT_TEMPERATURE);
            }
        }
    }
    match region {
        Some(b) => lemma_rows_idle(m, els, b, b.min_y as int),
        None => {},
    }
}

proof fn lemma_row_idle(m: HeatModel, els: Seq<Option<ElementView>>, b: Bounds, y: i32, x: int)
    requires
        forall|i: i32, j: i32| #[trigger] visit_spec(m, els, i, j) == m,
    ensures
        row_spec(m, els, b, y, x) == m,
    decreases b.max_x - x + 1,
{
    if x <= b.max_x {
        assert(visit_spec(m, els, x as i32, y) == m);
        lemma_row_idle(m, els, b, y, x + 1);
    }
}

proof fn lemma_rows_idle(m: HeatModel, els: Seq<Option<ElementView>>, b: Bounds, y: int)
    requires
        forall|i: i32, j: i32| #[trigger] visit_spec(m, els, i, j) == m,
    ensures
        rows_spec(m, els, b, y) == m,
    decreases b.max_y - y + 1,
{
    if y <= b.max_y {
        lemma_row_idle(m, els, b, y as i32, b.min_x as int);
        lemma_rows_idle(m, els, b, y + 1);
    }
}


/// Phase changes. A visited cell of defined matter ends in the state its element takes
/// at the temperature the cell reaches: it boils into what it boils into at or above its
/// boiling point; failing that it melts at or above its melting point; failing that it
/// condenses below its boiling point, and failing that freezes below its melting point,
/// each only where the element names what it becomes. Otherwise it keeps its element.
pub proof fn lemma_phase_changes(m: HeatModel, els: Seq<Option<ElementView>>, x: i32, y: i32)
    requires
        holds_matter(m, x, y),
        defined_at(m, els, x, y) is Some,
    ensures
        ({
            let e = defined_at(m, els, x, y).unwrap();
            let v = visit_spec(m, els, x, y);
            let t = (v.heat)(x, y) as int;
            let boils = e.boils_into != EMPTY && t >= e.boiling_point;
            let melts = e.melts_into != EMPTY && t >= e.melting_point;
            let condenses = e.condenses_into != EMPTY && t < e.boiling_point;
            let freezes = e.freezes_into != EMPTY && t < e.melting_point;
            &&& boils ==> (v.cell)(x, y) == Some(e.boils_into)
            &&& !boils && melts ==> (v.cell)(x, y) == Some(e.melts_into)
            &&& !boils && !melts && condenses ==> (v.cell)(x, y) == Some(e.condenses_into)
            &&& !boils && !melts && !condenses && freezes ==> (v.cell)(x, y) == Some(e.freezes_into)
            &&& !boils && !melts && !condenses && !freezes ==> (v.cell)(x, y) == (m.cell)(x, y)
        }),
{
    let m1 = if x < i32::MAX && holds_matter(m, (x + 1) as i32, y) {
        exchange_spec(m, els, x, y, (x + 1) as i32, y)
    } else {
        m
    };
    let m2 = if y < i32::MAX && holds_matter(m1, x, (y + 1) as i32) {
        exchange_spec(m1, els, x, y, x, (y + 1) as i32)
    } else {
        m1
    };
    assert(m1.cell == m.cell);
    assert(m2.cell == m.cell);
    assert(visit_spec(m, els, x, y) == transition_spec(m2, els, x, y));
    assert((transition_spec(m2, els, x, y).heat)(x, y) == (m2.heat)(x, y));
}

/// How much heat an exchange moves: never negative, and never more than half the
/// difference, so the hotter cell never ends colder than the other.
pub proof fn lemma_transfer_bounds(diff: int, conductivity: Fixed)
    requires
        diff >= 0,
    ensures
        0 <= transfer_spec(diff, conductivity) <= diff / 2,
{
}

/// Conduction. When a visited cell of defined matter touches defined matter to its right
/// or directly below it, and that is its only exchange in the visit, the hotter of the
/// two gives the colder the transfer their difference allows at the worse conductor's
/// rate; equal temperatures stay as they are.
pub proof fn lemma_conduction(m: HeatModel, els: Seq<Option<ElementView>>, x: i32, y: i32, down: bool)
    requires
        holds_matter(m, x, y),
        defined_at(m, els, x, y) is Some,
        down ==> y < i32::MAX && holds_matter(m, x, (y + 1) as i32) && defined_at(m, els, x, (y + 1) as i32) is Some && (x == i32::MAX
            || !holds_matter(m, (x + 1) as i32, y)),
        !down ==> x < i32::MAX && holds_matter(m, (x + 1) as i32, y) && defined_at(m, els, (x + 1) as i32, y) is Some && (y == i32::MAX
            || !holds_matter(m, x, (y + 1) as i32)),
    ensures
        ({
            let (bx, by) = if down { (x, (y + 1) as i32) } else { ((x + 1) as i32, y) };
            let a = defined_at(m, els, x, y).unwrap();
            let b = defined_at(m, els, bx, by).unwrap();
            let ta = (m.heat)(x, y) as int;
            let tb = (m.heat)(bx, by) as int;
            let c = if a.thermal_conductivity.0 <= b.thermal_conductivity.0 { a.thermal_conductivity } else { b.thermal_conductivity };
            let v = visit_spec(m, els, x, y);
            &&& ta > tb ==> (v.heat)(x, y) == ta - transfer_spec(ta - tb, c) && (v.heat)(bx, by) == tb + transfer_spec(ta - tb, c)
            &&& tb > ta ==> (v.heat)(x, y) == ta + transfer_spec(tb - ta, c) && (v.heat)(bx, by) == tb - transfer_spec(tb - ta, c)
            &&& ta == tb ==> (v.heat)(x, y) == ta && (v.heat)(bx, by) == tb
            &&& (v.heat)(x, y) + (v.heat)(bx, by) == ta + tb
        }),
{
    let (bx, by) = if down { (x, (y + 1) as i32) } else { ((x + 1) as i32, y) };
    let ta = (m.heat)(x, y) as int;
    let tb = (m.heat)(bx, by) as int;
    if ta > tb {
        lemma_transfer_bounds(ta - tb, defined_at(m, els, x, y).unwrap().thermal_conductivity);
        lemma_transfer_bounds(ta - tb, defined_at(m, els, bx, by).unwrap().thermal_conductivity);
    }
    if tb > ta {
        lemma_transfer_bounds(tb - ta, defined_at(m, els, x, y).unwrap().thermal_conductivity);
        lemma_transfer_bounds(tb - ta, defined_at(m, els, bx, by).unwrap().thermal_conductivity);
    }
    let m1 = if x < i32::MAX && holds_matter(m, (x + 1) as i32, y) {
        exchange_spec(m, els, x, y, (x + 1) as i32, y)
    } else {
        m
    };
    let m2 = if y < i32::MAX && holds_matter(m1, x, (y + 1) as i32) {
        exchange_spec(m1, els, x, y, x, (y + 1) as i32)
    } else {
        m1
    };
    assert(m1.cell == m.cell);
    assert(m2.cell == m.cell);
    assert(visit_spec(m, els, x, y) == transition_spec(m2, els, x, y));
    assert((transition_spec(m2, els, x, y).heat) == m2.heat);
}


/// How much heat an exchange moves, for a difference of up to 32767 degrees and a
/// conductivity between zero and one: the difference scaled by the conductivity and
/// rounded down, but never more than half the difference.
pub proof fn lemma_transfer_amount(diff: int, conductivity: Fixed)
    requires
        0 <= diff <= 32767,
        0 <= conductivity.0 <= 0x1_0000,
    ensures
        transfer_spec(diff, conductivity) == if diff * conductivity.0 / 0x1_0000 > diff / 2 {
            diff / 2
        } else {
            diff * conductivity.0 / 0x1_0000
        },
{
    let c = conductivity.0 as int;
    assert(0 <= diff * 0x1_0000 <= 32767 * 0x1_0000) by (nonlinear_arith)
        requires
            0 <= diff <= 32767,
    ;
    assert(clamp_i32(diff * 0x1_0000) == diff * 0x1_0000);
    assert(0 <= diff * 0x1_0000 * c) by (nonlinear_arith)
        requires
            0 <= diff,
            0 <= c,
    ;
    assert((diff * 0x1_0000 * c) / 0x1_0000 == diff * c) by (nonlinear_arith);
    assert(div_trunc(diff * 0x1_0000 * c, 0x1_0000) == diff * c);
    assert(0 <= diff * c <= 32767 * 0x1_0000) by (nonlinear_arith)
        requires
            0 <= diff <= 32767,
            0 <= c <= 0x1_0000,
    ;
    assert(clamp_i32(diff * c) == diff * c);
}


/// Conduction over a whole pass. Two touching cells of defined matter, side by side or
/// one directly above the other, with no other matter anywhere, end the heat pass over
/// any region holding them as one exchange leaves them: the hotter has given the colder
/// the transfer their difference allows at the worse conductor's rate.
pub proof fn lemma_pair_conducts(m: HeatModel, els: Seq<Option<ElementView>>, b: Bounds, x: i32, y: i32, down: bool)
    requires
        down ==> y < i32::MAX,
        !down ==> x < i32::MAX,
        holds_matter(m, x, y),
        defined_at(m, els, x, y) is Some,
        holds_matter(m, if down { x } else { (x + 1) as i32 }, if down { (y + 1) as i32 } else { y }),
        defined_at(m, els, if down { x } else { (x + 1) as i32 }, if down { (y + 1) as i32 } else { y }) is Some,
        forall|i: i32, j: i32|
            #[trigger] holds_matter(m, i, j) ==> (i == x && j == y) || (i == (if down { x } else { (x + 1) as i32 }) && j == (if down {
                (y + 1) as i32
            } else {
                y
            })),
        b.contains(x as int, y as int),
        b.contains(if down { x as int } else { x + 1 }, if down { y + 1 } else { y as int }),
    ensures
        ({
            let (bx, by) = if down { (x, (y + 1) as i32) } else { ((x + 1) as i32, y) };
            let a = defined_at(m, els, x, y).unwrap();
            let bb = defined_at(m, els, bx, by).unwrap();
            let ta = (m.heat)(x, y) as int;
            let tb = (m.heat)(bx, by) as int;
            let c = if a.thermal_conductivity.0 <= bb.thermal_conductivity.0 { a.thermal_conductivity } else { bb.thermal_conductivity };
            let r = heat_step_spec(m, els, Some(b));
            &&& ta > tb ==> (r.heat)(x, y) == ta - transfer_spec(ta - tb, c) && (r.heat)(bx, by) == tb + transfer_spec(ta - tb, c)
            &&& tb > ta ==> (r.heat)(x, y) == ta + transfer_spec(tb - ta, c) && (r.heat)(bx, by) == tb - transfer_spec(tb - ta, c)
            &&& ta == tb ==> (r.heat)(x, y) == ta && (r.heat)(bx, by) == tb
        }),
{
    let (qx, qy) = if down { (x, (y + 1) as i32) } else { ((x + 1) as i32, y) };
    let p = (x as int, y as int);
    let q = (qx as int, qy as int);
    let v = heat_visit(els);
    let live = matter_at();
    let ps = rows_down(b, b.min_y as int);
    lemma_heat_visit_idle(els);
    lemma_rows_fold(m, els, b, b.min_y as int);
    crate::visits::lemma_rows_down(b, b.min_y as int);
    crate::visits::lemma_reading_order_total();
    assert forall|i: int| 0 <= i < ps.len() && live(m, #[trigger] ps[i]) implies ps[i] == p || ps[i] == q by {
        assert(holds_matter(m, ps[i].0 as i32, ps[i].1 as i32));
    }
    assert(ps.contains(p) && ps.contains(q));
    crate::visits::lemma_two_live(m, v, live, ps, p, q, crate::visits::reading_order());
    if down {
        if x < i32::MAX {
            assert(!holds_matter(m, (x + 1) as i32, y));
        }
    } else {
        if y < i32::MAX {
            assert(!holds_matter(m, x, (y + 1) as i32));
        }
    }
    lemma_conduction(m, els, x, y, down);
    let v1 = visit_spec(m, els, x, y);
    assert(v(m, p) == v1);
    lemma_phase_changes(m, els, x, y);
    assert forall|i: i32, j: i32| !(i == x && j == y) implies #[trigger] (v1.cell)(i, j) == (m.cell)(i, j) by {
        let m1 = if x < i32::MAX && holds_matter(m, (x + 1) as i32, y) {
            exchange_spec(m, els, x, y, (x + 1) as i32, y)
        } else {
            m
        };
        let m2 = if y < i32::MAX && holds_matter(m1, x, (y + 1) as i32) {
            exchange_spec(m1, els, x, y, x, (y + 1) as i32)
        } else {
            m1
        };
        assert(m1.cell == m.cell);
        assert(m2.cell == m.cell);
    }
    if qx < i32::MAX {
        assert((v1.cell)((qx + 1) as i32, qy) == (m.cell)((qx + 1) as i32, qy));
        if holds_matter(m, (qx + 1) as i32, qy) {
            assert(false);
        }
        assert(!holds_matter(v1, (qx + 1) as i32, qy));
    }
    if qy < i32::MAX {
        assert((v1.cell)(qx, (qy + 1) as i32) == (m.cell)(qx, (qy + 1) as i32));
        if holds_matter(m, qx, (qy + 1) as i32) {
            assert(false);
        }
        assert(!holds_matter(v1, qx, (qy + 1) as i32));
    }
    assert((v1.cell)(qx, qy) == (m.cell)(qx, qy));
    let v2 = visit_spec(v1, els, qx, qy);
    assert(v(v1, q) == v2);
    assert(v2.heat == v1.heat);
}


/// Phase changes over a whole pass. A lone cell of defined matter, with no other matter
/// anywhere, keeps its temperature through the heat pass over any region holding it,
/// and ends in the state its element takes at that temperature: boiling at or above its
/// boiling point, else melting at or above its melting point, else condensing below its
/// boiling point, else freezing below its melting point, each only where the element
/// names what it becomes.
pub proof fn lemma_lone_cell_phase(m: HeatModel, els: Seq<Option<ElementView>>, b: Bounds, x: i32, y: i32)
    requires
        holds_matter(m, x, y),
        defined_at(m, els, x, y) is Some,
        forall|i: i32, j: i32| #[trigger] holds_matter(m, i, j) ==> i == x && j == y,
        b.contains(x as int, y as int),
    ensures
        ({
            let e = defined_at(m, els, x, y).unwrap();
            let r = heat_step_spec(m, els, Some(b));
            let t = (m.heat)(x, y) as int;
            let boils = e.boils_into != EMPTY && t >= e.boiling_point;
            let melts = e.melts_into != EMPTY && t >= e.melting_point;
            let condenses = e.condenses_into != EMPTY && t < e.boiling_point;
            let freezes = e.freezes_into != EMPTY && t < e.melting_point;
            &&& (r.heat)(x, y) == (m.heat)(x, y)
            &&& boils ==> (r.cell)(x, y) == Some(e.boils_into)
            &&& !boils && melts ==> (r.cell)(x, y) == Some(e.melts_into)
            &&& !boils && !melts && condenses ==> (r.cell)(x, y) == Some(e.condenses_into)
            &&& !boils && !melts && !condenses && freezes ==> (r.cell)(x, y) == Some(e.freezes_into)
            &&& !boils && !melts && !condenses && !freezes ==> (r.cell)(x, y) == (m.cell)(x, y)
        }),
{
    let p = (x as int, y as int);
    let v = heat_visit(els);
    let live = matter_at();
    let ps = rows_down(b, b.min_y as int);
    lemma_heat_visit_idle(els);
    lemma_rows_fold(m, els, b, b.min_y as int);
    crate::visits::lemma_rows_down(b, b.min_y as int);
    crate::visits::lemma_reading_order_total();
    assert forall|i: int| 0 <= i < ps.len() && live(m, #[trigger] ps[i]) implies ps[i] == p by {
        assert(holds_matter(m, ps[i].0 as i32, ps[i].1 as i32));
    }
    assert(ps.contains(p));
    crate::visits::lemma_one_live(m, v, live, ps, p, crate::visits::reading_order());
    assert(v(m, p) == visit_spec(m, els, x, y));
    if x < i32::MAX {
        if holds_matter(m, (x + 1) as i32, y) {
            assert(false);
        }
    }
    if y < i32::MAX {
        if holds_matter(m, x, (y + 1) as i32) {
            assert(false);
        }
    }
    assert(visit_spec(m, els, x, y) == transition_spec(m, els, x, y));
}

} // verus!
