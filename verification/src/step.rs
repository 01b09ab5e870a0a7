//! One tick of movement and chemistry.
//!
//! Rules dispatch on an element's `state`, never on its identity: adding an element
//! means editing data rather than writing a match arm, because the physics is written
//! against powders, liquids and gases rather than against sand and water.
//!
//! Determinism comes from two properties: the scan order is fixed, and every random
//! choice is a pure hash of position and tick (see `rng`), so nothing depends on how
//! many cells were visited beforehand.

use vstd::prelude::*;
use crate::elements::{Element, ElementId, ElementTable, ElementView, State, EMPTY};
use crate::field::{CellField, awake_kept, changes_reported, cold_kept, grown, in_spans, region_holds, same_census, shape_kept, spans_sorted};
use crate::heat::{agrees, HeatModel};
use crate::entities::write_cell;
use crate::reactions::{between_spec, ReactionView};
use crate::reactions::ReactionTable;
use crate::rng;
use crate::field::Bounds;
use crate::heat::AMBIENT_TEMPERATURE;

verus! {

/// Salts keeping a cell's independent decisions from correlating with each other.
pub const SALT_ROW_DIRECTION: u32 = 1;
pub const SALT_DIAGONAL: u32 = 2;
pub const SALT_LATERAL: u32 = 3;
/// Reaction rolls: one salt for the pair to the right, one for the pair below.
pub const SALT_REACT_RIGHT: u32 = 4;
pub const SALT_REACT_DOWN: u32 = 5;

/// Whether `mover` can push down or sideways through `target`: only fluids yield, and
/// only to something denser. That is what makes sand sink through water without a
/// single rule naming either of them.
pub open spec fn displaces_spec(mover: ElementView, target: ElementView) -> bool {
    (target.state == State::Liquid || target.state == State::Gas) && mover.density > target.density
}

/// Whether a gas can rise through `target`: buoyancy is displacement seen from
/// underneath, so the fluid it rises into must be the heavier of the two.
pub open spec fn rises_through_spec(mover: ElementView, target: ElementView) -> bool {
    (target.state == State::Liquid || target.state == State::Gas) && mover.density < target.density
}

/// Whether a cell holds matter that never moves: an element the data calls solid, or
/// an id the data does not define.
pub open spec fn solid_at<F: CellField>(f: F, els: Seq<Option<ElementView>>, x: i32, y: i32) -> bool {
    match f.cell(x, y) {
        Some(id) => id != EMPTY && ((id as int) >= els.len() || els[id as int] is None || els[id as int].unwrap().state
            == State::Solid),
        None => false,
    }
}

/// Every solid cell of `a`, except perhaps the one at `(x, y)`, holds the same in `b`.
pub open spec fn solids_kept_but<F: CellField>(a: F, b: F, els: Seq<Option<ElementView>>, x: i32, y: i32) -> bool {
    forall|i: i32, j: i32| #[trigger] solid_at(a, els, i, j) && !(i == x && j == y) ==> b.cell(i, j) == a.cell(i, j)
}

/// Every solid cell of `a` holds the same in `b`.
pub open spec fn solids_kept<F: CellField>(a: F, b: F, els: Seq<Option<ElementView>>) -> bool {
    forall|i: i32, j: i32| #[trigger] solid_at(a, els, i, j) ==> b.cell(i, j) == a.cell(i, j)
}

/// What the movement sweep reads and writes: cells, temperatures and moved flags.
pub struct SweepModel {
    pub cell: spec_fn(i32, i32) -> Option<ElementId>,
    pub heat: spec_fn(i32, i32) -> i16,
    pub moved: spec_fn(i32, i32) -> bool,
}

/// The field holds what the model says, moved flags included.
pub open spec fn agrees_sweep<F: CellField>(f: F, m: SweepModel) -> bool {
    &&& forall|i: i32, j: i32| #[trigger] f.cell(i, j) == (m.cell)(i, j)
    &&& forall|i: i32, j: i32| #[trigger] f.heat_at(i, j) == (m.heat)(i, j)
    &&& forall|i: i32, j: i32| #[trigger] f.moved_at(i, j) == (m.moved)(i, j)
}

/// Cells and temperatures of two positions exchanged, both marked as moved.
pub open spec fn moved_swap(m: SweepModel, ax: i32, ay: i32, bx: i32, by: i32) -> SweepModel {
    SweepModel {
        cell: |i: i32, j: i32|
            if i == ax && j == ay {
                (m.cell)(bx, by)
            } else if i == bx && j == by {
                (m.cell)(ax, ay)
            } else {
                (m.cell)(i, j)
            },
        heat: |i: i32, j: i32|
            if i == ax && j == ay {
                (m.heat)(bx, by)
            } else if i == bx && j == by {
                (m.heat)(ax, ay)
            } else {
                (m.heat)(i, j)
            },
        moved: |i: i32, j: i32| (i == ax && j == ay) || (i == bx && j == by) || (m.moved)(i, j),
    }
}

/// The defined element at a position, if any.
pub open spec fn element_in(m: SweepModel, els: Seq<Option<ElementView>>, x: i32, y: i32) -> Option<ElementView> {
    match (m.cell)(x, y) {
        Some(id) => if (id as int) < els.len() {
            els[id as int]
        } else {
            None
        },
        None => None,
    }
}

/// A move of the mover at `(fx, fy)` into `(tx, ty)`: it happens when the target is in
/// the world, has not moved this tick, and is empty or yields, and it swaps the two.
pub open spec fn move_spec(m: SweepModel, els: Seq<Option<ElementView>>, mover: ElementView, fx: i32, fy: i32, tx: int, ty: int, buoyant: bool) -> (bool, SweepModel) {
    if !(i32::MIN <= tx <= i32::MAX && i32::MIN <= ty <= i32::MAX) {
        (false, m)
    } else {
        let (x, y) = (tx as i32, ty as i32);
        match (m.cell)(x, y) {
            None => (false, m),
            Some(target) => if (m.cell)(fx, fy) is None || (m.moved)(x, y) {
                (false, m)
            } else if target != EMPTY && (match element_in(m, els, x, y) {
                Some(t) => !(if buoyant { rises_through_spec(mover, t) } else { displaces_spec(mover, t) }),
                None => true,
            }) {
                (false, m)
            } else {
                (true, moved_swap(m, fx, fy, x, y))
            },
        }
    }
}

/// Tries the targets in order until one move happens.
pub open spec fn first_move(m: SweepModel, els: Seq<Option<ElementView>>, mover: ElementView, x: i32, y: i32, targets: Seq<(int, int)>, buoyant: bool) -> SweepModel
    decreases targets.len(),
{
    if targets.len() == 0 {
        m
    } else {
        let (moved, next) = move_spec(m, els, mover, x, y, targets[0].0, targets[0].1, buoyant);
        if moved {
            next
        } else {
            first_move(m, els, mover, x, y, targets.drop_first(), buoyant)
        }
    }
}

/// Which diagonal is tried first.
pub open spec fn diagonal_first(seed: u64, tick: u64, x: i32, y: i32) -> int {
    if rng::noise_salted_spec(seed, tick, x, y, SALT_DIAGONAL) >= 0x8000_0000 {
        1
    } else {
        -1
    }
}

/// Which side a fluid tries first.
pub open spec fn lateral_first(seed: u64, tick: u64, x: i32, y: i32) -> int {
    if rng::noise_salted_spec(seed, tick, x, y, SALT_LATERAL) >= 0x8000_0000 {
        1
    } else {
        -1
    }
}

/// Where a cell of each state tries to go, in order: a powder falls, then slides
/// diagonally; a liquid also spreads sideways; a gas does the same upward.
pub open spec fn targets_of(state: State, seed: u64, tick: u64, x: i32, y: i32) -> Seq<(int, int)> {
    let d = diagonal_first(seed, tick, x, y);
    let l = lateral_first(seed, tick, x, y);
    match state {
        State::Powder => if y == i32::MAX {
            Seq::empty()
        } else {
            seq![(x as int, y + 1), (x + d, y + 1), (x - d, y + 1)]
        },
        State::Liquid => seq![(x as int, y + 1), (x + d, y + 1), (x - d, y + 1), (x + l, y as int), (x - l, y as int)],
        State::Gas => seq![(x as int, y - 1), (x + d, y - 1), (x - d, y - 1), (x + l, y as int), (x - l, y as int)],
        State::Solid => Seq::empty(),
    }
}

/// One visited cell: a cell that moved this tick, empty space, and anything without a
/// definition stay put; otherwise the cell tries its state's targets.
pub open spec fn visit_spec(m: SweepModel, els: Seq<Option<ElementView>>, x: i32, y: i32, seed: u64, tick: u64) -> SweepModel {
    if (m.moved)(x, y) || (m.cell)(x, y) is None || (m.cell)(x, y) == Some(EMPTY) {
        m
    } else {
        match element_in(m, els, x, y) {
            None => m,
            Some(e) => first_move(m, els, e, x, y, targets_of(e.state, seed, tick, x, y), e.state == State::Gas),
        }
    }
}

/// Columns from `column` on of the span `lo..=hi`, in the row's direction.
pub open spec fn sweep_span(m: SweepModel, els: Seq<Option<ElementView>>, seed: u64, tick: u64, y: i32, lo: i32, hi: i32, ltr: bool, column: int) -> SweepModel
    decreases hi - lo + 1 - column,
{
    if column >= hi - lo + 1 {
        m
    } else {
        let x = if ltr { lo + column } else { hi - column };
        sweep_span(visit_spec(m, els, x as i32, y, seed, tick), els, seed, tick, y, lo, hi, ltr, column + 1)
    }
}

/// Spans from `k` on, in the row's direction.
pub open spec fn sweep_spans(m: SweepModel, els: Seq<Option<ElementView>>, seed: u64, tick: u64, y: i32, spans: Seq<(i32, i32)>, ltr: bool, k: int) -> SweepModel
    decreases spans.len() - k,
{
    if k < 0 || k >= spans.len() {
        m
    } else {
        let (lo, hi) = if ltr { spans[k] } else { spans[spans.len() - 1 - k] };
        sweep_spans(sweep_span(m, els, seed, tick, y, lo, hi, ltr, 0), els, seed, tick, y, spans, ltr, k + 1)
    }
}

/// Rows `y` up to the top, bottom up, each in a hashed direction.
pub open spec fn sweep_rows(m: SweepModel, els: Seq<Option<ElementView>>, seed: u64, tick: u64, spans: spec_fn(i32) -> Seq<(i32, i32)>, b: Bounds, y: int) -> SweepModel
    decreases y - b.min_y + 1,
{
    if y < b.min_y {
        m
    } else {
        let ltr = rng::noise_salted_spec(seed, tick, 0, y as i32, SALT_ROW_DIRECTION) >= 0x8000_0000;
        sweep_rows(sweep_spans(m, els, seed, tick, y as i32, spans(y as i32), ltr, 0), els, seed, tick, spans, b, y - 1)
    }
}

/// One touching pair rolled against the reaction between its elements, if any.
pub open spec fn react_pair_spec(m: HeatModel, rs: Seq<ReactionView>, ax: i32, ay: i32, bx: i32, by: i32, seed: u64, tick: u64, salt: u32) -> HeatModel {
    match ((m.cell)(ax, ay), (m.cell)(bx, by)) {
        (Some(a), Some(b)) => if a == EMPTY || b == EMPTY {
            m
        } else {
            match between_spec(rs, a, b, 0) {
                None => m,
                Some((i, flipped)) => {
                    let r = rs[i];
                    if rng::below_spec(seed, tick, ax, ay, salt, 0x1_0000) as int >= r.probability.0 {
                        m
                    } else {
                        let (na, nb) = if flipped { (r.products.1, r.products.0) } else { (r.products.0, r.products.1) };
                        write_cell(write_cell(m, ax, ay, na), bx, by, nb)
                    }
                },
            }
        },
        _ => m,
    }
}

/// Columns `x..=max_x` of row `y`: each cell with its right and its lower neighbour.
pub open spec fn react_row(m: HeatModel, rs: Seq<ReactionView>, b: Bounds, y: i32, x: int, seed: u64, tick: u64) -> HeatModel
    decreases b.max_x - x + 1,
{
    if x > b.max_x {
        m
    } else {
        let m1 = if x < i32::MAX { react_pair_spec(m, rs, x as i32, y, (x + 1) as i32, y, seed, tick, SALT_REACT_RIGHT) } else { m };
        let m2 = if y < i32::MAX { react_pair_spec(m1, rs, x as i32, y, x as i32, (y + 1) as i32, seed, tick, SALT_REACT_DOWN) } else { m1 };
        react_row(m2, rs, b, y, x + 1, seed, tick)
    }
}

/// Rows `y..=max_y`, top to bottom.
pub open spec fn react_rows(m: HeatModel, rs: Seq<ReactionView>, b: Bounds, y: int, seed: u64, tick: u64) -> HeatModel
    decreases b.max_y - y + 1,
{
    if y > b.max_y {
        m
    } else {
        react_rows(react_row(m, rs, b, y as i32, b.min_x as int, seed, tick), rs, b, y + 1, seed, tick)
    }
}

pub open spec fn heat_part(m: SweepModel) -> HeatModel {
    HeatModel { cell: m.cell, heat: m.heat }
}

/// Cells and temperatures with no moved flag set: where every tick's sweep starts.
pub open spec fn fresh_sweep(m: HeatModel) -> SweepModel {
    SweepModel { cell: m.cell, heat: m.heat, moved: |i: i32, j: i32| false }
}

/// The whole width of the region on each of its rows.
pub open spec fn full_rows(region: Option<Bounds>) -> spec_fn(i32) -> Seq<(i32, i32)> {
    |r: i32|
        match region {
            Some(b) => seq![(b.min_x, b.max_x)],
            None => Seq::empty(),
        }
}

/// A whole tick of movement and chemistry, from the cells and temperatures `m`, over
/// `region` with the spans `spans` fixes for each row: the sweep with every moved
/// flag clear, then the reactions. Nothing moves more than one cell, so the reactions
/// are rolled over the region grown by one cell, which holds all matter after the
/// sweep; any region that holds it all gives the same result.
pub open spec fn step_model_spec(m: HeatModel, region: Option<Bounds>, spans: spec_fn(i32) -> Seq<(i32, i32)>, els: Seq<Option<ElementView>>, rs: Seq<ReactionView>, seed: u64, tick: u64) -> HeatModel {
    let m0 = fresh_sweep(m);
    match region {
        None => heat_part(m0),
        Some(b) => {
            let swept = heat_part(sweep_rows(m0, els, seed, tick, spans, b, b.max_y as int));
            if rs.len() == 0 {
                swept
            } else {
                react_over(swept, rs, grown(region), seed, tick)
            }
        },
    }
}

/// A whole tick of movement and chemistry on a field whose shape fixes its spans.
pub open spec fn step_spec<F: CellField>(f: F, els: Seq<Option<ElementView>>, rs: Seq<ReactionView>, seed: u64, tick: u64) -> HeatModel {
    step_model_spec(crate::heat::model_of(f), f.region(), |r: i32| f.spans(r), els, rs, seed, tick)
}

/// Whether a visit to `(x, y)` could do anything: the cell holds matter that has not
/// moved this tick.
pub open spec fn live_cell(m: SweepModel, x: i32, y: i32) -> bool {
    !(m.moved)(x, y) && (m.cell)(x, y) is Some && (m.cell)(x, y) != Some(EMPTY)
}

/// A visit to column `x` of row `y`.
pub open spec fn row_visit(els: Seq<Option<ElementView>>, seed: u64, tick: u64, y: i32) -> spec_fn(SweepModel, int) -> SweepModel {
    |m: SweepModel, x: int| visit_spec(m, els, x as i32, y, seed, tick)
}

/// Whether column `x` of row `y` is live.
pub open spec fn row_live(y: i32) -> spec_fn(SweepModel, int) -> bool {
    |m: SweepModel, x: int| live_cell(m, x as i32, y)
}

/// Whether a visit to `(x, y)` would move it: the cell is live and has somewhere to go.
pub open spec fn active_cell(m: SweepModel, els: Seq<Option<ElementView>>, x: i32, y: i32) -> bool {
    live_cell(m, x, y) && !settled(m, els, x, y)
}

/// Whether column `x` of row `y` is active.
pub open spec fn row_active(els: Seq<Option<ElementView>>, y: i32) -> spec_fn(SweepModel, int) -> bool {
    |m: SweepModel, x: int| active_cell(m, els, x as i32, y)
}

/// Whether a position is live.
pub open spec fn cell_live() -> spec_fn(SweepModel, (i32, i32)) -> bool {
    |m: SweepModel, q: (i32, i32)| live_cell(m, q.0, q.1)
}

/// The columns of `lo..=hi`, in the row's direction.
pub open spec fn span_list(lo: int, hi: int, ltr: bool) -> Seq<int> {
    Seq::new(if hi >= lo { (hi - lo + 1) as nat } else { 0 }, |i: int| if ltr { lo + i } else { hi - i })
}

/// The columns of spans `k` on, in the row's direction.
pub open spec fn spans_list(spans: Seq<(i32, i32)>, ltr: bool, k: int) -> Seq<int>
    decreases spans.len() - k,
{
    if k < 0 || k >= spans.len() {
        Seq::empty()
    } else {
        let (lo, hi) = span_at(spans, ltr, k);
        span_list(lo as int, hi as int, ltr) + spans_list(spans, ltr, k + 1)
    }
}

/// The span visited `t`-th in the row's direction.
pub open spec fn span_at(spans: Seq<(i32, i32)>, ltr: bool, t: int) -> (i32, i32) {
    if ltr {
        spans[t]
    } else {
        spans[spans.len() - 1 - t]
    }
}

/// The order of a row's direction.
pub open spec fn row_order(ltr: bool) -> spec_fn(int, int) -> bool {
    |a: int, b: int| if ltr { a < b } else { a > b }
}

/// A move makes no cell live.
proof fn lemma_move_never_wakes(m: SweepModel, els: Seq<Option<ElementView>>, mover: ElementView, fx: i32, fy: i32, tx: int, ty: int, buoyant: bool, i: i32, j: i32)
    ensures
        live_cell(move_spec(m, els, mover, fx, fy, tx, ty, buoyant).1, i, j) ==> live_cell(m, i, j),
{
}

proof fn lemma_first_move_never_wakes(m: SweepModel, els: Seq<Option<ElementView>>, mover: ElementView, x: i32, y: i32, targets: Seq<(int, int)>, buoyant: bool, i: i32, j: i32)
    ensures
        live_cell(first_move(m, els, mover, x, y, targets, buoyant), i, j) ==> live_cell(m, i, j),
    decreases targets.len(),
{
    if targets.len() > 0 {
        lemma_move_never_wakes(m, els, mover, x, y, targets[0].0, targets[0].1, buoyant, i, j);
        lemma_first_move_never_wakes(m, els, mover, x, y, targets.drop_first(), buoyant, i, j);
    }
}

/// A visit makes no cell live, and a visit to a cell that is not live changes nothing.
proof fn lemma_visit_never_wakes(m: SweepModel, els: Seq<Option<ElementView>>, x: i32, y: i32, seed: u64, tick: u64, i: i32, j: i32)
    ensures
        live_cell(visit_spec(m, els, x, y, seed, tick), i, j) ==> live_cell(m, i, j),
        !live_cell(m, x, y) ==> visit_spec(m, els, x, y, seed, tick) == m,
{
    if !((m.moved)(x, y) || (m.cell)(x, y) is None || (m.cell)(x, y) == Some(EMPTY)) {
        match element_in(m, els, x, y) {
            None => {},
            Some(e) => {
                lemma_first_move_never_wakes(m, els, e, x, y, targets_of(e.state, seed, tick, x, y), e.state == State::Gas, i, j);
            },
        }
    }
}

/// Visits along a row skip what is not live and wake nothing, in that row and in any.
proof fn lemma_row_visit_idle(els: Seq<Option<ElementView>>, seed: u64, tick: u64, y: i32)
    ensures
        crate::visits::idle_skipped(row_visit(els, seed, tick, y), row_live(y)),
        crate::visits::never_wakes(row_visit(els, seed, tick, y), cell_live()),
{
    let v = row_visit(els, seed, tick, y);
    assert forall|m: SweepModel, p: int| !row_live(y)(m, p) implies #[trigger] v(m, p) == m by {
        lemma_visit_never_wakes(m, els, p as i32, y, seed, tick, 0, 0);
    }
    assert forall|m: SweepModel, p: int, q: int| #[trigger] row_live(y)(v(m, p), q) implies row_live(y)(m, q) by {
        lemma_visit_never_wakes(m, els, p as i32, y, seed, tick, q as i32, y);
    }
    assert forall|m: SweepModel, p: int, q: (i32, i32)| #[trigger] cell_live()(v(m, p), q) implies cell_live()(m, q) by {
        lemma_visit_never_wakes(m, els, p as i32, y, seed, tick, q.0, q.1);
    }
}

/// A visit to a cell that would not move changes nothing, and no visit gives a cell
/// somewhere to go that had none.
proof fn lemma_row_visit_active(els: Seq<Option<ElementView>>, seed: u64, tick: u64, y: i32)
    ensures
        crate::visits::idle_skipped(row_visit(els, seed, tick, y), row_active(els, y)),
{
    let v = row_visit(els, seed, tick, y);
    assert forall|m: SweepModel, p: int| !row_active(els, y)(m, p) implies #[trigger] v(m, p) == m by {
        lemma_visit_never_wakes(m, els, p as i32, y, seed, tick, 0, 0);
        if live_cell(m, p as i32, y) {
            lemma_settled_stays_settled(m, els, p as i32, y, p as i32, y, seed, tick);
        }
    }
    assert forall|m: SweepModel, p: int, q: int| #[trigger] row_active(els, y)(v(m, p), q) implies row_active(els, y)(m, q) by {
        lemma_visit_never_wakes(m, els, p as i32, y, seed, tick, q as i32, y);
        if settled(m, els, q as i32, y) {
            lemma_settled_stays_settled(m, els, q as i32, y, p as i32, y, seed, tick);
        }
    }
}

/// A span's sweep is the visits along its columns.
proof fn lemma_sweep_span_fold(m: SweepModel, els: Seq<Option<ElementView>>, seed: u64, tick: u64, y: i32, lo: i32, hi: i32, ltr: bool, column: int)
    requires
        0 <= column <= span_list(lo as int, hi as int, ltr).len(),
    ensures
        sweep_span(m, els, seed, tick, y, lo, hi, ltr, column) == crate::visits::fold_visits(
            m,
            row_visit(els, seed, tick, y),
            span_list(lo as int, hi as int, ltr).skip(column),
        ),
    decreases hi - lo + 1 - column,
{
    let list = span_list(lo as int, hi as int, ltr);
    if column >= hi - lo + 1 {
        assert(list.skip(column).len() == 0);
    } else {
        let x = if ltr { lo + column } else { hi - column };
        lemma_sweep_span_fold(visit_spec(m, els, x as i32, y, seed, tick), els, seed, tick, y, lo, hi, ltr, column + 1);
        assert(list.skip(column)[0] == x);
        assert(list.skip(column).drop_first() =~= list.skip(column + 1));
    }
}

/// A row's sweep over spans is the visits along their columns.
proof fn lemma_sweep_spans_fold(m: SweepModel, els: Seq<Option<ElementView>>, seed: u64, tick: u64, y: i32, spans: Seq<(i32, i32)>, ltr: bool, k: int)
    requires
        0 <= k,
    ensures
        sweep_spans(m, els, seed, tick, y, spans, ltr, k) == crate::visits::fold_visits(m, row_visit(els, seed, tick, y), spans_list(spans, ltr, k)),
    decreases spans.len() - k,
{
    if k < spans.len() {
        let (lo, hi) = if ltr { spans[k] } else { spans[spans.len() - 1 - k] };
        let m1 = sweep_span(m, els, seed, tick, y, lo, hi, ltr, 0);
        lemma_sweep_span_fold(m, els, seed, tick, y, lo, hi, ltr, 0);
        assert(span_list(lo as int, hi as int, ltr).skip(0) =~= span_list(lo as int, hi as int, ltr));
        lemma_sweep_spans_fold(m1, els, seed, tick, y, spans, ltr, k + 1);
        crate::visits::lemma_fold_append(m, row_visit(els, seed, tick, y), span_list(lo as int, hi as int, ltr), spans_list(spans, ltr, k + 1));
    }
}

/// The columns of sorted spans come in the row's order, and are the columns the spans
/// from `k` on hold.
proof fn lemma_spans_list(spans: Seq<(i32, i32)>, ltr: bool, k: int)
    requires
        spans_sorted(spans),
        0 <= k <= spans.len(),
    ensures
        crate::visits::strictly_ordered(spans_list(spans, ltr, k), row_order(ltr)),
        forall|v: int| #[trigger] spans_list(spans, ltr, k).contains(v) <==> exists|t: int|
            k <= t < spans.len() && span_at(spans, ltr, t).0 <= v <= #[trigger] span_at(spans, ltr, t).1,
    decreases spans.len() - k,
{
    let n = spans.len();
    if k < n {
        lemma_spans_list(spans, ltr, k + 1);
        let (lo, hi) = if ltr { spans[k] } else { spans[n - 1 - k] };
        let a = span_list(lo as int, hi as int, ltr);
        let b = spans_list(spans, ltr, k + 1);
        assert(spans_list(spans, ltr, k) == a + b);
        assert forall|v: int| #[trigger] a.contains(v) <==> lo <= v <= hi by {
            if lo <= v <= hi {
                let i = if ltr { v - lo } else { hi - v };
                assert(a[i] == v);
            }
        }
        assert forall|i: int, j: int| 0 <= i < j < (a + b).len() implies row_order(ltr)(#[trigger] (a + b)[i], #[trigger] (a + b)[j]) by {
            if j < a.len() {
            } else if i < a.len() {
                let w = b[j - a.len()];
                assert(b.contains(w));
                let t = choose|t: int|
                    k + 1 <= t < n && span_at(spans, ltr, t).0 <= w <= #[trigger] span_at(spans, ltr, t).1;
                if ltr {
                    assert(spans[k].1 < spans[t].0);
                } else {
                    assert(spans[n - 1 - t].1 < spans[n - 1 - k].0);
                }
            }
        }
        assert forall|v: int| #[trigger] (a + b).contains(v) <==> exists|t: int|
            k <= t < n && span_at(spans, ltr, t).0 <= v <= #[trigger] span_at(spans, ltr, t).1 by {
            if (a + b).contains(v) {
                let i = choose|i: int| 0 <= i < (a + b).len() && (a + b)[i] == v;
                if i < a.len() {
                    assert(a.contains(v));
                    assert((if ltr { spans[k] } else { spans[n - 1 - k] }).0 <= v);
                } else {
                    assert(b[i - a.len()] == v);
                    assert(b.contains(v));
                }
            }
            if exists|t: int|
                k <= t < n && span_at(spans, ltr, t).0 <= v <= #[trigger] span_at(spans, ltr, t).1 {
                let t = choose|t: int|
                    k <= t < n && span_at(spans, ltr, t).0 <= v <= #[trigger] span_at(spans, ltr, t).1;
                if t == k {
                    assert(a.contains(v));
                    let i = choose|i: int| 0 <= i < a.len() && a[i] == v;
                    assert((a + b)[i] == v);
                } else {
                    assert(b.contains(v));
                    let i = choose|i: int| 0 <= i < b.len() && b[i] == v;
                    assert((a + b)[a.len() + i] == v);
                }
            }
        }
    }
}

/// Sweeping a row over sorted spans that hold all its cells that could move is
/// sweeping the whole of `lo..=hi`, when that too holds all of them: every column one
/// of the two visits and the other does not has nothing to do, and stays so.
pub proof fn lemma_row_extent(m: SweepModel, els: Seq<Option<ElementView>>, seed: u64, tick: u64, y: i32, spans: Seq<(i32, i32)>, ltr: bool, lo: i32, hi: i32)
    requires
        spans_sorted(spans),
        forall|x: i32| #[trigger] active_cell(m, els, x, y) ==> lo <= x <= hi && in_spans(spans, x as int),
    ensures
        sweep_spans(m, els, seed, tick, y, spans, ltr, 0) == sweep_span(m, els, seed, tick, y, lo, hi, ltr, 0),
{
    let n = spans.len();
    let v = row_visit(els, seed, tick, y);
    let live = row_active(els, y);
    lemma_row_visit_active(els, seed, tick, y);
    let a = spans_list(spans, ltr, 0);
    let b = span_list(lo as int, hi as int, ltr);
    let in_region = |x: int| lo <= x <= hi;
    let in_s = |x: int| in_spans(spans, x);
    lemma_spans_list(spans, ltr, 0);
    assert forall|x: int| #[trigger] a.contains(x) <==> in_spans(spans, x) by {
        if a.contains(x) {
            let t = choose|t: int|
                0 <= t < n && span_at(spans, ltr, t).0 <= x <= #[trigger] span_at(spans, ltr, t).1;
            let k = if ltr { t } else { n - 1 - t };
            assert(spans[k].0 <= x <= spans[k].1);
        }
        if in_spans(spans, x) {
            let k = choose|k: int| 0 <= k < n && #[trigger] spans[k].0 <= x <= spans[k].1;
            let t = if ltr { k } else { n - 1 - k };
            assert(span_at(spans, ltr, t) == spans[k]);
        }
    }
    assert forall|x: int| #[trigger] b.contains(x) <==> lo <= x <= hi by {
        if lo <= x <= hi {
            let i = if ltr { x - lo } else { hi - x };
            assert(b[i] == x);
        }
    }
    assert(crate::visits::strictly_ordered(b, row_order(ltr)));
    // Columns one pass visits and the other does not have nothing to do.
    assert forall|i: int| 0 <= i < a.len() && !in_region(a[i]) implies !live(m, #[trigger] a[i]) by {
        assert(a.contains(a[i]));
        let k = choose|k: int| 0 <= k < n && #[trigger] spans[k].0 <= a[i] <= spans[k].1;
        assert(a[i] as i32 == a[i]);
        if live(m, a[i]) {
            assert(active_cell(m, els, a[i] as i32, y));
        }
    }
    assert forall|i: int| 0 <= i < b.len() && !in_s(b[i]) implies !live(m, #[trigger] b[i]) by {
        assert(b.contains(b[i]));
        assert(b[i] as i32 == b[i]);
        if live(m, b[i]) {
            assert(active_cell(m, els, b[i] as i32, y));
        }
    }
    crate::visits::lemma_skip_idle(m, v, live, in_region, a);
    crate::visits::lemma_skip_idle(m, v, live, in_s, b);
    let ka = crate::visits::keep(a, in_region);
    let kb = crate::visits::keep(b, in_s);
    crate::visits::lemma_keep_contains(a, in_region);
    crate::visits::lemma_keep_contains(b, in_s);
    crate::visits::lemma_keep_ordered(a, in_region, row_order(ltr));
    crate::visits::lemma_keep_ordered(b, in_s, row_order(ltr));
    assert forall|x: int| #![trigger ka.contains(x)] #![trigger kb.contains(x)] ka.contains(x) <==> kb.contains(x) by {
        assert(a.contains(x) <==> in_spans(spans, x));
        assert(b.contains(x) <==> lo <= x <= hi);
    }
    assert(crate::visits::strict_total(row_order(ltr)));
    crate::visits::lemma_ordered_unique(ka, kb, row_order(ltr));
    lemma_sweep_spans_fold(m, els, seed, tick, y, spans, ltr, 0);
    lemma_sweep_span_fold(m, els, seed, tick, y, lo, hi, ltr, 0);
    assert(b.skip(0) =~= b);
}

/// Whether the cell at `(x, y)` holds matter.
pub open spec fn sweep_matter(m: SweepModel, x: i32, y: i32) -> bool {
    (m.cell)(x, y) is Some && (m.cell)(x, y) != Some(EMPTY)
}

/// Everything that can still move lies in `b`, and all matter lies within a cell of
/// it: what stays true through a sweep that starts with all matter in `b`.
pub open spec fn confined(m: SweepModel, b: Bounds) -> bool {
    &&& forall|i: i32, j: i32| #[trigger] live_cell(m, i, j) ==> b.contains(i as int, j as int)
    &&& forall|i: i32, j: i32| #[trigger] sweep_matter(m, i, j) ==> region_holds(grown(Some(b)), i as int, j as int)
}

/// Whether `(i, j)` lies within one cell of `(x, y)` in each direction.
pub open spec fn near(x: int, y: int, i: int, j: int) -> bool {
    -1 <= i - x <= 1 && -1 <= j - y <= 1
}

proof fn lemma_first_move_near(m: SweepModel, els: Seq<Option<ElementView>>, mover: ElementView, x: i32, y: i32, targets: Seq<(int, int)>, buoyant: bool, i: i32, j: i32)
    requires
        forall|k: int| 0 <= k < targets.len() ==> near(x as int, y as int, #[trigger] targets[k].0, targets[k].1),
    ensures
        sweep_matter(first_move(m, els, mover, x, y, targets, buoyant), i, j) ==> sweep_matter(m, i, j) || near(x as int, y as int, i as int, j as int),
    decreases targets.len(),
{
    if targets.len() > 0 {
        assert(near(x as int, y as int, targets[0].0, targets[0].1));
        let rest = targets.drop_first();
        assert forall|k: int| 0 <= k < rest.len() implies near(x as int, y as int, #[trigger] rest[k].0, rest[k].1) by {
            assert(rest[k] == targets[k + 1]);
        }
        lemma_first_move_near(m, els, mover, x, y, rest, buoyant, i, j);
    }
}

/// Every target lies within a cell of where the mover stands.
pub(crate) proof fn lemma_targets_near(state: State, seed: u64, tick: u64, x: i32, y: i32)
    ensures
        forall|k: int| 0 <= k < targets_of(state, seed, tick, x, y).len() ==> near(x as int, y as int, #[trigger] targets_of(state, seed, tick, x, y)[k].0, targets_of(state, seed, tick, x, y)[k].1),
{
}

/// A visit keeps a sweep confined to `b`.
proof fn lemma_visit_confined(m: SweepModel, els: Seq<Option<ElementView>>, x: i32, y: i32, seed: u64, tick: u64, b: Bounds)
    requires
        confined(m, b),
    ensures
        confined(visit_spec(m, els, x, y, seed, tick), b),
{
    let n = visit_spec(m, els, x, y, seed, tick);
    assert forall|i: i32, j: i32| #[trigger] live_cell(n, i, j) implies b.contains(i as int, j as int) by {
        lemma_visit_never_wakes(m, els, x, y, seed, tick, i, j);
    }
    assert forall|i: i32, j: i32| #[trigger] sweep_matter(n, i, j) implies region_holds(grown(Some(b)), i as int, j as int) by {
        lemma_visit_never_wakes(m, els, x, y, seed, tick, 0, 0);
        if live_cell(m, x, y) {
            assert(b.contains(x as int, y as int));
            match element_in(m, els, x, y) {
                None => {},
                Some(e) => {
                    lemma_targets_near(e.state, seed, tick, x, y);
                    lemma_first_move_near(m, els, e, x, y, targets_of(e.state, seed, tick, x, y), e.state == State::Gas, i, j);
                },
            }
        }
    }
}

/// A row's sweep keeps it confined to `b`.
proof fn lemma_row_confined(m: SweepModel, els: Seq<Option<ElementView>>, seed: u64, tick: u64, y: i32, spans: Seq<(i32, i32)>, ltr: bool, b: Bounds)
    requires
        confined(m, b),
    ensures
        confined(sweep_spans(m, els, seed, tick, y, spans, ltr, 0), b),
{
    let v = row_visit(els, seed, tick, y);
    let kept = |n: SweepModel| confined(n, b);
    assert forall|n: SweepModel, p: int| kept(n) implies #[trigger] kept(v(n, p)) by {
        lemma_visit_confined(n, els, p as i32, y, seed, tick, b);
    }
    lemma_sweep_spans_fold(m, els, seed, tick, y, spans, ltr, 0);
    crate::visits::lemma_fold_keeps(m, v, kept, spans_list(spans, ltr, 0));
}

/// One position of the reaction pass: its pair to the right, then its pair below.
pub open spec fn react_visit(rs: Seq<ReactionView>, seed: u64, tick: u64) -> spec_fn(HeatModel, (int, int)) -> HeatModel {
    |m: HeatModel, p: (int, int)|
        if crate::heat::in_plane(p) {
            let (x, y) = (p.0 as i32, p.1 as i32);
            let m1 = if x < i32::MAX { react_pair_spec(m, rs, x, y, (x + 1) as i32, y, seed, tick, SALT_REACT_RIGHT) } else { m };
            if y < i32::MAX { react_pair_spec(m1, rs, x, y, x, (y + 1) as i32, seed, tick, SALT_REACT_DOWN) } else { m1 }
        } else {
            m
        }
}

/// A reaction rewrites only the two cells of its pair, both of which hold matter.
proof fn lemma_react_pair_never_wakes(m: HeatModel, rs: Seq<ReactionView>, ax: i32, ay: i32, bx: i32, by: i32, seed: u64, tick: u64, salt: u32, i: i32, j: i32)
    ensures
        crate::heat::holds_matter(react_pair_spec(m, rs, ax, ay, bx, by, seed, tick, salt), i, j) ==> crate::heat::holds_matter(m, i, j),
        !crate::heat::holds_matter(m, ax, ay) ==> react_pair_spec(m, rs, ax, ay, bx, by, seed, tick, salt) == m,
{
}

/// The reaction pass never puts matter where there was none, and passes over empty
/// space.
proof fn lemma_react_visit_idle(rs: Seq<ReactionView>, seed: u64, tick: u64)
    ensures
        crate::visits::idle_skipped(react_visit(rs, seed, tick), crate::heat::matter_at()),
{
    let v = react_visit(rs, seed, tick);
    let live = crate::heat::matter_at();
    assert forall|m: HeatModel, p: (int, int)| !live(m, p) implies #[trigger] v(m, p) == m by {
        if crate::heat::in_plane(p) {
            let (x, y) = (p.0 as i32, p.1 as i32);
            lemma_react_pair_never_wakes(m, rs, x, y, (x + 1) as i32, y, seed, tick, SALT_REACT_RIGHT, 0, 0);
            lemma_react_pair_never_wakes(m, rs, x, y, x, (y + 1) as i32, seed, tick, SALT_REACT_DOWN, 0, 0);
        }
    }
    assert forall|m: HeatModel, p: (int, int), q: (int, int)| #[trigger] live(v(m, p), q) implies live(m, q) by {
        if crate::heat::in_plane(p) {
            let (x, y) = (p.0 as i32, p.1 as i32);
            let m1 = if x < i32::MAX { react_pair_spec(m, rs, x, y, (x + 1) as i32, y, seed, tick, SALT_REACT_RIGHT) } else { m };
            lemma_react_pair_never_wakes(m, rs, x, y, (x + 1) as i32, y, seed, tick, SALT_REACT_RIGHT, q.0 as i32, q.1 as i32);
            lemma_react_pair_never_wakes(m1, rs, x, y, x, (y + 1) as i32, seed, tick, SALT_REACT_DOWN, q.0 as i32, q.1 as i32);
        }
    }
}

proof fn lemma_react_row_fold(m: HeatModel, rs: Seq<ReactionView>, b: Bounds, y: i32, x: int, seed: u64, tick: u64)
    requires
        b.min_x <= x,
    ensures
        react_row(m, rs, b, y, x, seed, tick) == crate::visits::fold_visits(m, react_visit(rs, seed, tick), crate::visits::row_cols(b, y as int, x)),
    decreases b.max_x - x + 1,
{
    let cols = crate::visits::row_cols(b, y as int, x);
    if x <= b.max_x {
        let m1 = if x < i32::MAX { react_pair_spec(m, rs, x as i32, y, (x + 1) as i32, y, seed, tick, SALT_REACT_RIGHT) } else { m };
        let m2 = if y < i32::MAX { react_pair_spec(m1, rs, x as i32, y, x as i32, (y + 1) as i32, seed, tick, SALT_REACT_DOWN) } else { m1 };
        lemma_react_row_fold(m2, rs, b, y, x + 1, seed, tick);
        assert(cols[0] == (x, y as int));
        assert(react_visit(rs, seed, tick)(m, (x, y as int)) == m2);
        assert(cols.drop_first() =~= crate::visits::row_cols(b, y as int, x + 1));
    }
}

pub(crate) proof fn lemma_react_rows_fold(m: HeatModel, rs: Seq<ReactionView>, b: Bounds, y: int, seed: u64, tick: u64)
    requires
        b.min_y <= y,
    ensures
        react_rows(m, rs, b, y, seed, tick) == crate::visits::fold_visits(m, react_visit(rs, seed, tick), crate::visits::rows_down(b, y)),
    decreases b.max_y - y + 1,
{
    if y <= b.max_y {
        let r = react_row(m, rs, b, y as i32, b.min_x as int, seed, tick);
        lemma_react_row_fold(m, rs, b, y as i32, b.min_x as int, seed, tick);
        lemma_react_rows_fold(r, rs, b, y + 1, seed, tick);
        crate::visits::lemma_fold_append(m, react_visit(rs, seed, tick), crate::visits::row_cols(b, y, b.min_x as int), crate::visits::rows_down(b, y + 1));
    }
}

/// The reactions rolled over a region that holds all the matter.
pub open spec fn react_over(m: HeatModel, rs: Seq<ReactionView>, region: Option<Bounds>, seed: u64, tick: u64) -> HeatModel {
    match region {
        Some(b) => react_rows(m, rs, b, b.min_y as int, seed, tick),
        None => m,
    }
}

/// The reaction pass does not depend on the extent it sweeps, as long as that extent
/// holds all the matter: only two touching cells of matter ever react.
pub proof fn lemma_react_extent(m: HeatModel, rs: Seq<ReactionView>, r1: Option<Bounds>, r2: Option<Bounds>, seed: u64, tick: u64)
    requires
        forall|x: i32, y: i32| #[trigger] crate::heat::holds_matter(m, x, y) ==> region_holds(r1, x as int, y as int) && region_holds(r2, x as int, y as int),
    ensures
        react_over(m, rs, r1, seed, tick) == react_over(m, rs, r2, seed, tick),
{
    lemma_react_visit_idle(rs, seed, tick);
    let v = react_visit(rs, seed, tick);
    let live = crate::heat::matter_at();
    assert forall|p: (int, int)| #[trigger] live(m, p) implies region_holds(r1, p.0, p.1) && region_holds(r2, p.0, p.1) by {
        assert(crate::heat::holds_matter(m, p.0 as i32, p.1 as i32));
    }
    match (r1, r2) {
        (Some(b1), Some(b2)) => {
            lemma_react_rows_fold(m, rs, b1, b1.min_y as int, seed, tick);
            lemma_react_rows_fold(m, rs, b2, b2.min_y as int, seed, tick);
            crate::visits::lemma_region_extent(m, v, live, b1, b2);
        },
        (Some(b1), None) => {
            lemma_react_rows_fold(m, rs, b1, b1.min_y as int, seed, tick);
            crate::visits::lemma_region_idle(m, v, live, b1);
        },
        (None, Some(b2)) => {
            lemma_react_rows_fold(m, rs, b2, b2.min_y as int, seed, tick);
            crate::visits::lemma_region_idle(m, v, live, b2);
        },
        (None, None) => {},
    }
}

/// Advances movement and reactions by one tick.
///
/// Storage that sleeps sweeps only the parts it wakes; that changes nothing as long as
/// every cell that could move lies in one of them.
///
/// Rows are swept bottom-up, so a particle that falls into an already-visited row
/// cannot be picked up and moved a second time; the moved flags stop a rising gas from
/// riding the sweep upward. Movement is only ever a swap, so with no reactions a tick
/// neither creates nor destroys a particle of any element.
pub fn step<F: CellField>(field: &mut F, elements: &ElementTable, reactions: &ReactionTable, seed: u64, tick: u64)
    requires
        old(field).field_inv(),
    ensures
        final(field).field_inv(),
        reactions@.len() == 0 ==> same_census(*old(field), *final(field)),
        reactions@.len() == 0 ==> solids_kept(*old(field), *final(field), elements@),
        F::shape_fixed() ==> agrees(*final(field), step_spec(*old(field), elements@, reactions@, seed, tick)),
        !old(field).may_sleep() || old(field).wakes_all() ==> agrees(
            *final(field),
            step_model_spec(crate::heat::model_of(*old(field)), old(field).region(), full_rows(old(field).region()), elements@, reactions@, seed, tick),
        ),
        restless_wake(*old(field), crate::heat::model_of(*old(field)), elements@) ==> agrees(
            *final(field),
            step_model_spec(crate::heat::model_of(*old(field)), old(field).region(), full_rows(old(field).region()), elements@, reactions@, seed, tick),
        ),
        forall|i: i32, j: i32| #[trigger] final(field).cell(i, j) != old(field).cell(i, j) ==> final(field).active_at(i, j),
        reactions@.len() == 0 ==> cold_kept(*old(field), *final(field)),
        restless_wake(*old(field), crate::heat::model_of(*old(field)), elements@) ==> forall|i: i32, j: i32|
            #[trigger] (swept_spec(crate::heat::model_of(*old(field)), old(field).region(), elements@, seed, tick).cell)(i, j) != (
            crate::heat::model_of(*old(field)).cell)(i, j) ==> final(field).active_at(i, j),
        shape_kept(*old(field), *final(field)),
{
    step_from(field, elements, reactions, seed, tick, Ghost(crate::heat::model_of(*field)));
}

/// The direction each row is swept in.
pub open spec fn row_direction(seed: u64, tick: u64) -> spec_fn(int) -> bool {
    |r: int| rng::noise_salted_spec(seed, tick, 0, r as i32, SALT_ROW_DIRECTION) >= 0x8000_0000
}

/// A visit to position `p` of the movement sweep.
pub open spec fn sweep_visit(els: Seq<Option<ElementView>>, seed: u64, tick: u64) -> spec_fn(SweepModel, (int, int)) -> SweepModel {
    |m: SweepModel, p: (int, int)|
        if crate::heat::in_plane(p) {
            visit_spec(m, els, p.0 as i32, p.1 as i32, seed, tick)
        } else {
            m
        }
}

/// Whether position `p` is live.
pub open spec fn sweep_live() -> spec_fn(SweepModel, (int, int)) -> bool {
    |m: SweepModel, p: (int, int)| crate::heat::in_plane(p) && live_cell(m, p.0 as i32, p.1 as i32)
}

/// Rows from the bottom up, each in its direction: the order of the movement sweep.
pub open spec fn sweep_order(dir: spec_fn(int) -> bool) -> spec_fn((int, int), (int, int)) -> bool {
    |p: (int, int), q: (int, int)| p.1 > q.1 || (p.1 == q.1 && (if dir(p.1) { p.0 < q.0 } else { p.0 > q.0 }))
}

/// Row `y` of a region, in its direction.
pub open spec fn row_line(b: Bounds, y: int, ltr: bool) -> Seq<(int, int)> {
    span_list(b.min_x as int, b.max_x as int, ltr).map_values(|x: int| (x, y))
}

/// Rows `y` down to `min_y` of a region, each in its direction.
pub open spec fn rows_up(b: Bounds, y: int, dir: spec_fn(int) -> bool) -> Seq<(int, int)>
    decreases y - b.min_y + 1,
{
    if y < b.min_y {
        Seq::empty()
    } else {
        row_line(b, y, dir(y)) + rows_up(b, y - 1, dir)
    }
}

pub(crate) proof fn lemma_sweep_visit_idle(els: Seq<Option<ElementView>>, seed: u64, tick: u64)
    ensures
        crate::visits::idle_skipped(sweep_visit(els, seed, tick), sweep_live()),
{
    let v = sweep_visit(els, seed, tick);
    assert forall|m: SweepModel, p: (int, int)| !sweep_live()(m, p) implies #[trigger] v(m, p) == m by {
        lemma_visit_never_wakes(m, els, p.0 as i32, p.1 as i32, seed, tick, 0, 0);
    }
    assert forall|m: SweepModel, p: (int, int), q: (int, int)| #[trigger] sweep_live()(v(m, p), q) implies sweep_live()(m, q) by {
        lemma_visit_never_wakes(m, els, p.0 as i32, p.1 as i32, seed, tick, q.0 as i32, q.1 as i32);
    }
}

/// The rows of a region come in the sweep's order, and are its positions from row `y`
/// down.
proof fn lemma_rows_up(b: Bounds, y: int, dir: spec_fn(int) -> bool)
    requires
        y <= b.max_y,
    ensures
        crate::visits::strictly_ordered(rows_up(b, y, dir), sweep_order(dir)),
        forall|p: (int, int)| #[trigger] rows_up(b, y, dir).contains(p) <==> b.min_y <= p.1 <= y && b.min_x <= p.0 <= b.max_x,
    decreases y - b.min_y + 1,
{
    if y >= b.min_y {
        lemma_rows_up(b, y - 1, dir);
        let r = row_line(b, y, dir(y));
        let xs = span_list(b.min_x as int, b.max_x as int, dir(y));
        let rest = rows_up(b, y - 1, dir);
        assert(rows_up(b, y, dir) == r + rest);
        assert forall|p: (int, int)| #[trigger] r.contains(p) <==> p.1 == y && b.min_x <= p.0 <= b.max_x by {
            if p.1 == y && b.min_x <= p.0 <= b.max_x {
                let i = if dir(y) { p.0 - b.min_x } else { b.max_x - p.0 };
                assert(r[i] == p);
            }
        }
        assert forall|i: int, j: int| 0 <= i < j < (r + rest).len() implies sweep_order(dir)(#[trigger] (r + rest)[i], #[trigger] (r + rest)[j]) by {
            if j >= r.len() && i < r.len() {
                assert(rest.contains(rest[j - r.len()]));
            } else if i >= r.len() {
                assert((r + rest)[i] == rest[i - r.len()]);
                assert((r + rest)[j] == rest[j - r.len()]);
            }
        }
        assert forall|p: (int, int)| #[trigger] (r + rest).contains(p) <==> b.min_y <= p.1 <= y && b.min_x <= p.0 <= b.max_x by {
            if (r + rest).contains(p) {
                let i = choose|i: int| 0 <= i < (r + rest).len() && (r + rest)[i] == p;
                if i < r.len() {
                    assert(r.contains(p));
                } else {
                    assert(rest[i - r.len()] == p);
                    assert(rest.contains(p));
                }
            }
            if b.min_y <= p.1 <= y && b.min_x <= p.0 <= b.max_x {
                if p.1 == y {
                    assert(r.contains(p));
                    let i = choose|i: int| 0 <= i < r.len() && r[i] == p;
                    assert((r + rest)[i] == p);
                } else {
                    assert(rest.contains(p));
                    let i = choose|i: int| 0 <= i < rest.len() && rest[i] == p;
                    assert((r + rest)[r.len() + i] == p);
                }
            }
        }
    }
}

/// Sweeping whole rows of a region is the sweep's visits along them.
pub(crate) proof fn lemma_sweep_rows_fold(m: SweepModel, els: Seq<Option<ElementView>>, seed: u64, tick: u64, b: Bounds, y: int)
    requires
        y <= b.max_y,
    ensures
        sweep_rows(m, els, seed, tick, full_rows(Some(b)), b, y) == crate::visits::fold_visits(
            m,
            sweep_visit(els, seed, tick),
            rows_up(b, y, row_direction(seed, tick)),
        ),
    decreases y - b.min_y + 1,
{
    if y >= b.min_y {
        let dir = row_direction(seed, tick);
        let ltr = dir(y);
        let xs = span_list(b.min_x as int, b.max_x as int, ltr);
        let line = row_line(b, y, ltr);
        reveal_with_fuel(sweep_spans, 2);
        assert(full_rows(Some(b))(y as i32) == seq![(b.min_x, b.max_x)]);
        let m1 = sweep_span(m, els, seed, tick, y as i32, b.min_x, b.max_x, ltr, 0);
        lemma_sweep_span_fold(m, els, seed, tick, y as i32, b.min_x, b.max_x, ltr, 0);
        assert(xs.skip(0) =~= xs);
        assert forall|n: SweepModel, i: int| 0 <= i < xs.len() implies #[trigger] sweep_visit(els, seed, tick)(n, line[i]) == row_visit(
            els,
            seed,
            tick,
            y as i32,
        )(n, xs[i]) by {
            assert(line[i] == (xs[i], y));
        }
        crate::visits::lemma_fold_rename(m, row_visit(els, seed, tick, y as i32), sweep_visit(els, seed, tick), xs, line);
        lemma_sweep_rows_fold(m1, els, seed, tick, b, y - 1);
        crate::visits::lemma_fold_append(m, sweep_visit(els, seed, tick), line, rows_up(b, y - 1, dir));
    }
}

/// A sweep of whole rows keeps it confined to `b`.
proof fn lemma_rows_confined(m: SweepModel, els: Seq<Option<ElementView>>, seed: u64, tick: u64, b: Bounds, y: int)
    requires
        confined(m, b),
    ensures
        confined(sweep_rows(m, els, seed, tick, full_rows(Some(b)), b, y), b),
    decreases y - b.min_y + 1,
{
    if y >= b.min_y {
        let ltr = rng::noise_salted_spec(seed, tick, 0, y as i32, SALT_ROW_DIRECTION) >= 0x8000_0000;
        lemma_row_confined(m, els, seed, tick, y as i32, full_rows(Some(b))(y as i32), ltr, b);
        lemma_rows_confined(sweep_spans(m, els, seed, tick, y as i32, full_rows(Some(b))(y as i32), ltr, 0), els, seed, tick, b, y - 1);
    }
}

/// After sweeping a region that holds all the matter, all of it lies within a cell of
/// the region.
proof fn lemma_swept_within(m: HeatModel, b: Bounds, els: Seq<Option<ElementView>>, seed: u64, tick: u64)
    requires
        forall|x: i32, y: i32| #[trigger] crate::heat::holds_matter(m, x, y) ==> b.contains(x as int, y as int),
    ensures
        forall|x: i32, y: i32|
            #[trigger] crate::heat::holds_matter(
                heat_part(sweep_rows(fresh_sweep(m), els, seed, tick, full_rows(Some(b)), b, b.max_y as int)),
                x,
                y,
            ) ==> region_holds(grown(Some(b)), x as int, y as int),
{
    let m0 = fresh_sweep(m);
    assert forall|i: i32, j: i32| #[trigger] sweep_matter(m0, i, j) implies region_holds(grown(Some(b)), i as int, j as int) by {
        assert(crate::heat::holds_matter(m, i, j));
    }
    assert forall|i: i32, j: i32| #[trigger] live_cell(m0, i, j) implies b.contains(i as int, j as int) by {
        assert(crate::heat::holds_matter(m, i, j));
    }
    lemma_rows_confined(m0, els, seed, tick, b, b.max_y as int);
    let s = sweep_rows(m0, els, seed, tick, full_rows(Some(b)), b, b.max_y as int);
    assert forall|x: i32, y: i32| #[trigger] crate::heat::holds_matter(heat_part(s), x, y) implies region_holds(grown(Some(b)), x as int, y as int) by {
        assert(sweep_matter(s, x, y));
    }
}

/// Every place a cell of `state` at `(x, y)` could try to go, whichever way the tick's
/// hash orders them.
pub open spec fn reachable_targets(state: State, x: i32, y: i32) -> Seq<(int, int)> {
    match state {
        State::Powder => if y == i32::MAX {
            Seq::empty()
        } else {
            seq![(x as int, y + 1), (x + 1, y + 1), (x - 1, y + 1)]
        },
        State::Liquid => seq![(x as int, y + 1), (x + 1, y + 1), (x - 1, y + 1), (x + 1, y as int), (x - 1, y as int)],
        State::Gas => seq![(x as int, y - 1), (x + 1, y - 1), (x - 1, y - 1), (x + 1, y as int), (x - 1, y as int)],
        State::Solid => Seq::empty(),
    }
}

/// Whether `mover` at `(x, y)` cannot go to `(tx, ty)`: it is off the plane, not in
/// the world, already moved this tick, or holds something that does not yield.
pub open spec fn blocked(m: SweepModel, els: Seq<Option<ElementView>>, mover: ElementView, x: i32, y: i32, tx: int, ty: int, buoyant: bool) -> bool {
    !move_spec(m, els, mover, x, y, tx, ty, buoyant).0
}

/// Whether the cell at `(x, y)` has nowhere to go: it is not live, has no definition,
/// or every place it could try is blocked.
pub open spec fn settled(m: SweepModel, els: Seq<Option<ElementView>>, x: i32, y: i32) -> bool {
    !live_cell(m, x, y) || match element_in(m, els, x, y) {
        None => true,
        Some(e) => forall|k: int|
            0 <= k < reachable_targets(e.state, x, y).len() ==> blocked(
                m,
                els,
                e,
                x,
                y,
                (#[trigger] reachable_targets(e.state, x, y)[k]).0,
                reachable_targets(e.state, x, y)[k].1,
                e.state == State::Gas,
            ),
    }
}

/// Tries that all fail leave the model as it was.
proof fn lemma_first_move_blocked(m: SweepModel, els: Seq<Option<ElementView>>, mover: ElementView, x: i32, y: i32, targets: Seq<(int, int)>, buoyant: bool)
    requires
        forall|k: int| 0 <= k < targets.len() ==> blocked(m, els, mover, x, y, (#[trigger] targets[k]).0, targets[k].1, buoyant),
    ensures
        first_move(m, els, mover, x, y, targets, buoyant) == m,
    decreases targets.len(),
{
    if targets.len() > 0 {
        assert(blocked(m, els, mover, x, y, targets[0].0, targets[0].1, buoyant));
        let rest = targets.drop_first();
        assert forall|k: int| 0 <= k < rest.len() implies blocked(m, els, mover, x, y, (#[trigger] rest[k]).0, rest[k].1, buoyant) by {
            assert(rest[k] == targets[k + 1]);
        }
        lemma_first_move_blocked(m, els, mover, x, y, rest, buoyant);
    }
}

/// A move into a target leaves every blocked target of another mover blocked: it only
/// ever fills or empties cells it marks as moved.
proof fn lemma_block_persists(
    m: SweepModel,
    n: SweepModel,
    els: Seq<Option<ElementView>>,
    mover: ElementView,
    x: i32,
    y: i32,
    tx: int,
    ty: int,
    buoyant: bool,
)
    requires
        blocked(m, els, mover, x, y, tx, ty, buoyant),
        (n.cell)(x, y) == (m.cell)(x, y),
        forall|i: i32, j: i32| #[trigger] (n.cell)(i, j) != (m.cell)(i, j) ==> (n.moved)(i, j),
        forall|i: i32, j: i32| #[trigger] (m.moved)(i, j) ==> (n.moved)(i, j),
    ensures
        blocked(n, els, mover, x, y, tx, ty, buoyant),
{
    if i32::MIN <= tx <= i32::MAX && i32::MIN <= ty <= i32::MAX {
        let (a, b) = (tx as i32, ty as i32);
        if (n.cell)(a, b) != (m.cell)(a, b) {
            assert((n.moved)(a, b));
        }
        if (m.moved)(a, b) {
            assert((n.moved)(a, b));
        }
    }
}

/// Whether two models agree on every cell and every moved flag within one cell of
/// `(x, y)`.
pub open spec fn same_near(a: SweepModel, b: SweepModel, x: i32, y: i32) -> bool {
    forall|i: i32, j: i32|
        near(x as int, y as int, i as int, j as int) ==> #[trigger] (a.cell)(i, j) == (b.cell)(i, j) && (a.moved)(i, j) == (b.moved)(i, j)
}

/// Whether a cell has somewhere to go depends only on the cells around it.
pub proof fn lemma_settled_local(a: SweepModel, b: SweepModel, els: Seq<Option<ElementView>>, x: i32, y: i32)
    requires
        same_near(a, b, x, y),
    ensures
        settled(a, els, x, y) == settled(b, els, x, y),
{
    assert(near(x as int, y as int, x as int, y as int));
    assert((a.cell)(x, y) == (b.cell)(x, y) && (a.moved)(x, y) == (b.moved)(x, y));
    match element_in(a, els, x, y) {
        None => {},
        Some(e) => {
            let all = reachable_targets(e.state, x, y);
            assert forall|k: int| 0 <= k < all.len() implies blocked(a, els, e, x, y, (#[trigger] all[k]).0, all[k].1, e.state == State::Gas)
                == blocked(b, els, e, x, y, all[k].0, all[k].1, e.state == State::Gas) by {
                let (tx, ty) = all[k];
                assert(near(x as int, y as int, tx, ty));
                if i32::MIN <= tx <= i32::MAX && i32::MIN <= ty <= i32::MAX {
                    assert((a.cell)(tx as i32, ty as i32) == (b.cell)(tx as i32, ty as i32));
                    assert((a.moved)(tx as i32, ty as i32) == (b.moved)(tx as i32, ty as i32));
                    assert(element_in(a, els, tx as i32, ty as i32) == element_in(b, els, tx as i32, ty as i32));
                }
            }
        },
    }
}

/// What a mover's tries do: a marked cell keeps its contents, a newly marked cell
/// holds something else than it did, and a mover that can go somewhere goes.
proof fn lemma_first_move_facts(m: SweepModel, els: Seq<Option<ElementView>>, mover: ElementView, x: i32, y: i32, targets: Seq<(int, int)>, buoyant: bool)
    requires
        !(m.moved)(x, y),
        (m.cell)(x, y) is Some,
        (m.cell)(x, y) != Some(EMPTY),
        element_in(m, els, x, y) == Some(mover),
        forall|k: int| 0 <= k < targets.len() ==> #[trigger] targets[k] != (x as int, y as int),
    ensures
        forall|i: i32, j: i32| #[trigger] (m.moved)(i, j) ==> (first_move(m, els, mover, x, y, targets, buoyant).cell)(i, j) == (m.cell)(i, j),
        forall|i: i32, j: i32|
            #[trigger] (first_move(m, els, mover, x, y, targets, buoyant).moved)(i, j) && !(m.moved)(i, j) ==> (first_move(
                m,
                els,
                mover,
                x,
                y,
                targets,
                buoyant,
            ).cell)(i, j) != (m.cell)(i, j),
        (exists|k: int| 0 <= k < targets.len() && !blocked(m, els, mover, x, y, (#[trigger] targets[k]).0, targets[k].1, buoyant)) ==> (
        first_move(m, els, mover, x, y, targets, buoyant).moved)(x, y),
    decreases targets.len(),
{
    if targets.len() > 0 {
        let (tx, ty) = targets[0];
        let (ok, next) = move_spec(m, els, mover, x, y, tx, ty, buoyant);
        let rest = targets.drop_first();
        assert forall|k: int| 0 <= k < rest.len() implies #[trigger] rest[k] != (x as int, y as int) by {
            assert(rest[k] == targets[k + 1]);
        }
        lemma_first_move_facts(m, els, mover, x, y, rest, buoyant);
        if ok {
            let (a, b) = (tx as i32, ty as i32);
            assert(targets[0] != (x as int, y as int));
            assert(!(m.moved)(a, b));
            assert((m.cell)(a, b) != (m.cell)(x, y)) by {
                if (m.cell)(a, b) == (m.cell)(x, y) {
                    assert(element_in(m, els, a, b) == Some(mover));
                }
            }
        } else {
            if exists|k: int| 0 <= k < targets.len() && !blocked(m, els, mover, x, y, (#[trigger] targets[k]).0, targets[k].1, buoyant) {
                let k = choose|k: int| 0 <= k < targets.len() && !blocked(m, els, mover, x, y, (#[trigger] targets[k]).0, targets[k].1, buoyant);
                assert(k != 0);
                assert(rest[k - 1] == targets[k]);
            }
        }
    }
}

/// What a visit does: a marked cell keeps its contents, a newly marked cell holds
/// something else than it did, and a cell that could move moves.
proof fn lemma_visit_facts(m: SweepModel, els: Seq<Option<ElementView>>, x: i32, y: i32, seed: u64, tick: u64)
    ensures
        forall|i: i32, j: i32| #[trigger] (m.moved)(i, j) ==> (visit_spec(m, els, x, y, seed, tick).cell)(i, j) == (m.cell)(i, j),
        forall|i: i32, j: i32|
            #[trigger] (visit_spec(m, els, x, y, seed, tick).moved)(i, j) && !(m.moved)(i, j) ==> (visit_spec(m, els, x, y, seed, tick).cell)(
                i,
                j,
            ) != (m.cell)(i, j),
        active_cell(m, els, x, y) ==> (visit_spec(m, els, x, y, seed, tick).moved)(x, y),
{
    if !((m.moved)(x, y) || (m.cell)(x, y) is None || (m.cell)(x, y) == Some(EMPTY)) {
        match element_in(m, els, x, y) {
            None => {},
            Some(e) => {
                let ts = targets_of(e.state, seed, tick, x, y);
                let all = reachable_targets(e.state, x, y);
                let buoyant = e.state == State::Gas;
                assert forall|k: int| 0 <= k < ts.len() implies #[trigger] ts[k] != (x as int, y as int) by {}
                if active_cell(m, els, x, y) {
                    let j = choose|j: int| 0 <= j < all.len() && !blocked(m, els, e, x, y, (#[trigger] all[j]).0, all[j].1, buoyant);
                    let d = diagonal_first(seed, tick, x, y);
                    let l = lateral_first(seed, tick, x, y);
                    let k: int = if j == 0 {
                        0
                    } else if j == 1 {
                        if d == 1 { 1 } else { 2 }
                    } else if j == 2 {
                        if d == 1 { 2 } else { 1 }
                    } else if j == 3 {
                        if l == 1 { 3 } else { 4 }
                    } else {
                        if l == 1 { 4 } else { 3 }
                    };
                    assert(ts[k] == all[j]);
                    assert(!blocked(m, els, e, x, y, ts[k].0, ts[k].1, buoyant));
                }
                lemma_first_move_facts(m, els, e, x, y, ts, buoyant);
            },
        }
    }
}

/// A sweep's bookkeeping against the model `m0` it started from: a marked cell holds
/// something else than it did, an unmarked one what it did.
pub open spec fn marks_faithful(m0: SweepModel, n: SweepModel) -> bool {
    &&& forall|i: i32, j: i32| #[trigger] (n.moved)(i, j) ==> (n.cell)(i, j) != (m0.cell)(i, j)
    &&& forall|i: i32, j: i32| !(n.moved)(i, j) ==> #[trigger] (n.cell)(i, j) == (m0.cell)(i, j)
}

/// Some cell within one of `(x, y)` is marked as moved.
pub open spec fn touched_near(n: SweepModel, x: i32, y: i32) -> bool {
    exists|i: i32, j: i32| near(x as int, y as int, i as int, j as int) && #[trigger] (n.moved)(i, j)
}

/// A visit keeps a sweep's bookkeeping against its start.
proof fn lemma_marks_kept(m0: SweepModel, n: SweepModel, els: Seq<Option<ElementView>>, seed: u64, tick: u64, p: (int, int))
    requires
        marks_faithful(m0, n),
    ensures
        marks_faithful(m0, sweep_visit(els, seed, tick)(n, p)),
{
    if crate::heat::in_plane(p) {
        let (px, py) = (p.0 as i32, p.1 as i32);
        lemma_visit_facts(n, els, px, py, seed, tick);
        lemma_visit_marks(n, els, px, py, seed, tick);
        let w = visit_spec(n, els, px, py, seed, tick);
        assert(sweep_visit(els, seed, tick)(n, p) == w);
        assert forall|i: i32, j: i32| #[trigger] (w.moved)(i, j) implies (w.cell)(i, j) != (m0.cell)(i, j) by {
            if (n.moved)(i, j) {
                assert((w.cell)(i, j) == (n.cell)(i, j));
            } else {
                assert((n.cell)(i, j) == (m0.cell)(i, j));
            }
        }
        assert forall|i: i32, j: i32| !(w.moved)(i, j) implies #[trigger] (w.cell)(i, j) == (m0.cell)(i, j) by {
            if (n.moved)(i, j) {
                assert((w.moved)(i, j));
            }
            if (w.cell)(i, j) != (n.cell)(i, j) {
                assert((w.moved)(i, j));
            }
        }
    }
}

/// A mark near a cell stays after any visit.
proof fn lemma_touched_kept(n: SweepModel, els: Seq<Option<ElementView>>, seed: u64, tick: u64, p: (int, int), x: i32, y: i32)
    requires
        touched_near(n, x, y),
    ensures
        touched_near(sweep_visit(els, seed, tick)(n, p), x, y),
{
    if crate::heat::in_plane(p) {
        lemma_visit_marks(n, els, p.0 as i32, p.1 as i32, seed, tick);
        let (i, j) = choose|i: i32, j: i32| near(x as int, y as int, i as int, j as int) && #[trigger] (n.moved)(i, j);
        assert((sweep_visit(els, seed, tick)(n, p).moved)(i, j));
    }
}

/// Untouched surroundings leave a cell that could move at the start able to move
/// when its turn comes, and then it moves.
proof fn lemma_touch_target(h: HeatModel, n: SweepModel, els: Seq<Option<ElementView>>, seed: u64, tick: u64, x: i32, y: i32)
    requires
        marks_faithful(fresh_sweep(h), n),
        !touched_near(n, x, y),
        !settled(fresh_sweep(h), els, x, y),
    ensures
        touched_near(sweep_visit(els, seed, tick)(n, (x as int, y as int)), x, y),
{
    let m0 = fresh_sweep(h);
    assert forall|i: i32, j: i32| near(x as int, y as int, i as int, j as int) implies #[trigger] (n.cell)(i, j) == (m0.cell)(i, j)
        && (n.moved)(i, j) == (m0.moved)(i, j) by {
        if (n.moved)(i, j) {
            assert(touched_near(n, x, y));
        }
    }
    lemma_settled_local(n, m0, els, x, y);
    assert(near(x as int, y as int, x as int, y as int));
    assert(!(n.moved)(x, y)) by {
        if (n.moved)(x, y) {
            assert(touched_near(n, x, y));
        }
    }
    assert(active_cell(n, els, x, y));
    lemma_visit_facts(n, els, x, y, seed, tick);
    assert(sweep_visit(els, seed, tick)(n, (x as int, y as int)) == visit_spec(n, els, x, y, seed, tick));
    assert((visit_spec(n, els, x, y, seed, tick).moved)(x, y));
}

/// In a sweep over the whole of a region, a cell of it that could move when the sweep
/// starts has some cell within one of it changed by the end: either it moved, or
/// something around it did first.
pub proof fn lemma_sweep_progress(h: HeatModel, els: Seq<Option<ElementView>>, seed: u64, tick: u64, b: Bounds, x: i32, y: i32)
    requires
        !settled(fresh_sweep(h), els, x, y),
        b.contains(x as int, y as int),
    ensures
        exists|i: i32, j: i32|
            near(x as int, y as int, i as int, j as int) && #[trigger] (sweep_rows(fresh_sweep(h), els, seed, tick, full_rows(Some(b)), b, b.max_y as int).cell)(
                i,
                j,
            ) != (h.cell)(i, j),
{
    let m0 = fresh_sweep(h);
    let v = sweep_visit(els, seed, tick);
    let dir = row_direction(seed, tick);
    let ps = rows_up(b, b.max_y as int, dir);
    lemma_sweep_rows_fold(m0, els, seed, tick, b, b.max_y as int);
    lemma_rows_up(b, b.max_y as int, dir);
    assert(ps.contains((x as int, y as int)));
    let kept = |n: SweepModel| marks_faithful(m0, n);
    let done = |n: SweepModel| touched_near(n, x, y);
    assert forall|n: SweepModel, p: (int, int)| kept(n) implies #[trigger] kept(v(n, p)) by {
        lemma_marks_kept(m0, n, els, seed, tick, p);
    }
    assert forall|n: SweepModel, p: (int, int)| kept(n) && done(n) implies #[trigger] done(v(n, p)) by {
        lemma_touched_kept(n, els, seed, tick, p, x, y);
    }
    assert forall|n: SweepModel| kept(n) && !done(n) implies #[trigger] done(v(n, (x as int, y as int))) by {
        lemma_touch_target(h, n, els, seed, tick, x, y);
    }
    assert(kept(m0));
    crate::visits::lemma_fold_reaches(m0, v, kept, done, (x as int, y as int), ps);
    crate::visits::lemma_fold_keeps(m0, v, kept, ps);
    let end = crate::visits::fold_visits(m0, v, ps);
    assert(done(end));
    assert(kept(end));
    assert(touched_near(end, x, y));
    let (i, j) = choose|i: i32, j: i32| near(x as int, y as int, i as int, j as int) && #[trigger] (end.moved)(i, j);
    assert((end.cell)(i, j) != (h.cell)(i, j));
}

/// Within a tick, moves only ever block other moves. A cell with nowhere to go still
/// has nowhere to go after any visit to any cell, and visiting it changes nothing,
/// whichever way that tick's hash orders its tries.
#[verifier::spinoff_prover]
#[verifier::rlimit(60)]
pub proof fn lemma_settled_stays_settled(m: SweepModel, els: Seq<Option<ElementView>>, x: i32, y: i32, qx: i32, qy: i32, seed: u64, tick: u64)
    requires
        settled(m, els, x, y),
    ensures
        visit_spec(m, els, x, y, seed, tick) == m,
        settled(visit_spec(m, els, qx, qy, seed, tick), els, x, y),
{
    // Visiting the settled cell itself does nothing: its tries are its reachable
    // targets in some order, and all of them are blocked.
    if live_cell(m, x, y) {
        match element_in(m, els, x, y) {
            None => {},
            Some(e) => {
                let ts = targets_of(e.state, seed, tick, x, y);
                let all = reachable_targets(e.state, x, y);
                assert forall|k: int| 0 <= k < ts.len() implies blocked(m, els, e, x, y, (#[trigger] ts[k]).0, ts[k].1, e.state == State::Gas) by {
                    let d = diagonal_first(seed, tick, x, y);
                    let l = lateral_first(seed, tick, x, y);
                    let j: int = if k == 0 {
                        0
                    } else if k == 1 {
                        if d == 1 { 1 } else { 2 }
                    } else if k == 2 {
                        if d == 1 { 2 } else { 1 }
                    } else if k == 3 {
                        if l == 1 { 3 } else { 4 }
                    } else {
                        if l == 1 { 4 } else { 3 }
                    };
                    assert(ts[k] == all[j]);
                    assert(blocked(m, els, e, x, y, all[j].0, all[j].1, e.state == State::Gas));
                }
                lemma_first_move_blocked(m, els, e, x, y, ts, e.state == State::Gas);
            },
        }
    }
    // Any visit elsewhere only fills or empties cells it marks as moved.
    let n = visit_spec(m, els, qx, qy, seed, tick);
    lemma_visit_marks(m, els, qx, qy, seed, tick);
    if live_cell(n, x, y) {
        lemma_visit_never_wakes(m, els, qx, qy, seed, tick, x, y);
        assert(live_cell(m, x, y));
        assert((n.cell)(x, y) == (m.cell)(x, y));
        match element_in(m, els, x, y) {
            None => {},
            Some(e) => {
                let all = reachable_targets(e.state, x, y);
                assert forall|k: int| 0 <= k < all.len() implies blocked(n, els, e, x, y, (#[trigger] all[k]).0, all[k].1, e.state == State::Gas) by {
                    assert(blocked(m, els, e, x, y, all[k].0, all[k].1, e.state == State::Gas));
                    lemma_block_persists(m, n, els, e, x, y, all[k].0, all[k].1, e.state == State::Gas);
                }
            },
        }
    }
}

/// A visit changes a cell only by marking it moved, and never clears a moved flag.
proof fn lemma_visit_marks(m: SweepModel, els: Seq<Option<ElementView>>, x: i32, y: i32, seed: u64, tick: u64)
    ensures
        forall|i: i32, j: i32| #[trigger] (visit_spec(m, els, x, y, seed, tick).cell)(i, j) != (m.cell)(i, j) ==> (visit_spec(
            m,
            els,
            x,
            y,
            seed,
            tick,
        ).moved)(i, j),
        forall|i: i32, j: i32| #[trigger] (m.moved)(i, j) ==> (visit_spec(m, els, x, y, seed, tick).moved)(i, j),
{
    if !((m.moved)(x, y) || (m.cell)(x, y) is None || (m.cell)(x, y) == Some(EMPTY)) {
        match element_in(m, els, x, y) {
            None => {},
            Some(e) => {
                lemma_first_move_marks(m, els, e, x, y, targets_of(e.state, seed, tick, x, y), e.state == State::Gas);
            },
        }
    }
}

proof fn lemma_first_move_marks(m: SweepModel, els: Seq<Option<ElementView>>, mover: ElementView, x: i32, y: i32, targets: Seq<(int, int)>, buoyant: bool)
    ensures
        forall|i: i32, j: i32| #[trigger] (first_move(m, els, mover, x, y, targets, buoyant).cell)(i, j) != (m.cell)(i, j) ==> (first_move(
            m,
            els,
            mover,
            x,
            y,
            targets,
            buoyant,
        ).moved)(i, j),
        forall|i: i32, j: i32| #[trigger] (m.moved)(i, j) ==> (first_move(m, els, mover, x, y, targets, buoyant).moved)(i, j),
    decreases targets.len(),
{
    if targets.len() > 0 {
        let (moved, next) = move_spec(m, els, mover, x, y, targets[0].0, targets[0].1, buoyant);
        if moved {
            assert(first_move(m, els, mover, x, y, targets, buoyant) == next);
            assert forall|i: i32, j: i32| #[trigger] (next.cell)(i, j) != (m.cell)(i, j) implies (next.moved)(i, j) by {}
            assert forall|i: i32, j: i32| #[trigger] (m.moved)(i, j) implies (next.moved)(i, j) by {}
        } else {
            assert(first_move(m, els, mover, x, y, targets, buoyant) == first_move(m, els, mover, x, y, targets.drop_first(), buoyant));
            lemma_first_move_marks(m, els, mover, x, y, targets.drop_first(), buoyant);
        }
    }
}

/// The tick does not depend on the extent it sweeps, as long as that extent holds all
/// the matter: everything that can move is visited in the same order either way, and
/// reactions only happen in matter.
pub proof fn lemma_tick_extent(m: HeatModel, r1: Option<Bounds>, r2: Option<Bounds>, els: Seq<Option<ElementView>>, rs: Seq<ReactionView>, seed: u64, tick: u64)
    requires
        forall|x: i32, y: i32| #[trigger] crate::heat::holds_matter(m, x, y) ==> region_holds(r1, x as int, y as int) && region_holds(r2, x as int, y as int),
    ensures
        step_model_spec(m, r1, full_rows(r1), els, rs, seed, tick) == step_model_spec(m, r2, full_rows(r2), els, rs, seed, tick),
{
    let m0 = fresh_sweep(m);
    let v = sweep_visit(els, seed, tick);
    let live = sweep_live();
    let dir = row_direction(seed, tick);
    lemma_sweep_visit_idle(els, seed, tick);
    assert(heat_part(m0) == m);
    assert forall|p: (int, int)| #[trigger] live(m0, p) implies region_holds(r1, p.0, p.1) && region_holds(r2, p.0, p.1) by {
        assert(crate::heat::holds_matter(m, p.0 as i32, p.1 as i32));
    }
    match (r1, r2) {
        (Some(b1), Some(b2)) => {
            lemma_sweep_rows_fold(m0, els, seed, tick, b1, b1.max_y as int);
            lemma_sweep_rows_fold(m0, els, seed, tick, b2, b2.max_y as int);
            lemma_rows_up(b1, b1.max_y as int, dir);
            lemma_rows_up(b2, b2.max_y as int, dir);
            assert(crate::visits::strict_total(sweep_order(dir)));
            crate::visits::lemma_same_live_order(
                m0,
                v,
                live,
                rows_up(b1, b1.max_y as int, dir),
                rows_up(b2, b2.max_y as int, dir),
                |p: (int, int)| b1.contains(p.0, p.1),
                |p: (int, int)| b2.contains(p.0, p.1),
                sweep_order(dir),
            );
            let s = heat_part(sweep_rows(m0, els, seed, tick, full_rows(r1), b1, b1.max_y as int));
            lemma_swept_within(m, b1, els, seed, tick);
            lemma_swept_within(m, b2, els, seed, tick);
            lemma_react_extent(s, rs, grown(r1), grown(r2), seed, tick);
        },
        (Some(b), None) => {
            lemma_sweep_rows_fold(m0, els, seed, tick, b, b.max_y as int);
            lemma_rows_up(b, b.max_y as int, dir);
            let ps = rows_up(b, b.max_y as int, dir);
            assert forall|i: int| 0 <= i < ps.len() implies !live(m0, #[trigger] ps[i]) by {}
            crate::visits::lemma_fold_idle(m0, v, live, ps);
            lemma_react_extent(m, rs, grown(r1), None, seed, tick);
        },
        (None, Some(b)) => {
            lemma_sweep_rows_fold(m0, els, seed, tick, b, b.max_y as int);
            lemma_rows_up(b, b.max_y as int, dir);
            let ps = rows_up(b, b.max_y as int, dir);
            assert forall|i: int| 0 <= i < ps.len() implies !live(m0, #[trigger] ps[i]) by {}
            crate::visits::lemma_fold_idle(m0, v, live, ps);
            lemma_react_extent(m, rs, None, grown(r2), seed, tick);
        },
        (None, None) => {},
    }
}

/// The cells after a tick's sweep over the whole of `region`, from cells and
/// temperatures `m` with no moved flag set.
pub open spec fn swept_spec(m: HeatModel, region: Option<Bounds>, els: Seq<Option<ElementView>>, seed: u64, tick: u64) -> SweepModel {
    match region {
        Some(b) => sweep_rows(fresh_sweep(m), els, seed, tick, full_rows(region), b, b.max_y as int),
        None => fresh_sweep(m),
    }
}

/// Every cell that could move when the tick starts lies where the storage wakes.
pub open spec fn restless_wake<F: CellField>(f: F, m: HeatModel, els: Seq<Option<ElementView>>) -> bool {
    forall|x: i32, y: i32| !#[trigger] settled(fresh_sweep(m), els, x, y) ==> f.wakes_at(x, y)
}

/// What a sweep keeps of the model it started from: a cell with nowhere to go still
/// has nowhere to go, and a cell not marked as moved holds what it held.
#[verifier::opaque]
pub open spec fn sweep_kept(m0: SweepModel, m: SweepModel, els: Seq<Option<ElementView>>) -> bool {
    &&& forall|i: i32, j: i32| #![trigger settled(m, els, i, j)] settled(m0, els, i, j) ==> settled(m, els, i, j)
    &&& forall|i: i32, j: i32| !(m.moved)(i, j) ==> #[trigger] (m.cell)(i, j) == (m0.cell)(i, j)
}

/// Every cell that could move at the start of the sweep lies where the storage runs.
#[verifier::opaque]
pub open spec fn restless_awake<F: CellField>(f: F, m0: SweepModel, els: Seq<Option<ElementView>>) -> bool {
    forall|i: i32, j: i32| !settled(m0, els, i, j) && sweep_matter(m0, i, j) ==> #[trigger] f.awake_at(i, j)
}

/// Where every cell that could move lay where the storage wakes, once it has woken
/// every such cell lies where it runs.
proof fn lemma_restless_start<F: CellField>(start: F, woken: F, hm0: HeatModel, els: Seq<Option<ElementView>>)
    requires
        restless_wake(start, hm0, els),
        agrees(start, hm0),
        forall|i: i32, j: i32|
            start.wakes_at(i, j) && start.cell(i, j) is Some && start.cell(i, j) != Some(EMPTY) ==> #[trigger] woken.awake_at(i, j),
    ensures
        restless_awake(woken, fresh_sweep(hm0), els),
{
    reveal(restless_awake);
    let m0 = fresh_sweep(hm0);
    assert forall|i: i32, j: i32| !settled(m0, els, i, j) && sweep_matter(m0, i, j) implies #[trigger] woken.awake_at(i, j) by {
        assert(start.cell(i, j) == (hm0.cell)(i, j));
        assert(start.wakes_at(i, j));
    }
}

/// Running parts keep running, so every cell that could move still lies in one.
proof fn lemma_restless_awake_kept<F: CellField>(a: F, b: F, m0: SweepModel, els: Seq<Option<ElementView>>)
    requires
        restless_awake(a, m0, els),
        awake_kept(a, b),
    ensures
        restless_awake(b, m0, els),
{
    reveal(restless_awake);
    assert forall|i: i32, j: i32| !settled(m0, els, i, j) && sweep_matter(m0, i, j) implies #[trigger] b.awake_at(i, j) by {
        assert(a.awake_at(i, j));
    }
}

/// A cell that could move now could move at the start, and still holds what it held
/// then, so it lies where the storage runs, and the row's spans take it in.
proof fn lemma_row_covering<F: CellField>(before: F, m: SweepModel, m0: SweepModel, els: Seq<Option<ElementView>>, row: i32, seen: Seq<(i32, i32)>)
    requires
        sweep_kept(m0, m, els),
        restless_awake(before, m0, els),
        agrees_sweep(before, m),
        forall|x: i32|
            before.awake_at(x, row) && before.cell(x, row) is Some && before.cell(x, row) != Some(EMPTY) ==> #[trigger] in_spans(seen, x as int),
    ensures
        forall|x: i32| #[trigger] active_cell(m, els, x, row) ==> in_spans(seen, x as int),
{
    reveal(sweep_kept);
    reveal(restless_awake);
    assert forall|x: i32| #[trigger] active_cell(m, els, x, row) implies in_spans(seen, x as int) by {
        assert(before.cell(x, row) == (m.cell)(x, row));
        assert(!settled(m0, els, x, row));
        assert((m.cell)(x, row) == (m0.cell)(x, row));
        assert(sweep_matter(m0, x, row));
        assert(before.awake_at(x, row));
    }
}

/// A row's sweep keeps what the sweep keeps of its start.
proof fn lemma_row_kept(m0: SweepModel, m: SweepModel, els: Seq<Option<ElementView>>, seed: u64, tick: u64, y: i32, spans: Seq<(i32, i32)>, ltr: bool)
    requires
        sweep_kept(m0, m, els),
    ensures
        sweep_kept(m0, sweep_spans(m, els, seed, tick, y, spans, ltr, 0), els),
{
    reveal(sweep_kept);
    let next = sweep_spans(m, els, seed, tick, y, spans, ltr, 0);
    assert forall|i: i32, j: i32| #![trigger settled(next, els, i, j)] settled(m0, els, i, j) implies settled(next, els, i, j) by {
        assert(settled(m, els, i, j));
        lemma_spans_keep_settled(m, els, seed, tick, y, spans, ltr, i, j);
    }
    lemma_spans_keep_marks(m, m0, els, seed, tick, y, spans, ltr);
}

/// A cell with nowhere to go still has nowhere to go after a row's sweep.
proof fn lemma_spans_keep_settled(m: SweepModel, els: Seq<Option<ElementView>>, seed: u64, tick: u64, y: i32, spans: Seq<(i32, i32)>, ltr: bool, i: i32, j: i32)
    requires
        settled(m, els, i, j),
    ensures
        settled(sweep_spans(m, els, seed, tick, y, spans, ltr, 0), els, i, j),
{
    let v = row_visit(els, seed, tick, y);
    let kept = |n: SweepModel| settled(n, els, i, j);
    assert forall|n: SweepModel, p: int| kept(n) implies #[trigger] kept(v(n, p)) by {
        lemma_settled_stays_settled(n, els, i, j, p as i32, y, seed, tick);
    }
    lemma_sweep_spans_fold(m, els, seed, tick, y, spans, ltr, 0);
    crate::visits::lemma_fold_keeps(m, v, kept, spans_list(spans, ltr, 0));
}

/// A row's sweep changes only cells it marks as moved, and clears no mark.
proof fn lemma_spans_keep_marks(m: SweepModel, m0: SweepModel, els: Seq<Option<ElementView>>, seed: u64, tick: u64, y: i32, spans: Seq<(i32, i32)>, ltr: bool)
    requires
        forall|i: i32, j: i32| !(m.moved)(i, j) ==> #[trigger] (m.cell)(i, j) == (m0.cell)(i, j),
    ensures
        forall|i: i32, j: i32|
            !(sweep_spans(m, els, seed, tick, y, spans, ltr, 0).moved)(i, j) ==> #[trigger] (sweep_spans(m, els, seed, tick, y, spans, ltr, 0).cell)(
                i,
                j,
            ) == (m0.cell)(i, j),
{
    let v = row_visit(els, seed, tick, y);
    let kept = |n: SweepModel| forall|i: i32, j: i32| !(n.moved)(i, j) ==> #[trigger] (n.cell)(i, j) == (m0.cell)(i, j);
    assert forall|n: SweepModel, p: int| kept(n) implies #[trigger] kept(v(n, p)) by {
        lemma_visit_marks(n, els, p as i32, y, seed, tick);
        let w = v(n, p);
        assert forall|i: i32, j: i32| !(w.moved)(i, j) implies #[trigger] (w.cell)(i, j) == (m0.cell)(i, j) by {
            if (n.moved)(i, j) {
                assert((w.moved)(i, j));
            }
            if (w.cell)(i, j) != (n.cell)(i, j) {
                assert((w.moved)(i, j));
            }
        }
    }
    lemma_sweep_spans_fold(m, els, seed, tick, y, spans, ltr, 0);
    crate::visits::lemma_fold_keeps(m, v, kept, spans_list(spans, ltr, 0));
}

/// One row of the sweep keeps it confined, and, where the spans held all of the row's
/// matter, does what sweeping the region's whole width would.
proof fn lemma_after_row<F: CellField>(
    before: F,
    m: SweepModel,
    els: Seq<Option<ElementView>>,
    seed: u64,
    tick: u64,
    row: i32,
    seen: Seq<(i32, i32)>,
    bounds: Bounds,
    covering: bool,
    full: SweepModel,
)
    requires
        agrees_sweep(before, m),
        confined(m, bounds),
        spans_sorted(seen),
        bounds.min_y <= row <= bounds.max_y,
        covering ==> forall|x: i32| #[trigger] active_cell(m, els, x, row) ==> in_spans(seen, x as int),
        covering ==> full == sweep_rows(m, els, seed, tick, full_rows(Some(bounds)), bounds, row as int),
    ensures
        confined(sweep_spans(m, els, seed, tick, row, seen, rng::noise_salted_spec(seed, tick, 0, row, SALT_ROW_DIRECTION) >= 0x8000_0000, 0), bounds),
        covering ==> full == sweep_rows(
            sweep_spans(m, els, seed, tick, row, seen, rng::noise_salted_spec(seed, tick, 0, row, SALT_ROW_DIRECTION) >= 0x8000_0000, 0),
            els,
            seed,
            tick,
            full_rows(Some(bounds)),
            bounds,
            row - 1,
        ),
{
    let ltr = rng::noise_salted_spec(seed, tick, 0, row, SALT_ROW_DIRECTION) >= 0x8000_0000;
    lemma_row_confined(m, els, seed, tick, row, seen, ltr, bounds);
    if covering {
        assert forall|x: i32| #[trigger] active_cell(m, els, x, row) implies bounds.min_x <= x <= bounds.max_x && in_spans(seen, x as int) by {
            assert(live_cell(m, x, row));
            assert(bounds.contains(x as int, row as int));
        }
        lemma_row_extent(m, els, seed, tick, row, seen, ltr, bounds.min_x, bounds.max_x);
        reveal_with_fuel(sweep_spans, 2);
        assert(full_rows(Some(bounds))(row) == seq![(bounds.min_x, bounds.max_x)]);
    }
}

/// The tick from cells and temperatures `m`, which the field holds.
#[verifier::spinoff_prover]
#[verifier::rlimit(100)]
pub(crate) fn step_from<F: CellField>(field: &mut F, elements: &ElementTable, reactions: &ReactionTable, seed: u64, tick: u64, Ghost(hm0): Ghost<HeatModel>)
    requires
        old(field).field_inv(),
        agrees(*old(field), hm0),
    ensures
        final(field).field_inv(),
        reactions@.len() == 0 ==> same_census(*old(field), *final(field)),
        reactions@.len() == 0 ==> solids_kept(*old(field), *final(field), elements@),
        F::shape_fixed() ==> agrees(*final(field), step_model_spec(hm0, old(field).region(), |r: i32| old(field).spans(r), elements@, reactions@, seed, tick)),
        !old(field).may_sleep() || old(field).wakes_all() ==> agrees(*final(field), step_model_spec(hm0, old(field).region(), full_rows(old(field).region()), elements@, reactions@, seed, tick)),
        restless_wake(*old(field), hm0, elements@) ==> agrees(*final(field), step_model_spec(hm0, old(field).region(), full_rows(old(field).region()), elements@, reactions@, seed, tick)),
        shape_kept(*old(field), *final(field)),
        forall|i: i32, j: i32| #[trigger] final(field).cell(i, j) != old(field).cell(i, j) ==> final(field).active_at(i, j),
        reactions@.len() == 0 ==> cold_kept(*old(field), *final(field)),
        restless_wake(*old(field), hm0, elements@) ==> forall|i: i32, j: i32|
            #[trigger] (swept_spec(hm0, old(field).region(), elements@, seed, tick).cell)(i, j) != (hm0.cell)(i, j) ==> final(field).active_at(i, j),
{
    let ghost start = *field;
    let ghost whole = !start.may_sleep() || start.wakes_all();
    let ghost restless = restless_wake(start, hm0, elements@);
    let ghost covering = whole || restless;
    field.begin_tick();
    let ghost woken = *field;
    let ghost m0 = fresh_sweep(hm0);
    proof {
        assert forall|i: i32, j: i32| #[trigger] field.heat_at(i, j) == start.heat_at(i, j) by {
            assert(field.cell(i, j) == start.cell(i, j));
        }
    }
    proof {
        if restless {
            lemma_restless_start(start, *field, hm0, elements@);
        }
        reveal(sweep_kept);
    }
    proof {
        assert forall|i: i32, j: i32| #[trigger] solid_at(start, elements@, i, j) implies field.cell(i, j) == start.cell(i, j) by {
            assert(field.cell(i, j) == start.cell(i, j));
        }
        assert(agrees_sweep(*field, m0)) by {
            assert forall|i: i32, j: i32| #[trigger] field.heat_at(i, j) == (m0.heat)(i, j) by {
                assert(field.cell(i, j) == start.cell(i, j));
                assert(start.cell(i, j) == start.cell(i, j));
            }
            assert forall|i: i32, j: i32| #[trigger] field.cell(i, j) == (m0.cell)(i, j) by {
                assert(start.cell(i, j) == start.cell(i, j));
            }
        }
    }
    let bounds = match field.bounds() {
        Some(b) => b,
        None => {
            proof {
                assert(agrees(*field, heat_part(m0)));
            }
            return;
        },
    };
    let ghost spans_of = |r: i32| start.spans(r);
    let ghost swept = sweep_rows(m0, elements@, seed, tick, spans_of, bounds, bounds.max_y as int);
    let ghost full = sweep_rows(m0, elements@, seed, tick, full_rows(Some(bounds)), bounds, bounds.max_y as int);
    let ghost mut m = m0;
    proof {
        assert forall|i: i32, j: i32| #[trigger] live_cell(m0, i, j) implies bounds.contains(i as int, j as int) by {
            start.lemma_field(i, j);
        }
        assert forall|i: i32, j: i32| #[trigger] sweep_matter(m0, i, j) implies region_holds(grown(Some(bounds)), i as int, j as int) by {
            start.lemma_field(i, j);
        }
    }
    let mut y: i64 = bounds.max_y as i64;
    while y >= bounds.min_y as i64
        invariant
            field.field_inv(),
            same_census(*old(field), *field),
            solids_kept(start, *field, elements@),
            shape_kept(start, *field),
            bounds.min_y as i64 - 1 <= y || y == bounds.max_y,
            y <= bounds.max_y,
            agrees_sweep(*field, m),
            spans_of == (|r: i32| start.spans(r)),
            F::shape_fixed() ==> swept == sweep_rows(m, elements@, seed, tick, spans_of, bounds, y as int),
            F::shape_fixed() ==> field.region() == start.region() && forall|r: i32| #[trigger] field.spans(r) == start.spans(r),
            confined(m, bounds),
            start.region() == Some(bounds),
            whole == (!start.may_sleep() || start.wakes_all()),
            restless == restless_wake(start, hm0, elements@),
            covering == (whole || restless),
            whole ==> field.covers(),
            covering ==> full == sweep_rows(m, elements@, seed, tick, full_rows(Some(bounds)), bounds, y as int),
            m0 == fresh_sweep(hm0),
            sweep_kept(m0, m, elements@),
            restless ==> restless_awake(*field, m0, elements@),
            changes_reported(woken, *field),
            cold_kept(start, *field),
            forall|i: i32, j: i32| #[trigger] woken.cell(i, j) == start.cell(i, j),
        decreases y - bounds.min_y + 1,
    {
        let row: i32 = y as i32;
        let ghost before = *field;
        let seen = sweep_row(field, elements, row, seed, tick, Ghost(m), Ghost(start));
        proof {
            let ltr = rng::noise_salted_spec(seed, tick, 0, row, SALT_ROW_DIRECTION) >= 0x8000_0000;
            if F::shape_fixed() {
                assert(seen@ == start.spans(row));
                assert(spans_of(row) == start.spans(row));
            }
            if covering {
                if whole {
                    assert forall|x: i32| #[trigger] active_cell(m, elements@, x, row) implies in_spans(seen@, x as int) by {
                        assert(before.cell(x, row) == (m.cell)(x, row));
                    }
                } else {
                    lemma_row_covering(before, m, m0, elements@, row, seen@);
                }
            }
            lemma_after_row(before, m, elements@, seed, tick, row, seen@, bounds, covering, full);
            lemma_row_kept(m0, m, elements@, seed, tick, row, seen@, ltr);
            if restless {
                lemma_restless_awake_kept(before, *field, m0, elements@);
            }
            m = sweep_spans(m, elements@, seed, tick, row, seen@, ltr, 0);
        }
        y = y - 1;
    }
    let ghost hm = heat_part(m);
    let ghost region_now = field.region();
    proof {
        assert forall|i: i32, j: i32| #[trigger] crate::heat::holds_matter(hm, i, j) implies region_holds(region_now, i as int, j as int)
            && region_holds(grown(Some(bounds)), i as int, j as int) by {
            field.lemma_field(i, j);
            assert(field.cell(i, j) == (m.cell)(i, j));
            assert(sweep_matter(m, i, j));
        }
        lemma_react_extent(hm, reactions@, region_now, grown(Some(bounds)), seed, tick);
    }
    let ghost swept_field = *field;
    react(field, elements, reactions, seed, tick, Ghost(hm));
    proof {
        assert forall|i: i32, j: i32| #[trigger] field.cell(i, j) != start.cell(i, j) implies field.active_at(i, j) by {
            if swept_field.cell(i, j) != woken.cell(i, j) {
                assert(swept_field.active_at(i, j));
            }
        }
        if restless {
            assert(full == m);
            assert forall|i: i32, j: i32| #[trigger] (swept_spec(hm0, start.region(), elements@, seed, tick).cell)(i, j) != (hm0.cell)(i, j)
                implies field.active_at(i, j) by {
                assert(swept_field.cell(i, j) == (m.cell)(i, j));
                assert(woken.cell(i, j) == (hm0.cell)(i, j));
                assert(swept_field.active_at(i, j));
            }
        }
    }
}

/// One row of the sweep, in its hashed direction, over the spans the storage reports
/// for it, which it hands back.
fn sweep_row<F: CellField>(field: &mut F, elements: &ElementTable, row: i32, seed: u64, tick: u64, Ghost(m): Ghost<SweepModel>, Ghost(start): Ghost<F>) -> (seen: Ghost<Seq<(i32, i32)>>)
    requires
        old(field).field_inv(),
        agrees_sweep(*old(field), m),
        solids_kept(start, *old(field), elements@),
        F::shape_fixed() ==> old(field).region() == start.region() && forall|r: i32| #[trigger] old(field).spans(r) == start.spans(r),
    ensures
        final(field).field_inv(),
        same_census(*old(field), *final(field)),
        solids_kept(start, *final(field), elements@),
        agrees_sweep(*final(field), sweep_spans(m, elements@, seed, tick, row, seen@, rng::noise_salted_spec(seed, tick, 0, row, SALT_ROW_DIRECTION) >= 0x8000_0000, 0)),
        F::shape_fixed() ==> seen@ == start.spans(row),
        spans_sorted(seen@),
        old(field).covers() ==> forall|x: i32|
            old(field).cell(x, row) is Some && old(field).cell(x, row) != Some(EMPTY) ==> #[trigger] in_spans(seen@, x as int),
        forall|x: i32|
            old(field).awake_at(x, row) && old(field).cell(x, row) is Some && old(field).cell(x, row) != Some(EMPTY) ==> #[trigger] in_spans(
                seen@,
                x as int,
            ),
        F::shape_fixed() ==> final(field).region() == start.region() && forall|r: i32| #[trigger] final(field).spans(r) == start.spans(r),
        old(field).covers() ==> final(field).covers(),
        awake_kept(*old(field), *final(field)),
        changes_reported(*old(field), *final(field)),
        cold_kept(*old(field), *final(field)),
        final(field).may_sleep() == old(field).may_sleep(),
{
    let mut spans: Vec<(i32, i32)> = Vec::new();
    field.active_spans(row, &mut spans);
    proof {
        if F::shape_fixed() {
            assert(spans@ =~= field.spans(row));
        }
    }
    // Alternating the scan direction stops material drifting consistently one way.
    // The choice is hashed, so it is reproducible.
    let left_to_right = rng::coin_flip(seed, tick, 0, row, SALT_ROW_DIRECTION);
    let ghost row_end = sweep_spans(m, elements@, seed, tick, row, spans@, left_to_right, 0);
    let ghost mut cur = m;
    let mut k: usize = 0;
    while k < spans.len()
        invariant
            field.field_inv(),
            same_census(*old(field), *field),
            solids_kept(start, *field, elements@),
            k <= spans@.len(),
            agrees_sweep(*field, cur),
            row_end == sweep_spans(cur, elements@, seed, tick, row, spans@, left_to_right, k as int),
            F::shape_fixed() ==> field.region() == start.region() && forall|r: i32| #[trigger] field.spans(r) == start.spans(r),
            old(field).covers() ==> field.covers(),
            awake_kept(*old(field), *field),
            changes_reported(*old(field), *field),
            cold_kept(*old(field), *field),
            field.may_sleep() == old(field).may_sleep(),
        decreases spans@.len() - k,
    {
        let (lo, hi) = if left_to_right {
            spans[k]
        } else {
            spans[spans.len() - 1 - k]
        };
        sweep_span_cells(field, elements, row, lo, hi, left_to_right, seed, tick, Ghost(cur), Ghost(start));
        proof {
            cur = sweep_span(cur, elements@, seed, tick, row, lo, hi, left_to_right, 0);
        }
        k = k + 1;
    }
    Ghost(spans@)
}

/// One span of a row, in the row's direction.
fn sweep_span_cells<F: CellField>(field: &mut F, elements: &ElementTable, row: i32, lo: i32, hi: i32, left_to_right: bool, seed: u64, tick: u64, Ghost(m): Ghost<SweepModel>, Ghost(start): Ghost<F>)
    requires
        old(field).field_inv(),
        agrees_sweep(*old(field), m),
        solids_kept(start, *old(field), elements@),
        F::shape_fixed() ==> old(field).region() == start.region() && forall|r: i32| #[trigger] old(field).spans(r) == start.spans(r),
    ensures
        final(field).field_inv(),
        same_census(*old(field), *final(field)),
        solids_kept(start, *final(field), elements@),
        agrees_sweep(*final(field), sweep_span(m, elements@, seed, tick, row, lo, hi, left_to_right, 0)),
        F::shape_fixed() ==> final(field).region() == start.region() && forall|r: i32| #[trigger] final(field).spans(r) == start.spans(r),
        old(field).covers() ==> final(field).covers(),
        awake_kept(*old(field), *final(field)),
        changes_reported(*old(field), *final(field)),
        cold_kept(*old(field), *final(field)),
        final(field).may_sleep() == old(field).may_sleep(),
{
    let ghost span_end = sweep_span(m, elements@, seed, tick, row, lo, hi, left_to_right, 0);
    let ghost mut cur = m;
    let mut column: i64 = 0;
    let count: i64 = hi as i64 - lo as i64 + 1;
    while column < count
        invariant
            field.field_inv(),
            same_census(*old(field), *field),
            solids_kept(start, *field, elements@),
            count == hi - lo + 1,
            0 <= column,
            agrees_sweep(*field, cur),
            span_end == sweep_span(cur, elements@, seed, tick, row, lo, hi, left_to_right, column as int),
            F::shape_fixed() ==> field.region() == start.region() && forall|r: i32| #[trigger] field.spans(r) == start.spans(r),
            old(field).covers() ==> field.covers(),
            awake_kept(*old(field), *field),
            changes_reported(*old(field), *field),
            cold_kept(*old(field), *field),
            field.may_sleep() == old(field).may_sleep(),
        decreases count - column,
    {
        let x: i32 = if left_to_right {
            (lo as i64 + column) as i32
        } else {
            (hi as i64 - column) as i32
        };
        let ghost before = *field;
        visit(field, elements, x, row, seed, tick, Ghost(cur));
        proof {
            assert forall|i: i32, j: i32| #[trigger] solid_at(start, elements@, i, j) implies field.cell(i, j) == start.cell(i, j) by {
                assert(before.cell(i, j) == start.cell(i, j));
                assert(solid_at(before, elements@, i, j));
            }
            cur = visit_spec(cur, elements@, x, row, seed, tick);
        }
        column = column + 1;
    }
}

/// Moves one cell's contents according to its element's state.
fn visit<F: CellField>(field: &mut F, elements: &ElementTable, x: i32, y: i32, seed: u64, tick: u64, Ghost(m): Ghost<SweepModel>)
    requires
        old(field).field_inv(),
        agrees_sweep(*old(field), m),
    ensures
        final(field).field_inv(),
        same_census(*old(field), *final(field)),
        solids_kept(*old(field), *final(field), elements@),
        agrees_sweep(*final(field), visit_spec(m, elements@, x, y, seed, tick)),
        F::shape_fixed() ==> final(field).region() == old(field).region() && forall|r: i32| #[trigger] final(field).spans(r) == old(field).spans(r),
        old(field).covers() ==> final(field).covers(),
        awake_kept(*old(field), *final(field)),
        changes_reported(*old(field), *final(field)),
        cold_kept(*old(field), *final(field)),
        final(field).may_sleep() == old(field).may_sleep(),
{
    if field.is_moved(x, y) {
        return;
    }
    let id = match field.get(x, y) {
        Some(id) => id,
        None => {
            return;
        },
    };
    if id == EMPTY {
        return;
    }
    // An id with no definition is left alone rather than assumed inert: it means the
    // data file and the world disagree, which is worth noticing.
    let element = match elements.get(id) {
        Some(e) => e,
        None => {
            return;
        },
    };
    proof {
        assert(element_in(m, elements@, x, y) == Some(element@));
    }
    match element.state {
        State::Solid => {},
        State::Powder => {
            if y == i32::MAX {
                return;
            }
            let (first, second) = diagonal_order(seed, tick, x, y);
            let targets: [(i64, i64); 3] = [
                (x as i64, y as i64 + 1),
                (x as i64 + first as i64, y as i64 + 1),
                (x as i64 + second as i64, y as i64 + 1),
            ];
            let ts = targets.as_slice();
            proof {
                assert(pairs_view(ts@) =~= targets_of(State::Powder, seed, tick, x, y));
            }
            try_targets(field, elements, element, x, y, ts, false, Ghost(m));
        },
        State::Liquid => {
            let (first, second) = diagonal_order(seed, tick, x, y);
            // One cell per tick: slower to level out than a multi-cell scan, and
            // simpler to reason about.
            let lateral: i64 = if rng::coin_flip(seed, tick, x, y, SALT_LATERAL) {
                1
            } else {
                -1
            };
            let targets: [(i64, i64); 5] = [
                (x as i64, y as i64 + 1),
                (x as i64 + first as i64, y as i64 + 1),
                (x as i64 + second as i64, y as i64 + 1),
                (x as i64 + lateral, y as i64),
                (x as i64 - lateral, y as i64),
            ];
            let ts = targets.as_slice();
            proof {
                assert(pairs_view(ts@) =~= targets_of(State::Liquid, seed, tick, x, y));
            }
            try_targets(field, elements, element, x, y, ts, false, Ghost(m));
        },
        State::Gas => {
            let (first, second) = diagonal_order(seed, tick, x, y);
            let lateral: i64 = if rng::coin_flip(seed, tick, x, y, SALT_LATERAL) {
                1
            } else {
                -1
            };
            let targets: [(i64, i64); 5] = [
                (x as i64, y as i64 - 1),
                (x as i64 + first as i64, y as i64 - 1),
                (x as i64 + second as i64, y as i64 - 1),
                (x as i64 + lateral, y as i64),
                (x as i64 - lateral, y as i64),
            ];
            let ts = targets.as_slice();
            proof {
                assert(pairs_view(ts@) =~= targets_of(State::Gas, seed, tick, x, y));
            }
            try_targets(field, elements, element, x, y, ts, true, Ghost(m));
        },
    }
}

/// Targets as integer positions.
pub open spec fn pairs_view(s: Seq<(i64, i64)>) -> Seq<(int, int)> {
    s.map_values(|p: (i64, i64)| (p.0 as int, p.1 as int))
}

/// Tries the targets in order until one move happens. A powder falls, then slides
/// diagonally, and will not flow sideways on the level, which is what makes it heap;
/// a liquid also spreads sideways to find its level; a gas is a liquid upside down.
fn try_targets<F: CellField>(field: &mut F, elements: &ElementTable, mover: &Element, x: i32, y: i32, targets: &[(i64, i64)], buoyant: bool, Ghost(m): Ghost<SweepModel>)
    requires
        old(field).field_inv(),
        agrees_sweep(*old(field), m),
    ensures
        final(field).field_inv(),
        same_census(*old(field), *final(field)),
        solids_kept_but(*old(field), *final(field), elements@, x, y),
        agrees_sweep(*final(field), first_move(m, elements@, mover@, x, y, pairs_view(targets@), buoyant)),
        F::shape_fixed() ==> final(field).region() == old(field).region() && forall|r: i32| #[trigger] final(field).spans(r) == old(field).spans(r),
        old(field).covers() ==> final(field).covers(),
        awake_kept(*old(field), *final(field)),
        changes_reported(*old(field), *final(field)),
        cold_kept(*old(field), *final(field)),
        final(field).may_sleep() == old(field).may_sleep(),
{
    let ghost all = pairs_view(targets@);
    proof {
        assert(all.subrange(0, all.len() as int) =~= all);
    }
    let mut k: usize = 0;
    while k < targets.len()
        invariant
            k <= targets@.len(),
            field.field_inv(),
            *field == *old(field),
            agrees_sweep(*field, m),
            all == pairs_view(targets@),
            all.len() == targets@.len(),
            first_move(m, elements@, mover@, x, y, all, buoyant) == first_move(m, elements@, mover@, x, y, all.subrange(k as int, all.len() as int), buoyant),
        decreases targets@.len() - k,
    {
        let (tx, ty) = targets[k];
        let ghost rest = all.subrange(k as int, all.len() as int);
        proof {
            assert(rest[0] == (tx as int, ty as int));
            assert(rest.drop_first() =~= all.subrange(k + 1, all.len() as int));
        }
        if try_move(field, elements, mover, x, y, tx, ty, buoyant, Ghost(m)) {
            return;
        }
        k = k + 1;
    }
    proof {
        assert(all.subrange(k as int, all.len() as int) =~= Seq::<(int, int)>::empty());
    }
}

/// Which diagonal to try first, by coin flip.
fn diagonal_order(seed: u64, tick: u64, x: i32, y: i32) -> (r: (i32, i32))
    ensures
        r == (if rng::noise_salted_spec(seed, tick, x, y, SALT_DIAGONAL) >= 0x8000_0000 {
            (1i32, -1i32)
        } else {
            (-1i32, 1i32)
        }),
{
    if rng::coin_flip(seed, tick, x, y, SALT_DIAGONAL) {
        (1, -1)
    } else {
        (-1, 1)
    }
}

fn displaces(mover: &Element, target: &Element) -> (r: bool)
    ensures
        r == displaces_spec(mover@, target@),
{
    (target.state == State::Liquid || target.state == State::Gas) && mover.density > target.density
}

fn rises_through(mover: &Element, target: &Element) -> (r: bool)
    ensures
        r == rises_through_spec(mover@, target@),
{
    (target.state == State::Liquid || target.state == State::Gas) && mover.density < target.density
}

/// Moves the contents of one cell into another if the target yields, and reports
/// whether it happened. A target outside the 32-bit plane, or outside the world, is
/// immovable boundary.
fn try_move<F: CellField>(
    field: &mut F,
    elements: &ElementTable,
    mover: &Element,
    from_x: i32,
    from_y: i32,
    to_x: i64,
    to_y: i64,
    buoyant: bool,
    Ghost(m): Ghost<SweepModel>,
) -> (r: bool)
    requires
        old(field).field_inv(),
        agrees_sweep(*old(field), m),
    ensures
        final(field).field_inv(),
        same_census(*old(field), *final(field)),
        !r ==> *final(field) == *old(field),
        solids_kept_but(*old(field), *final(field), elements@, from_x, from_y),
        r == move_spec(m, elements@, mover@, from_x, from_y, to_x as int, to_y as int, buoyant).0,
        agrees_sweep(*final(field), move_spec(m, elements@, mover@, from_x, from_y, to_x as int, to_y as int, buoyant).1),
        F::shape_fixed() ==> final(field).region() == old(field).region() && forall|r: i32| #[trigger] final(field).spans(r) == old(field).spans(r),
        old(field).covers() ==> final(field).covers(),
        awake_kept(*old(field), *final(field)),
        changes_reported(*old(field), *final(field)),
        cold_kept(*old(field), *final(field)),
        final(field).may_sleep() == old(field).may_sleep(),
{
    if to_x < i32::MIN as i64 || to_x > i32::MAX as i64 || to_y < i32::MIN as i64 || to_y > i32::MAX as i64 {
        return false;
    }
    let tx: i32 = to_x as i32;
    let ty: i32 = to_y as i32;
    let target = match field.get(tx, ty) {
        Some(t) => t,
        None => {
            return false;
        },
    };
    if field.get(from_x, from_y).is_none() {
        return false;
    }
    if field.is_moved(tx, ty) {
        return false;
    }
    if target != EMPTY {
        let target_element = match elements.get(target) {
            Some(e) => e,
            None => {
                return false;
            },
        };
        proof {
            assert(element_in(m, elements@, tx, ty) == Some(target_element@));
        }
        let yields = if buoyant {
            rises_through(mover, target_element)
        } else {
            displaces(mover, target_element)
        };
        if !yields {
            return false;
        }
    }
    proof {
        // What is pushed aside is empty space or a fluid, never a solid.
        assert(!solid_at(*field, elements@, tx, ty));
    }
    let ghost before = *field;
    field.swap(from_x, from_y, tx, ty);
    let ghost swapped = *field;
    // Both cells changed hands. Marking each keeps this tick's later visits from
    // moving either one again.
    field.mark_moved(tx, ty);
    let ghost marked = *field;
    field.mark_moved(from_x, from_y);
    proof {
        assert forall|i: i32, j: i32| #[trigger] solid_at(before, elements@, i, j) && !(i == from_x && j == from_y) implies field.cell(i, j) == before.cell(i, j) by {
            assert(!(i == tx && j == ty));
            assert(swapped.cell(i, j) == before.cell(i, j));
            assert(marked.cell(i, j) == swapped.cell(i, j));
        }
        let r = moved_swap(m, from_x, from_y, tx, ty);
        assert forall|i: i32, j: i32| #[trigger] field.cell(i, j) == (r.cell)(i, j) by {
            assert(field.cell(i, j) == marked.cell(i, j));
            assert(marked.cell(i, j) == swapped.cell(i, j));
            if !(i == from_x && j == from_y) && !(i == tx && j == ty) {
                assert(swapped.cell(i, j) == before.cell(i, j));
            }
        }
        assert forall|i: i32, j: i32| #[trigger] field.heat_at(i, j) == (r.heat)(i, j) by {
            assert(field.cell(i, j) == marked.cell(i, j));
            assert(marked.cell(i, j) == swapped.cell(i, j));
            if !(i == from_x && j == from_y) && !(i == tx && j == ty) {
                assert(swapped.cell(i, j) == before.cell(i, j));
            }
        }
        assert forall|i: i32, j: i32| #[trigger] field.moved_at(i, j) == (r.moved)(i, j) by {
            assert(swapped.moved_at(i, j) == before.moved_at(i, j));
            if !(i == tx && j == ty) {
                assert(marked.moved_at(i, j) == swapped.moved_at(i, j));
            }
            if !(i == from_x && j == from_y) {
                assert(field.moved_at(i, j) == marked.moved_at(i, j));
            }
            assert(marked.cell(from_x, from_y) == swapped.cell(from_x, from_y));
        }
        if forall|i: i32, j: i32| #[trigger] before.heat_at(i, j) == AMBIENT_TEMPERATURE {
            assert forall|i: i32, j: i32| #[trigger] field.heat_at(i, j) == AMBIENT_TEMPERATURE by {
                assert(field.heat_at(i, j) == (r.heat)(i, j));
                assert(before.heat_at(i, j) == AMBIENT_TEMPERATURE);
                assert(before.heat_at(tx, ty) == AMBIENT_TEMPERATURE);
                assert(before.heat_at(from_x, from_y) == AMBIENT_TEMPERATURE);
            }
        }
    }
    true
}

/// Lets every touching pair of elements react, each adjacent pair considered once: a
/// cell with its right neighbour, and with the one below.
fn react<F: CellField>(field: &mut F, elements: &ElementTable, reactions: &ReactionTable, seed: u64, tick: u64, Ghost(m0): Ghost<HeatModel>)
    requires
        old(field).field_inv(),
        agrees(*old(field), m0),
    ensures
        final(field).field_inv(),
        shape_kept(*old(field), *final(field)),
        changes_reported(*old(field), *final(field)),
        reactions@.len() == 0 ==> *final(field) == *old(field),
        agrees(*final(field), if reactions@.len() == 0 {
            m0
        } else {
            match old(field).region() {
                Some(b) => react_rows(m0, reactions@, b, b.min_y as int, seed, tick),
                None => m0,
            }
        }),
{
    if reactions.is_empty() {
        return;
    }
    let bounds = match field.bounds() {
        Some(b) => b,
        None => {
            return;
        },
    };
    let ghost result = react_rows(m0, reactions@, bounds, bounds.min_y as int, seed, tick);
    let ghost mut m = m0;
    let mut y: i64 = bounds.min_y as i64;
    while y <= bounds.max_y as i64
        invariant
            field.field_inv(),
            bounds.min_y <= y,
            y <= bounds.max_y as i64 + 1 || y == bounds.min_y,
            agrees(*field, m),
            shape_kept(*old(field), *field),
            changes_reported(*old(field), *field),
            result == react_rows(m, reactions@, bounds, y as int, seed, tick),
        decreases bounds.max_y - y + 1,
    {
        let mut x: i64 = bounds.min_x as i64;
        while x <= bounds.max_x as i64
            invariant
                field.field_inv(),
                bounds.min_y <= y <= bounds.max_y,
                bounds.min_x <= x,
                x <= bounds.max_x as i64 + 1 || x == bounds.min_x,
                agrees(*field, m),
                shape_kept(*old(field), *field),
                changes_reported(*old(field), *field),
                result == react_rows(react_row(m, reactions@, bounds, y as i32, x as int, seed, tick), reactions@, bounds, y + 1, seed, tick),
            decreases bounds.max_x - x + 1,
        {
            let (cx, cy) = (x as i32, y as i32);
            let ghost before = m;
            if x < i32::MAX as i64 {
                react_pair(field, reactions, cx, cy, cx + 1, cy, seed, tick, SALT_REACT_RIGHT, Ghost(m));
                proof {
                    m = react_pair_spec(m, reactions@, cx, cy, (cx + 1) as i32, cy, seed, tick, SALT_REACT_RIGHT);
                }
            }
            if y < i32::MAX as i64 {
                react_pair(field, reactions, cx, cy, cx, cy + 1, seed, tick, SALT_REACT_DOWN, Ghost(m));
                proof {
                    m = react_pair_spec(m, reactions@, cx, cy, cx, (cy + 1) as i32, seed, tick, SALT_REACT_DOWN);
                }
            }
            proof {
                assert(x as i32 == cx);
                assert(react_row(before, reactions@, bounds, y as i32, x as int, seed, tick) == react_row(m, reactions@, bounds, y as i32, x + 1, seed, tick));
            }
            x = x + 1;
        }
        y = y + 1;
    }
}

/// Rolls one adjacent pair against the reaction between its two elements, if any.
fn react_pair<F: CellField>(field: &mut F, reactions: &ReactionTable, ax: i32, ay: i32, bx: i32, by: i32, seed: u64, tick: u64, salt: u32, Ghost(m): Ghost<HeatModel>)
    requires
        old(field).field_inv(),
        agrees(*old(field), m),
        !(ax == bx && ay == by),
    ensures
        final(field).field_inv(),
        agrees(*final(field), react_pair_spec(m, reactions@, ax, ay, bx, by, seed, tick, salt)),
        shape_kept(*old(field), *final(field)),
        changes_reported(*old(field), *final(field)),
{
    let a = match field.get(ax, ay) {
        Some(id) => id,
        None => {
            return;
        },
    };
    let b = match field.get(bx, by) {
        Some(id) => id,
        None => {
            return;
        },
    };
    if a == EMPTY || b == EMPTY {
        return;
    }
    let (reaction, flipped) = match reactions.between(a, b) {
        Some(found) => found,
        None => {
            return;
        },
    };
    let roll = rng::below(seed, tick, ax, ay, salt, 0x1_0000);
    if roll as i64 >= reaction.probability.raw() as i64 {
        return;
    }
    let (new_a, new_b) = if flipped {
        (reaction.products[1], reaction.products[0])
    } else {
        (reaction.products[0], reaction.products[1])
    };
    let ghost before = *field;
    field.set(ax, ay, new_a);
    let ghost s1 = *field;
    field.set(bx, by, new_b);
    let ghost s2 = *field;
    // A change of identity is not a move, so nothing else reports it.
    field.mark_active(ax, ay);
    let ghost s3 = *field;
    field.mark_active(bx, by);
    proof {
        let r = react_pair_spec(m, reactions@, ax, ay, bx, by, seed, tick, salt);
        assert(r == write_cell(write_cell(m, ax, ay, new_a), bx, by, new_b));
        assert forall|i: i32, j: i32| #[trigger] field.cell(i, j) == (r.cell)(i, j) by {
            assert(field.cell(i, j) == s3.cell(i, j));
            assert(s3.cell(i, j) == s2.cell(i, j));
            if !(i == bx && j == by) {
                assert(s2.cell(i, j) == s1.cell(i, j));
            }
            if !(i == ax && j == ay) {
                assert(s1.cell(i, j) == before.cell(i, j));
            }
        }
        assert forall|i: i32, j: i32| #[trigger] field.heat_at(i, j) == (r.heat)(i, j) by {
            assert(field.cell(i, j) == s3.cell(i, j));
            assert(s3.cell(i, j) == s2.cell(i, j));
            assert(s2.cell(i, j) == s2.cell(i, j));
            assert(s1.cell(i, j) == s1.cell(i, j));
            if !(i == bx && j == by) {
                assert(s2.cell(i, j) == s1.cell(i, j));
            }
            if !(i == ax && j == ay) {
                assert(s1.cell(i, j) == before.cell(i, j));
            }
        }
    }
}


/// Falling and displacement. A visited powder or liquid that has not moved this tick,
/// with directly below it empty space, or a liquid or gas lighter than itself that has
/// not moved either, trades places with it: it falls, and what was below takes its
/// place. Both cells are then marked as moved.
pub proof fn lemma_sinks(m: SweepModel, els: Seq<Option<ElementView>>, x: i32, y: i32, seed: u64, tick: u64)
    requires
        live_cell(m, x, y),
        element_in(m, els, x, y) is Some,
        element_in(m, els, x, y).unwrap().state == State::Powder || element_in(m, els, x, y).unwrap().state == State::Liquid,
        y < i32::MAX,
        (m.cell)(x, (y + 1) as i32) is Some,
        !(m.moved)(x, (y + 1) as i32),
        (m.cell)(x, (y + 1) as i32) == Some(EMPTY) || ({
            let t = element_in(m, els, x, (y + 1) as i32);
            &&& t is Some
            &&& (t.unwrap().state == State::Liquid || t.unwrap().state == State::Gas)
            &&& t.unwrap().density < element_in(m, els, x, y).unwrap().density
        }),
    ensures
        (visit_spec(m, els, x, y, seed, tick).cell)(x, y) == (m.cell)(x, (y + 1) as i32),
        (visit_spec(m, els, x, y, seed, tick).cell)(x, (y + 1) as i32) == (m.cell)(x, y),
        (visit_spec(m, els, x, y, seed, tick).moved)(x, y),
        (visit_spec(m, els, x, y, seed, tick).moved)(x, (y + 1) as i32),
{
    let e = element_in(m, els, x, y).unwrap();
    let ts = targets_of(e.state, seed, tick, x, y);
    assert(ts[0] == (x as int, y + 1));
    assert(move_spec(m, els, e, x, y, x as int, y + 1, false).0);
}

/// Rising. A visited gas that has not moved this tick, with directly above it empty
/// space, or a liquid or gas heavier than itself that has not moved either, trades
/// places with it.
pub proof fn lemma_rises(m: SweepModel, els: Seq<Option<ElementView>>, x: i32, y: i32, seed: u64, tick: u64)
    requires
        live_cell(m, x, y),
        element_in(m, els, x, y) is Some,
        element_in(m, els, x, y).unwrap().state == State::Gas,
        y > i32::MIN,
        (m.cell)(x, (y - 1) as i32) is Some,
        !(m.moved)(x, (y - 1) as i32),
        (m.cell)(x, (y - 1) as i32) == Some(EMPTY) || ({
            let t = element_in(m, els, x, (y - 1) as i32);
            &&& t is Some
            &&& (t.unwrap().state == State::Liquid || t.unwrap().state == State::Gas)
            &&& t.unwrap().density > element_in(m, els, x, y).unwrap().density
        }),
    ensures
        (visit_spec(m, els, x, y, seed, tick).cell)(x, y) == (m.cell)(x, (y - 1) as i32),
        (visit_spec(m, els, x, y, seed, tick).cell)(x, (y - 1) as i32) == (m.cell)(x, y),
        (visit_spec(m, els, x, y, seed, tick).moved)(x, y),
        (visit_spec(m, els, x, y, seed, tick).moved)(x, (y - 1) as i32),
{
    let e = element_in(m, els, x, y).unwrap();
    let ts = targets_of(e.state, seed, tick, x, y);
    assert(ts[0] == (x as int, y - 1));
    assert(move_spec(m, els, e, x, y, x as int, y - 1, true).0);
}


/// A draw below `0x1_0000` is below `0x1_0000`.
proof fn lemma_draw_below_one(seed: u64, tick: u64, x: i32, y: i32, salt: u32)
    ensures
        (rng::below_spec(seed, tick, x, y, salt, 0x1_0000) as int) < 0x1_0000,
{
    let n = rng::noise_salted_spec(seed, tick, x, y, salt) as int;
    assert((n * 0x1_0000) / 0x1_0000_0000 < 0x1_0000) by (nonlinear_arith)
        requires
            0 <= n < 0x1_0000_0000,
    ;
}

/// Where only two cells hold matter, the reaction pass over a region holding both is
/// the visits to those two, in reading order.
proof fn lemma_pair_pass(m: HeatModel, rs: Seq<ReactionView>, b: Bounds, p: (int, int), q: (int, int), seed: u64, tick: u64)
    requires
        crate::visits::reading_order()(p, q),
        crate::heat::in_plane(p),
        crate::heat::in_plane(q),
        forall|i: i32, j: i32|
            #[trigger] crate::heat::holds_matter(m, i, j) ==> (i as int, j as int) == p || (i as int, j as int) == q,
        b.contains(p.0, p.1),
        b.contains(q.0, q.1),
    ensures
        react_over(m, rs, Some(b), seed, tick) == react_visit(rs, seed, tick)(react_visit(rs, seed, tick)(m, p), q),
{
    let v = react_visit(rs, seed, tick);
    let live = crate::heat::matter_at();
    let ps = crate::visits::rows_down(b, b.min_y as int);
    lemma_react_rows_fold(m, rs, b, b.min_y as int, seed, tick);
    lemma_react_visit_idle(rs, seed, tick);
    crate::visits::lemma_rows_down(b, b.min_y as int);
    crate::visits::lemma_reading_order_total();
    assert forall|i: int| 0 <= i < ps.len() && live(m, #[trigger] ps[i]) implies ps[i] == p || ps[i] == q by {
        assert(crate::heat::holds_matter(m, ps[i].0 as i32, ps[i].1 as i32));
    }
    assert(ps.contains(p) && ps.contains(q));
    crate::visits::lemma_two_live(m, v, live, ps, p, q, crate::visits::reading_order());
}

/// Reactions. Two touching cells of matter, side by side or one directly above the
/// other, with no other matter anywhere, react when the first reaction of the table
/// names them in that order and is certain: after the reaction pass over any region
/// that holds them, they hold that reaction's products.
pub proof fn lemma_certain_reaction(m: HeatModel, rs: Seq<ReactionView>, b: Bounds, x: i32, y: i32, down: bool, seed: u64, tick: u64)
    requires
        down ==> y < i32::MAX,
        !down ==> x < i32::MAX,
        crate::heat::holds_matter(m, x, y),
        crate::heat::holds_matter(m, if down { x } else { (x + 1) as i32 }, if down { (y + 1) as i32 } else { y }),
        forall|i: i32, j: i32|
            #[trigger] crate::heat::holds_matter(m, i, j) ==> (i == x && j == y) || (i == (if down { x } else { (x + 1) as i32 }) && j == (
            if down { (y + 1) as i32 } else { y })),
        b.contains(x as int, y as int),
        b.contains(if down { x as int } else { x + 1 }, if down { y + 1 } else { y as int }),
        rs.len() > 0,
        rs[0].reactants == ((m.cell)(x, y).unwrap(), (m.cell)(if down { x } else { (x + 1) as i32 }, if down { (y + 1) as i32 } else { y }).unwrap()),
        rs[0].probability.0 >= 0x1_0000,
    ensures
        (react_over(m, rs, Some(b), seed, tick).cell)(x, y) == Some(rs[0].products.0),
        (react_over(m, rs, Some(b), seed, tick).cell)(if down { x } else { (x + 1) as i32 }, if down { (y + 1) as i32 } else { y }) == Some(
            rs[0].products.1,
        ),
{
    let qx: i32 = if down { x } else { (x + 1) as i32 };
    let qy: i32 = if down { (y + 1) as i32 } else { y };
    let p = (x as int, y as int);
    let q = (qx as int, qy as int);
    let v = react_visit(rs, seed, tick);
    lemma_pair_pass(m, rs, b, p, q, seed, tick);
    let a = (m.cell)(x, y).unwrap();
    let c = (m.cell)(qx, qy).unwrap();
    assert(between_spec(rs, a, c, 0) == Some((0int, false)));
    let salt = if down { SALT_REACT_DOWN } else { SALT_REACT_RIGHT };
    lemma_draw_below_one(seed, tick, x, y, salt);
    let r = rs[0];
    let reacted = write_cell(write_cell(m, x, y, r.products.0), qx, qy, r.products.1);
    assert(react_pair_spec(m, rs, x, y, qx, qy, seed, tick, salt) == reacted);
    let m1 = v(m, p);
    if down {
        if x < i32::MAX {
            assert(!crate::heat::holds_matter(m, (x + 1) as i32, y));
            assert(react_pair_spec(m, rs, x, y, (x + 1) as i32, y, seed, tick, SALT_REACT_RIGHT) == m);
        }
        assert(m1 == reacted);
    } else {
        if y < i32::MAX {
            assert((reacted.cell)(x, (y + 1) as i32) == (m.cell)(x, (y + 1) as i32));
            assert(!crate::heat::holds_matter(m, x, (y + 1) as i32));
            assert(react_pair_spec(reacted, rs, x, y, x, (y + 1) as i32, seed, tick, SALT_REACT_DOWN) == reacted);
        }
        assert(m1 == reacted);
    }
    if qx < i32::MAX {
        assert((reacted.cell)((qx + 1) as i32, qy) == (m.cell)((qx + 1) as i32, qy));
        assert(!crate::heat::holds_matter(m, (qx + 1) as i32, qy));
        assert(react_pair_spec(reacted, rs, qx, qy, (qx + 1) as i32, qy, seed, tick, SALT_REACT_RIGHT) == reacted);
    }
    if qy < i32::MAX {
        assert((reacted.cell)(qx, (qy + 1) as i32) == (m.cell)(qx, (qy + 1) as i32));
        assert(!crate::heat::holds_matter(m, qx, (qy + 1) as i32));
        assert(react_pair_spec(reacted, rs, qx, qy, qx, (qy + 1) as i32, seed, tick, SALT_REACT_DOWN) == reacted);
    }
    assert(v(m1, q) == reacted);
}

/// Reactions, named the other way round. When the first reaction of the table names the
/// two touching cells in the opposite order, and is certain, each cell becomes the
/// product in the place of its own reactant: the first cell the second product, the
/// second cell the first.
pub proof fn lemma_certain_reaction_reversed(m: HeatModel, rs: Seq<ReactionView>, b: Bounds, x: i32, y: i32, down: bool, seed: u64, tick: u64)
    requires
        down ==> y < i32::MAX,
        !down ==> x < i32::MAX,
        crate::heat::holds_matter(m, x, y),
        crate::heat::holds_matter(m, if down { x } else { (x + 1) as i32 }, if down { (y + 1) as i32 } else { y }),
        forall|i: i32, j: i32|
            #[trigger] crate::heat::holds_matter(m, i, j) ==> (i == x && j == y) || (i == (if down { x } else { (x + 1) as i32 }) && j == (
            if down { (y + 1) as i32 } else { y })),
        b.contains(x as int, y as int),
        b.contains(if down { x as int } else { x + 1 }, if down { y + 1 } else { y as int }),
        rs.len() > 0,
        rs[0].reactants == ((m.cell)(if down { x } else { (x + 1) as i32 }, if down { (y + 1) as i32 } else { y }).unwrap(), (m.cell)(x, y).unwrap()),
        (m.cell)(x, y) != (m.cell)(if down { x } else { (x + 1) as i32 }, if down { (y + 1) as i32 } else { y }),
        rs[0].probability.0 >= 0x1_0000,
    ensures
        (react_over(m, rs, Some(b), seed, tick).cell)(x, y) == Some(rs[0].products.1),
        (react_over(m, rs, Some(b), seed, tick).cell)(if down { x } else { (x + 1) as i32 }, if down { (y + 1) as i32 } else { y }) == Some(
            rs[0].products.0,
        ),
{
    let qx: i32 = if down { x } else { (x + 1) as i32 };
    let qy: i32 = if down { (y + 1) as i32 } else { y };
    let p = (x as int, y as int);
    let q = (qx as int, qy as int);
    let v = react_visit(rs, seed, tick);
    lemma_pair_pass(m, rs, b, p, q, seed, tick);
    let a = (m.cell)(x, y).unwrap();
    let c = (m.cell)(qx, qy).unwrap();
    assert(between_spec(rs, a, c, 0) == Some((0int, true)));
    let salt = if down { SALT_REACT_DOWN } else { SALT_REACT_RIGHT };
    lemma_draw_below_one(seed, tick, x, y, salt);
    let r = rs[0];
    let reacted = write_cell(write_cell(m, x, y, r.products.1), qx, qy, r.products.0);
    assert(react_pair_spec(m, rs, x, y, qx, qy, seed, tick, salt) == reacted);
    let m1 = v(m, p);
    if down {
        if x < i32::MAX {
            assert(!crate::heat::holds_matter(m, (x + 1) as i32, y));
            assert(react_pair_spec(m, rs, x, y, (x + 1) as i32, y, seed, tick, SALT_REACT_RIGHT) == m);
        }
        assert(m1 == reacted);
    } else {
        if y < i32::MAX {
            assert((reacted.cell)(x, (y + 1) as i32) == (m.cell)(x, (y + 1) as i32));
            assert(!crate::heat::holds_matter(m, x, (y + 1) as i32));
            assert(react_pair_spec(reacted, rs, x, y, x, (y + 1) as i32, seed, tick, SALT_REACT_DOWN) == reacted);
        }
        assert(m1 == reacted);
    }
    if qx < i32::MAX {
        assert((reacted.cell)((qx + 1) as i32, qy) == (m.cell)((qx + 1) as i32, qy));
        assert(!crate::heat::holds_matter(m, (qx + 1) as i32, qy));
        assert(react_pair_spec(reacted, rs, qx, qy, (qx + 1) as i32, qy, seed, tick, SALT_REACT_RIGHT) == reacted);
    }
    if qy < i32::MAX {
        assert((reacted.cell)(qx, (qy + 1) as i32) == (m.cell)(qx, (qy + 1) as i32));
        assert(!crate::heat::holds_matter(m, qx, (qy + 1) as i32));
        assert(react_pair_spec(reacted, rs, qx, qy, qx, (qy + 1) as i32, seed, tick, SALT_REACT_DOWN) == reacted);
    }
    assert(v(m1, q) == reacted);
}


/// Falling over a whole sweep. A lone grain of powder or drop of liquid, with no other
/// matter anywhere and empty space directly below it, has fallen one cell after the
/// sweep over any region holding it: the cell below holds it, and its old cell is empty.
pub proof fn lemma_lone_grain_falls(m: HeatModel, els: Seq<Option<ElementView>>, b: Bounds, x: i32, y: i32, seed: u64, tick: u64)
    requires
        crate::heat::holds_matter(m, x, y),
        element_in(fresh_sweep(m), els, x, y) is Some,
        element_in(fresh_sweep(m), els, x, y).unwrap().state == State::Powder || element_in(fresh_sweep(m), els, x, y).unwrap().state
            == State::Liquid,
        y < i32::MAX,
        (m.cell)(x, (y + 1) as i32) == Some(EMPTY),
        forall|i: i32, j: i32| #[trigger] crate::heat::holds_matter(m, i, j) ==> i == x && j == y,
        b.contains(x as int, y as int),
    ensures
        (sweep_rows(fresh_sweep(m), els, seed, tick, full_rows(Some(b)), b, b.max_y as int).cell)(x, (y + 1) as i32) == (m.cell)(x, y),
        (sweep_rows(fresh_sweep(m), els, seed, tick, full_rows(Some(b)), b, b.max_y as int).cell)(x, y) == Some(EMPTY),
{
    let m0 = fresh_sweep(m);
    let p = (x as int, y as int);
    let v = sweep_visit(els, seed, tick);
    let live = sweep_live();
    let dir = row_direction(seed, tick);
    let ps = rows_up(b, b.max_y as int, dir);
    lemma_sweep_visit_idle(els, seed, tick);
    lemma_sweep_rows_fold(m0, els, seed, tick, b, b.max_y as int);
    lemma_rows_up(b, b.max_y as int, dir);
    assert(crate::visits::strict_total(sweep_order(dir)));
    assert forall|i: int| 0 <= i < ps.len() && live(m0, #[trigger] ps[i]) implies ps[i] == p by {
        assert(crate::heat::holds_matter(m, ps[i].0 as i32, ps[i].1 as i32));
    }
    assert(ps.contains(p));
    crate::visits::lemma_one_live(m0, v, live, ps, p, sweep_order(dir));
    assert(v(m0, p) == visit_spec(m0, els, x, y, seed, tick));
    lemma_sinks(m0, els, x, y, seed, tick);
}


/// Whether a mover of `e` cannot enter the cell at `(i, j)`: off the plane, outside the
/// world, already moved, or holding matter that does not yield to it (anything but a
/// lighter liquid or gas; for a gas, anything but a heavier liquid or gas).
pub open spec fn bars(m: SweepModel, els: Seq<Option<ElementView>>, e: ElementView, i: int, j: int) -> bool {
    !(i32::MIN <= i <= i32::MAX && i32::MIN <= j <= i32::MAX) || ({
        let (a, b) = (i as i32, j as i32);
        ||| (m.cell)(a, b) is None
        ||| (m.moved)(a, b)
        ||| ((m.cell)(a, b) != Some(EMPTY) && match element_in(m, els, a, b) {
            None => true,
            Some(t) => !(t.state == State::Liquid || t.state == State::Gas) || (if e.state == State::Gas {
                t.density <= e.density
            } else {
                t.density >= e.density
            }),
        })
    })
}

/// Whether `(i, j)` is empty space in the world that has not moved this tick.
pub open spec fn open_cell(m: SweepModel, i: int, j: int) -> bool {
    i32::MIN <= i <= i32::MAX && i32::MIN <= j <= i32::MAX && (m.cell)(i as i32, j as i32) == Some(EMPTY) && !(m.moved)(
        i as i32,
        j as i32,
    )
}

/// Sliding. A visited powder or liquid that has not moved this tick and cannot go
/// straight down, with both cells diagonally below it open, slides into one of them.
pub proof fn lemma_slides(m: SweepModel, els: Seq<Option<ElementView>>, x: i32, y: i32, seed: u64, tick: u64)
    requires
        live_cell(m, x, y),
        element_in(m, els, x, y) is Some,
        element_in(m, els, x, y).unwrap().state == State::Powder || element_in(m, els, x, y).unwrap().state == State::Liquid,
        y < i32::MAX,
        bars(m, els, element_in(m, els, x, y).unwrap(), x as int, y + 1),
        open_cell(m, x - 1, y + 1),
        open_cell(m, x + 1, y + 1),
    ensures
        (visit_spec(m, els, x, y, seed, tick).cell)(x, y) == Some(EMPTY),
        (visit_spec(m, els, x, y, seed, tick).cell)((x + 1) as i32, (y + 1) as i32) == (m.cell)(x, y) || (visit_spec(
            m,
            els,
            x,
            y,
            seed,
            tick,
        ).cell)((x - 1) as i32, (y + 1) as i32) == (m.cell)(x, y),
{
    let e = element_in(m, els, x, y).unwrap();
    let ts = targets_of(e.state, seed, tick, x, y);
    let d = diagonal_first(seed, tick, x, y);
    assert(ts[0] == (x as int, y + 1));
    assert(ts[1] == (x + d, y + 1));
    assert(!move_spec(m, els, e, x, y, x as int, y + 1, false).0);
    assert(move_spec(m, els, e, x, y, x + d, y + 1, false).0);
    let t1 = ts.drop_first();
    assert(t1[0] == (x + d, y + 1));
    assert(first_move(m, els, e, x, y, ts, false) == first_move(m, els, e, x, y, t1, false));
    assert(first_move(m, els, e, x, y, t1, false) == move_spec(m, els, e, x, y, x + d, y + 1, false).1);
    let v = visit_spec(m, els, x, y, seed, tick);
    assert((v.cell)((x + d) as i32, (y + 1) as i32) == (m.cell)(x, y));
}

/// Spreading. A visited liquid that has not moved this tick and can go neither down nor
/// diagonally down, with both cells beside it open, flows into one of them.
pub proof fn lemma_spreads(m: SweepModel, els: Seq<Option<ElementView>>, x: i32, y: i32, seed: u64, tick: u64)
    requires
        live_cell(m, x, y),
        element_in(m, els, x, y) is Some,
        element_in(m, els, x, y).unwrap().state == State::Liquid,
        bars(m, els, element_in(m, els, x, y).unwrap(), x as int, y + 1),
        bars(m, els, element_in(m, els, x, y).unwrap(), x - 1, y + 1),
        bars(m, els, element_in(m, els, x, y).unwrap(), x + 1, y + 1),
        open_cell(m, x - 1, y as int),
        open_cell(m, x + 1, y as int),
    ensures
        (visit_spec(m, els, x, y, seed, tick).cell)(x, y) == Some(EMPTY),
        (visit_spec(m, els, x, y, seed, tick).cell)((x + 1) as i32, y) == (m.cell)(x, y) || (visit_spec(m, els, x, y, seed, tick).cell)(
            (x - 1) as i32,
            y,
        ) == (m.cell)(x, y),
{
    let e = element_in(m, els, x, y).unwrap();
    let ts = targets_of(e.state, seed, tick, x, y);
    let d = diagonal_first(seed, tick, x, y);
    let l = lateral_first(seed, tick, x, y);
    assert(ts[0] == (x as int, y + 1));
    assert(!move_spec(m, els, e, x, y, x as int, y + 1, false).0);
    assert(!move_spec(m, els, e, x, y, x + d, y + 1, false).0);
    assert(!move_spec(m, els, e, x, y, x - d, y + 1, false).0);
    assert(move_spec(m, els, e, x, y, x + l, y as int, false).0);
    let t1 = ts.drop_first();
    let t2 = t1.drop_first();
    let t3 = t2.drop_first();
    assert(t1[0] == (x + d, y + 1));
    assert(t2[0] == (x - d, y + 1));
    assert(t3[0] == (x + l, y as int));
    assert(first_move(m, els, e, x, y, ts, false) == first_move(m, els, e, x, y, t1, false));
    assert(first_move(m, els, e, x, y, t1, false) == first_move(m, els, e, x, y, t2, false));
    assert(first_move(m, els, e, x, y, t2, false) == first_move(m, els, e, x, y, t3, false));
    let v = visit_spec(m, els, x, y, seed, tick);
    assert((v.cell)((x + l) as i32, y) == (m.cell)(x, y));
}


/// The search for a reaction between two elements finds none when no reaction names
/// them, either way round.
proof fn lemma_between_none(rs: Seq<ReactionView>, a: u8, c: u8, i: int)
    requires
        0 <= i,
        forall|k: int| 0 <= k < rs.len() ==> #[trigger] rs[k].reactants != (a, c) && rs[k].reactants != (c, a),
    ensures
        between_spec(rs, a, c, i) is None,
    decreases rs.len() - i,
{
    if i < rs.len() {
        lemma_between_none(rs, a, c, i + 1);
    }
}

/// No reaction without a reaction. Two touching cells of matter, with no other matter
/// anywhere, come through the reaction pass unchanged when no reaction of the table
/// names them, or when the first one does, in order, with a probability of zero.
pub proof fn lemma_no_reaction(m: HeatModel, rs: Seq<ReactionView>, b: Bounds, x: i32, y: i32, down: bool, seed: u64, tick: u64)
    requires
        down ==> y < i32::MAX,
        !down ==> x < i32::MAX,
        crate::heat::holds_matter(m, x, y),
        crate::heat::holds_matter(m, if down { x } else { (x + 1) as i32 }, if down { (y + 1) as i32 } else { y }),
        forall|i: i32, j: i32|
            #[trigger] crate::heat::holds_matter(m, i, j) ==> (i == x && j == y) || (i == (if down { x } else { (x + 1) as i32 }) && j == (
            if down { (y + 1) as i32 } else { y })),
        b.contains(x as int, y as int),
        b.contains(if down { x as int } else { x + 1 }, if down { y + 1 } else { y as int }),
        ({
            let a = (m.cell)(x, y).unwrap();
            let c = (m.cell)(if down { x } else { (x + 1) as i32 }, if down { (y + 1) as i32 } else { y }).unwrap();
            ||| forall|k: int| 0 <= k < rs.len() ==> #[trigger] rs[k].reactants != (a, c) && rs[k].reactants != (c, a)
            ||| (rs.len() > 0 && rs[0].reactants == (a, c) && rs[0].probability.0 <= 0)
        }),
    ensures
        react_over(m, rs, Some(b), seed, tick) == m,
{
    let qx: i32 = if down { x } else { (x + 1) as i32 };
    let qy: i32 = if down { (y + 1) as i32 } else { y };
    let p = (x as int, y as int);
    let q = (qx as int, qy as int);
    let v = react_visit(rs, seed, tick);
    lemma_pair_pass(m, rs, b, p, q, seed, tick);
    let a = (m.cell)(x, y).unwrap();
    let c = (m.cell)(qx, qy).unwrap();
    if forall|k: int| 0 <= k < rs.len() ==> #[trigger] rs[k].reactants != (a, c) && rs[k].reactants != (c, a) {
        lemma_between_none(rs, a, c, 0);
    } else {
        assert(between_spec(rs, a, c, 0) == Some((0int, false)));
    }
    let salt = if down { SALT_REACT_DOWN } else { SALT_REACT_RIGHT };
    assert(react_pair_spec(m, rs, x, y, qx, qy, seed, tick, salt) == m);
    if down {
        if x < i32::MAX {
            assert(!crate::heat::holds_matter(m, (x + 1) as i32, y));
        }
    } else {
        if y < i32::MAX {
            assert(!crate::heat::holds_matter(m, x, (y + 1) as i32));
        }
    }
    assert(v(m, p) == m);
    if qx < i32::MAX {
        assert(!crate::heat::holds_matter(m, (qx + 1) as i32, qy));
    }
    if qy < i32::MAX {
        assert(!crate::heat::holds_matter(m, qx, (qy + 1) as i32));
    }
    assert(v(m, q) == m);
}

} // verus!
