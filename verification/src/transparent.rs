//! Why storage is only storage.
//!
//! A chunked world and the flat reference world store their cells nothing alike, yet a
//! walled-in scene evolves the same in both, cell for cell. The flat world ends at its
//! edges, where the chunked one goes on as empty space; nothing can tell the two apart
//! as long as nothing reaches the edge. A rim of inert wall sees to that: nothing moves
//! it, nothing moves through it, nothing reacts with it, and heat cannot turn it into
//! anything else.

use vstd::prelude::*;
use crate::elements::{ElementId, ElementView, State, EMPTY};
use crate::reactions::ReactionView;
use crate::field::{Bounds, CellField};
use crate::heat::{self, HeatModel};
use crate::step::{self, SweepModel};
use crate::visits;
use crate::hash::{OFFSET_BASIS, fnv_bytes, le_bytes_u64};
use crate::world::canonical_records;

verus! {

/// Whether `(x, y)` lies in a grid `w` cells wide and `h` high.
pub open spec fn in_grid(w: int, h: int, x: int, y: int) -> bool {
    0 <= x < w && 0 <= y < h
}

/// Whether `(x, y)` is on the grid's outermost ring of cells.
pub open spec fn on_rim(w: int, h: int, x: int, y: int) -> bool {
    in_grid(w, h, x, y) && (x == 0 || y == 0 || x == w - 1 || y == h - 1)
}

/// Whether `id` is a wall that nothing moves, heat cannot change and nothing reacts
/// with: a defined solid with no phase change that takes part in no reaction.
pub open spec fn inert_wall(els: Seq<Option<ElementView>>, rs: Seq<ReactionView>, id: ElementId) -> bool {
    &&& forall|k: int| 0 <= k < rs.len() ==> (#[trigger] rs[k]).reactants.0 != id && rs[k].reactants.1 != id
    &&& id != EMPTY
    &&& (id as int) < els.len()
    &&& els[id as int] is Some
    &&& els[id as int].unwrap().state == State::Solid
    &&& els[id as int].unwrap().boils_into == EMPTY
    &&& els[id as int].unwrap().melts_into == EMPTY
    &&& els[id as int].unwrap().condenses_into == EMPTY
    &&& els[id as int].unwrap().freezes_into == EMPTY
}

/// The grid's cells as a region.
pub open spec fn grid_region(w: int, h: int) -> Bounds {
    Bounds { min_x: 0, min_y: 0, max_x: (w - 1) as i32, max_y: (h - 1) as i32 }
}

/// Flat model `a`, a grid `w` by `h`, and model `b` of unbounded storage hold the same
/// inside the grid; outside it `a` has no cells and `b` is empty space; and the grid's
/// rim is inert wall.
pub open spec fn walled_alike(a: HeatModel, b: HeatModel, w: int, h: int, els: Seq<Option<ElementView>>, rs: Seq<ReactionView>) -> bool {
    &&& forall|x: i32, y: i32|
        in_grid(w, h, x as int, y as int) ==> #[trigger] (a.cell)(x, y) == (b.cell)(x, y) && (a.heat)(x, y) == (b.heat)(x, y)
            && (a.cell)(x, y) is Some
    &&& forall|x: i32, y: i32| !in_grid(w, h, x as int, y as int) ==> #[trigger] (a.cell)(x, y) is None && (b.cell)(x, y) == Some(EMPTY)
    &&& forall|x: i32, y: i32| on_rim(w, h, x as int, y as int) ==> inert_wall(els, rs, #[trigger] (a.cell)(x, y).unwrap())
}

/// The same, during a sweep, moved flags included.
pub open spec fn sweep_alike(a: SweepModel, b: SweepModel, w: int, h: int, els: Seq<Option<ElementView>>, rs: Seq<ReactionView>) -> bool {
    &&& forall|x: i32, y: i32|
        in_grid(w, h, x as int, y as int) ==> #[trigger] (a.cell)(x, y) == (b.cell)(x, y) && (a.heat)(x, y) == (b.heat)(x, y)
            && (a.moved)(x, y) == (b.moved)(x, y) && (a.cell)(x, y) is Some
    &&& forall|x: i32, y: i32| !in_grid(w, h, x as int, y as int) ==> #[trigger] (a.cell)(x, y) is None && (b.cell)(x, y) == Some(EMPTY)
    &&& forall|x: i32, y: i32| on_rim(w, h, x as int, y as int) ==> inert_wall(els, rs, #[trigger] (a.cell)(x, y).unwrap())
}

/// A move from inside the rim goes to the same place, or nowhere, in both.
proof fn lemma_move_alike(
    a: SweepModel,
    b: SweepModel,
    w: int,
    h: int,
    els: Seq<Option<ElementView>>,
    rs: Seq<ReactionView>,
    mover: ElementView,
    x: i32,
    y: i32,
    tx: int,
    ty: int,
    buoyant: bool,
)
    requires
        sweep_alike(a, b, w, h, els, rs),
        in_grid(w, h, x as int, y as int),
        !on_rim(w, h, x as int, y as int),
        step::near(x as int, y as int, tx, ty),
        w <= i32::MAX,
        h <= i32::MAX,
    ensures
        step::move_spec(a, els, mover, x, y, tx, ty, buoyant).0 == step::move_spec(b, els, mover, x, y, tx, ty, buoyant).0,
        sweep_alike(step::move_spec(a, els, mover, x, y, tx, ty, buoyant).1, step::move_spec(b, els, mover, x, y, tx, ty, buoyant).1, w, h, els, rs),
{
    let (t0, t1) = (tx as i32, ty as i32);
    assert(in_grid(w, h, tx, ty));
    assert(t0 as int == tx && t1 as int == ty);
    assert((a.cell)(t0, t1) == (b.cell)(t0, t1));
    assert((a.cell)(x, y) == (b.cell)(x, y));
    assert((a.moved)(t0, t1) == (b.moved)(t0, t1));
    assert(step::element_in(a, els, t0, t1) == step::element_in(b, els, t0, t1));
    if step::move_spec(a, els, mover, x, y, tx, ty, buoyant).0 {
        if on_rim(w, h, tx, ty) {
            assert(inert_wall(els, rs, (a.cell)(t0, t1).unwrap()));
        }
        let ra = step::moved_swap(a, x, y, t0, t1);
        let rb = step::moved_swap(b, x, y, t0, t1);
        assert forall|i: i32, j: i32| on_rim(w, h, i as int, j as int) implies inert_wall(els, rs, #[trigger] (ra.cell)(i, j).unwrap()) by {
            assert(!(i == x && j == y));
            assert(!(i == t0 && j == t1));
        }
    }
}

proof fn lemma_first_move_alike(
    a: SweepModel,
    b: SweepModel,
    w: int,
    h: int,
    els: Seq<Option<ElementView>>,
    rs: Seq<ReactionView>,
    mover: ElementView,
    x: i32,
    y: i32,
    targets: Seq<(int, int)>,
    buoyant: bool,
)
    requires
        sweep_alike(a, b, w, h, els, rs),
        in_grid(w, h, x as int, y as int),
        !on_rim(w, h, x as int, y as int),
        forall|k: int| 0 <= k < targets.len() ==> step::near(x as int, y as int, #[trigger] targets[k].0, targets[k].1),
        w <= i32::MAX,
        h <= i32::MAX,
    ensures
        sweep_alike(step::first_move(a, els, mover, x, y, targets, buoyant), step::first_move(b, els, mover, x, y, targets, buoyant), w, h, els, rs),
    decreases targets.len(),
{
    if targets.len() > 0 {
        assert(step::near(x as int, y as int, targets[0].0, targets[0].1));
        lemma_move_alike(a, b, w, h, els, rs, mover, x, y, targets[0].0, targets[0].1, buoyant);
        let rest = targets.drop_first();
        assert forall|k: int| 0 <= k < rest.len() implies step::near(x as int, y as int, #[trigger] rest[k].0, rest[k].1) by {
            assert(rest[k] == targets[k + 1]);
        }
        lemma_first_move_alike(a, b, w, h, els, rs, mover, x, y, rest, buoyant);
    }
}

/// A visit keeps the two sweeps alike.
proof fn lemma_visit_alike(a: SweepModel, b: SweepModel, w: int, h: int, els: Seq<Option<ElementView>>,
    rs: Seq<ReactionView>, seed: u64, tick: u64, p: (int, int))
    requires
        sweep_alike(a, b, w, h, els, rs),
        w <= i32::MAX,
        h <= i32::MAX,
    ensures
        sweep_alike(step::sweep_visit(els, seed, tick)(a, p), step::sweep_visit(els, seed, tick)(b, p), w, h, els, rs),
{
    if heat::in_plane(p) {
        let (x, y) = (p.0 as i32, p.1 as i32);
        if in_grid(w, h, x as int, y as int) {
            assert((a.cell)(x, y) == (b.cell)(x, y));
            assert((a.moved)(x, y) == (b.moved)(x, y));
            assert(step::element_in(a, els, x, y) == step::element_in(b, els, x, y));
            if !((a.moved)(x, y) || (a.cell)(x, y) is None || (a.cell)(x, y) == Some(EMPTY)) {
                match step::element_in(a, els, x, y) {
                    None => {},
                    Some(e) => {
                        if on_rim(w, h, x as int, y as int) {
                            assert(inert_wall(els, rs, (a.cell)(x, y).unwrap()));
                            assert(step::targets_of(e.state, seed, tick, x, y).len() == 0);
                        } else {
                            step::lemma_targets_near(e.state, seed, tick, x, y);
                            lemma_first_move_alike(a, b, w, h, els, rs, e, x, y, step::targets_of(e.state, seed, tick, x, y), e.state == State::Gas);
                        }
                    },
                }
            }
        } else {
            assert((a.cell)(x, y) is None);
            assert((b.cell)(x, y) == Some(EMPTY));
        }
    }
}


/// Two sweeps that start alike stay alike.
proof fn lemma_sweep_alike(a: SweepModel, b: SweepModel, w: int, h: int, els: Seq<Option<ElementView>>,
    rs: Seq<ReactionView>, seed: u64, tick: u64, ps: Seq<(int, int)>)
    requires
        sweep_alike(a, b, w, h, els, rs),
        w <= i32::MAX,
        h <= i32::MAX,
    ensures
        sweep_alike(
            visits::fold_visits(a, step::sweep_visit(els, seed, tick), ps),
            visits::fold_visits(b, step::sweep_visit(els, seed, tick), ps),
            w,
            h,
            els,
            rs,
        ),
{
    let related = |m: SweepModel, n: SweepModel| sweep_alike(m, n, w, h, els, rs);
    let v = step::sweep_visit(els, seed, tick);
    assert forall|m: SweepModel, n: SweepModel, p: (int, int)| related(m, n) implies #[trigger] related(v(m, p), v(n, p)) by {
        lemma_visit_alike(m, n, w, h, els, rs, seed, tick, p);
    }
    visits::lemma_fold_simulates(a, b, v, related, ps);
}

/// An exchange between a cell of the grid and any other cell does the same in both.
proof fn lemma_exchange_alike(a: HeatModel, b: HeatModel, w: int, h: int, els: Seq<Option<ElementView>>,
    rs: Seq<ReactionView>, ax: i32, ay: i32, bx: i32, by: i32)
    requires
        walled_alike(a, b, w, h, els, rs),
        in_grid(w, h, ax as int, ay as int),
    ensures
        walled_alike(heat::exchange_spec(a, els, ax, ay, bx, by), heat::exchange_spec(b, els, ax, ay, bx, by), w, h, els, rs),
        heat::exchange_spec(a, els, ax, ay, bx, by).cell == a.cell,
        heat::exchange_spec(b, els, ax, ay, bx, by).cell == b.cell,
{
    assert((a.cell)(ax, ay) == (b.cell)(ax, ay) && (a.heat)(ax, ay) == (b.heat)(ax, ay));
    if in_grid(w, h, bx as int, by as int) {
        assert((a.cell)(bx, by) == (b.cell)(bx, by) && (a.heat)(bx, by) == (b.heat)(bx, by));
    } else {
        assert((a.cell)(bx, by) is None);
        assert((b.cell)(bx, by) == Some(EMPTY));
    }
    let ra = heat::exchange_spec(a, els, ax, ay, bx, by);
    let rb = heat::exchange_spec(b, els, ax, ay, bx, by);
    assert forall|i: i32, j: i32| on_rim(w, h, i as int, j as int) implies inert_wall(els, rs, #[trigger] (ra.cell)(i, j).unwrap()) by {
        assert((ra.cell)(i, j) == (a.cell)(i, j));
    }
}

/// A visit of the heat pass keeps the two alike.
proof fn lemma_heat_visit_alike(a: HeatModel, b: HeatModel, w: int, h: int, els: Seq<Option<ElementView>>,
    rs: Seq<ReactionView>, p: (int, int))
    requires
        walled_alike(a, b, w, h, els, rs),
    ensures
        walled_alike(heat::heat_visit(els)(a, p), heat::heat_visit(els)(b, p), w, h, els, rs),
{
    if heat::in_plane(p) {
        let (x, y) = (p.0 as i32, p.1 as i32);
        if in_grid(w, h, x as int, y as int) {
            assert((a.cell)(x, y) == (b.cell)(x, y) && (a.heat)(x, y) == (b.heat)(x, y));
            if heat::holds_matter(a, x, y) {
                let right_a = x < i32::MAX && heat::holds_matter(a, (x + 1) as i32, y);
                let right_b = x < i32::MAX && heat::holds_matter(b, (x + 1) as i32, y);
                if x < i32::MAX {
                    if in_grid(w, h, x + 1, y as int) {
                        assert((a.cell)((x + 1) as i32, y) == (b.cell)((x + 1) as i32, y));
                    } else {
                        assert((a.cell)((x + 1) as i32, y) is None);
                        assert((b.cell)((x + 1) as i32, y) == Some(EMPTY));
                    }
                }
                assert(right_a == right_b);
                let m1a = if right_a { heat::exchange_spec(a, els, x, y, (x + 1) as i32, y) } else { a };
                let m1b = if right_b { heat::exchange_spec(b, els, x, y, (x + 1) as i32, y) } else { b };
                if right_a {
                    lemma_exchange_alike(a, b, w, h, els, rs, x, y, (x + 1) as i32, y);
                }
                let down_a = y < i32::MAX && heat::holds_matter(m1a, x, (y + 1) as i32);
                let down_b = y < i32::MAX && heat::holds_matter(m1b, x, (y + 1) as i32);
                if y < i32::MAX {
                    if in_grid(w, h, x as int, y + 1) {
                        assert((m1a.cell)(x, (y + 1) as i32) == (m1b.cell)(x, (y + 1) as i32));
                    } else {
                        assert((m1a.cell)(x, (y + 1) as i32) is None);
                        assert((m1b.cell)(x, (y + 1) as i32) == Some(EMPTY));
                    }
                }
                assert(down_a == down_b);
                let m2a = if down_a { heat::exchange_spec(m1a, els, x, y, x, (y + 1) as i32) } else { m1a };
                let m2b = if down_b { heat::exchange_spec(m1b, els, x, y, x, (y + 1) as i32) } else { m1b };
                if down_a {
                    lemma_exchange_alike(m1a, m1b, w, h, els, rs, x, y, x, (y + 1) as i32);
                }
                assert(walled_alike(m2a, m2b, w, h, els, rs));
                assert((m2a.cell)(x, y) == (m2b.cell)(x, y) && (m2a.heat)(x, y) == (m2b.heat)(x, y));
                assert(heat::defined_at(m2a, els, x, y) == heat::defined_at(m2b, els, x, y));
                let ta = heat::transition_spec(m2a, els, x, y);
                let tb = heat::transition_spec(m2b, els, x, y);
                if on_rim(w, h, x as int, y as int) {
                    assert(inert_wall(els, rs, (m2a.cell)(x, y).unwrap()));
                    assert(ta == m2a);
                    assert(tb == m2b);
                } else {
                    assert forall|i: i32, j: i32| on_rim(w, h, i as int, j as int) implies inert_wall(els, rs, #[trigger] (ta.cell)(i, j).unwrap()) by {
                        assert(!(i == x && j == y));
                        assert((ta.cell)(i, j) == (m2a.cell)(i, j));
                    }
                }
            }
        } else {
            assert((a.cell)(x, y) is None);
            assert((b.cell)(x, y) == Some(EMPTY));
        }
    }
}

/// Two heat passes that start alike stay alike.
proof fn lemma_heat_alike(a: HeatModel, b: HeatModel, w: int, h: int, els: Seq<Option<ElementView>>,
    rs: Seq<ReactionView>, ps: Seq<(int, int)>)
    requires
        walled_alike(a, b, w, h, els, rs),
    ensures
        walled_alike(visits::fold_visits(a, heat::heat_visit(els), ps), visits::fold_visits(b, heat::heat_visit(els), ps), w, h, els, rs),
{
    let related = |m: HeatModel, n: HeatModel| walled_alike(m, n, w, h, els, rs);
    let v = heat::heat_visit(els);
    assert forall|m: HeatModel, n: HeatModel, p: (int, int)| related(m, n) implies #[trigger] related(v(m, p), v(n, p)) by {
        lemma_heat_visit_alike(m, n, w, h, els, rs, p);
    }
    visits::lemma_fold_simulates(a, b, v, related, ps);
}

/// Nothing reacts with an element that takes part in no reaction.
proof fn lemma_no_partner(rs: Seq<ReactionView>, id: ElementId, other: ElementId, i: int)
    requires
        forall|k: int| 0 <= k < rs.len() ==> (#[trigger] rs[k]).reactants.0 != id && rs[k].reactants.1 != id,
    ensures
        crate::reactions::between_spec(rs, id, other, i) is None,
        crate::reactions::between_spec(rs, other, id, i) is None,
    decreases rs.len() - i,
{
    if 0 <= i < rs.len() {
        assert(rs[i].reactants.0 != id && rs[i].reactants.1 != id);
        lemma_no_partner(rs, id, other, i + 1);
    }
}

/// A touching pair reacts the same way in both, and never at the rim.
proof fn lemma_react_pair_alike(
    a: HeatModel,
    b: HeatModel,
    w: int,
    h: int,
    els: Seq<Option<ElementView>>,
    rs: Seq<ReactionView>,
    ax: i32,
    ay: i32,
    bx: i32,
    by: i32,
    seed: u64,
    tick: u64,
    salt: u32,
)
    requires
        walled_alike(a, b, w, h, els, rs),
        in_grid(w, h, ax as int, ay as int),
    ensures
        walled_alike(
            step::react_pair_spec(a, rs, ax, ay, bx, by, seed, tick, salt),
            step::react_pair_spec(b, rs, ax, ay, bx, by, seed, tick, salt),
            w,
            h,
            els,
            rs,
        ),
{
    assert((a.cell)(ax, ay) == (b.cell)(ax, ay) && (a.heat)(ax, ay) == (b.heat)(ax, ay));
    if in_grid(w, h, bx as int, by as int) {
        assert((a.cell)(bx, by) == (b.cell)(bx, by) && (a.heat)(bx, by) == (b.heat)(bx, by));
        let ra = step::react_pair_spec(a, rs, ax, ay, bx, by, seed, tick, salt);
        let rb = step::react_pair_spec(b, rs, ax, ay, bx, by, seed, tick, salt);
        if ra != a {
            let (ca, cb) = ((a.cell)(ax, ay).unwrap(), (a.cell)(bx, by).unwrap());
            if on_rim(w, h, ax as int, ay as int) {
                assert(inert_wall(els, rs, ca));
                lemma_no_partner(rs, ca, cb, 0);
            }
            if on_rim(w, h, bx as int, by as int) {
                assert(inert_wall(els, rs, cb));
                lemma_no_partner(rs, cb, ca, 0);
            }
            assert forall|i: i32, j: i32| on_rim(w, h, i as int, j as int) implies inert_wall(els, rs, #[trigger] (ra.cell)(i, j).unwrap()) by {
                assert(!(i == ax && j == ay));
                assert(!(i == bx && j == by));
            }
        }
    } else {
        assert((a.cell)(bx, by) is None);
        assert((b.cell)(bx, by) == Some(EMPTY));
    }
}

/// A position of the reaction pass does the same in both.
proof fn lemma_react_visit_alike(a: HeatModel, b: HeatModel, w: int, h: int, els: Seq<Option<ElementView>>, rs: Seq<ReactionView>, seed: u64, tick: u64, p: (int, int))
    requires
        walled_alike(a, b, w, h, els, rs),
    ensures
        walled_alike(step::react_visit(rs, seed, tick)(a, p), step::react_visit(rs, seed, tick)(b, p), w, h, els, rs),
{
    if heat::in_plane(p) {
        let (x, y) = (p.0 as i32, p.1 as i32);
        if in_grid(w, h, x as int, y as int) {
            let m1a = if x < i32::MAX { step::react_pair_spec(a, rs, x, y, (x + 1) as i32, y, seed, tick, step::SALT_REACT_RIGHT) } else { a };
            let m1b = if x < i32::MAX { step::react_pair_spec(b, rs, x, y, (x + 1) as i32, y, seed, tick, step::SALT_REACT_RIGHT) } else { b };
            if x < i32::MAX {
                lemma_react_pair_alike(a, b, w, h, els, rs, x, y, (x + 1) as i32, y, seed, tick, step::SALT_REACT_RIGHT);
            }
            if y < i32::MAX {
                lemma_react_pair_alike(m1a, m1b, w, h, els, rs, x, y, x, (y + 1) as i32, seed, tick, step::SALT_REACT_DOWN);
            }
        } else {
            assert((a.cell)(x, y) is None);
            assert((b.cell)(x, y) == Some(EMPTY));
        }
    }
}

/// Two reaction passes that start alike stay alike.
proof fn lemma_react_alike(a: HeatModel, b: HeatModel, w: int, h: int, els: Seq<Option<ElementView>>, rs: Seq<ReactionView>, seed: u64, tick: u64, ps: Seq<(int, int)>)
    requires
        walled_alike(a, b, w, h, els, rs),
    ensures
        walled_alike(
            visits::fold_visits(a, step::react_visit(rs, seed, tick), ps),
            visits::fold_visits(b, step::react_visit(rs, seed, tick), ps),
            w,
            h,
            els,
            rs,
        ),
{
    let related = |m: HeatModel, n: HeatModel| walled_alike(m, n, w, h, els, rs);
    let v = step::react_visit(rs, seed, tick);
    assert forall|m: HeatModel, n: HeatModel, p: (int, int)| related(m, n) implies #[trigger] related(v(m, p), v(n, p)) by {
        lemma_react_visit_alike(m, n, w, h, els, rs, seed, tick, p);
    }
    visits::lemma_fold_simulates(a, b, v, related, ps);
}

/// The movement and reaction passes over the grid keep a walled-in pair alike.
proof fn lemma_sweep_walled(
    a: HeatModel,
    b: HeatModel,
    w: int,
    h: int,
    els: Seq<Option<ElementView>>,
    rs: Seq<crate::reactions::ReactionView>,
    seed: u64,
    tick: u64,
)
    requires
        walled_alike(a, b, w, h, els, rs),
        1 <= w <= i32::MAX,
        1 <= h <= i32::MAX,
    ensures
        walled_alike(
            step::step_model_spec(a, Some(grid_region(w, h)), step::full_rows(Some(grid_region(w, h))), els, rs, seed, tick),
            step::step_model_spec(b, Some(grid_region(w, h)), step::full_rows(Some(grid_region(w, h))), els, rs, seed, tick),
            w,
            h,
            els,
            rs,
        ),
{
    let gb = grid_region(w, h);
    let fa = step::fresh_sweep(a);
    let fb = step::fresh_sweep(b);
    assert(sweep_alike(fa, fb, w, h, els, rs));
    let dir = step::row_direction(seed, tick);
    step::lemma_sweep_rows_fold(fa, els, seed, tick, gb, gb.max_y as int);
    step::lemma_sweep_rows_fold(fb, els, seed, tick, gb, gb.max_y as int);
    let ps = step::rows_up(gb, gb.max_y as int, dir);
    lemma_sweep_alike(fa, fb, w, h, els, rs, seed, tick, ps);
    if rs.len() > 0 {
        let sa = step::heat_part(visits::fold_visits(fa, step::sweep_visit(els, seed, tick), ps));
        let sb = step::heat_part(visits::fold_visits(fb, step::sweep_visit(els, seed, tick), ps));
        let grown = crate::field::grown(Some(gb)).unwrap();
        step::lemma_react_rows_fold(sa, rs, grown, grown.min_y as int, seed, tick);
        step::lemma_react_rows_fold(sb, rs, grown, grown.min_y as int, seed, tick);
        lemma_react_alike(sa, sb, w, h, els, rs, seed, tick, visits::rows_down(grown, grown.min_y as int));
    }
}

/// The heat pass over the grid keeps a walled-in pair alike.
proof fn lemma_heat_walled(a: HeatModel, b: HeatModel, w: int, h: int, els: Seq<Option<ElementView>>, rs: Seq<ReactionView>)
    requires
        walled_alike(a, b, w, h, els, rs),
        1 <= w <= i32::MAX,
        1 <= h <= i32::MAX,
    ensures
        walled_alike(heat::heat_step_spec(a, els, Some(grid_region(w, h))), heat::heat_step_spec(b, els, Some(grid_region(w, h))), w, h, els, rs),
{
    let gb = grid_region(w, h);
    heat::lemma_rows_fold(a, els, gb, gb.min_y as int);
    heat::lemma_rows_fold(b, els, gb, gb.min_y as int);
    lemma_heat_alike(a, b, w, h, els, rs, visits::rows_down(gb, gb.min_y as int));
}

/// The storage of `b` holds all of its matter inside the grid.
proof fn lemma_inside(a: HeatModel, b: HeatModel, w: int, h: int, els: Seq<Option<ElementView>>, rs: Seq<ReactionView>)
    requires
        walled_alike(a, b, w, h, els, rs),
        1 <= w <= i32::MAX,
        1 <= h <= i32::MAX,
    ensures
        crate::world::holds_all(b, Some(grid_region(w, h))),
        crate::world::holds_all(b, crate::world::matter_region(b)),
        crate::world::holds_all(a, Some(grid_region(w, h))),
{
    assert forall|x: i32, y: i32| #[trigger] heat::holds_matter(b, x, y) implies crate::field::region_holds(Some(grid_region(w, h)), x as int, y as int) by {
        if !in_grid(w, h, x as int, y as int) {
            assert((a.cell)(x, y) is None);
            assert((b.cell)(x, y) == Some(EMPTY));
        }
    }
    assert forall|x: i32, y: i32| #[trigger] heat::holds_matter(a, x, y) implies crate::field::region_holds(Some(grid_region(w, h)), x as int, y as int) by {
        if !in_grid(w, h, x as int, y as int) {
            assert((a.cell)(x, y) is None);
        }
    }
    assert(crate::world::holds_all(b, Some(grid_region(w, h))));
    assert(exists|r: Option<Bounds>| crate::world::holds_all(b, r));
}

/// A tick with no machines leaves cells and temperatures to the physics.
proof fn lemma_no_machines(m: HeatModel, entities: Seq<crate::entities::Entity>, types: Seq<Option<crate::entities::EntityTypeView>>, els: Seq<Option<ElementView>>, seed: u64, now: u64)
    requires
        entities.len() == 0,
    ensures
        crate::entities::tick_spec(m, entities, types, els, seed, now) == (crate::entities::TickState { model: m, entities, minted: 0 }),
{
    broadcast use vstd::seq_lib::group_to_multiset_ensures;

    let pairs = crate::entities::belt_pairs(entities, types, now, 0);
    assert(pairs.len() == 0);
    let empty = Seq::<(i64, usize)>::empty();
    assert(empty.to_multiset() =~= pairs.to_multiset());
    assert(crate::entities::lex_sorted(empty));
    let order = crate::entities::belt_order(pairs);
    assert(order.to_multiset() == pairs.to_multiset() && crate::entities::lex_sorted(order));
    assert(order.to_multiset().len() == order.len());
    assert(pairs.to_multiset().len() == pairs.len());
    assert(order.len() == 0);
}

/// A sweep reads only the spans of the rows it sweeps.
proof fn lemma_spans_rows(
    m: SweepModel,
    els: Seq<Option<ElementView>>,
    seed: u64,
    tick: u64,
    s1: spec_fn(i32) -> Seq<(i32, i32)>,
    s2: spec_fn(i32) -> Seq<(i32, i32)>,
    b: Bounds,
    y: int,
)
    requires
        y <= b.max_y,
        forall|r: i32| b.min_y <= r <= y ==> #[trigger] s1(r) == s2(r),
    ensures
        step::sweep_rows(m, els, seed, tick, s1, b, y) == step::sweep_rows(m, els, seed, tick, s2, b, y),
    decreases y - b.min_y + 1,
{
    if y >= b.min_y {
        assert(s1(y as i32) == s2(y as i32));
        let ltr = crate::rng::noise_salted_spec(seed, tick, 0, y as i32, step::SALT_ROW_DIRECTION) >= 0x8000_0000;
        lemma_spans_rows(step::sweep_spans(m, els, seed, tick, y as i32, s1(y as i32), ltr, 0), els, seed, tick, s1, s2, b, y - 1);
    }
}

/// A chunked world and the flat world it is measured against, walled in alike, are
/// still alike after one tick without machines: the same cells and temperatures inside
/// the grid, empty space beyond it, and a rim that is still inert wall.
pub proof fn lemma_step_walled(
    flat: crate::world::WorldState,
    chunked: crate::world::WorldState,
    w: int,
    h: int,
    spans: spec_fn(i32) -> Seq<(i32, i32)>,
    rules: crate::rules::Rules,
    seed: u64,
    tick: u64,
)
    requires
        walled_alike(flat.model, chunked.model, w, h, rules.elements@, rules.reactions@),
        1 <= w <= i32::MAX,
        1 <= h <= i32::MAX,
        forall|r: i32| 0 <= r < h ==> #[trigger] spans(r) == seq![(0i32, (w - 1) as i32)],
        flat.entities.len() == 0,
        chunked.entities.len() == 0,
        flat.collected == chunked.collected,
    ensures
        ({
            let f = crate::world::flat_step_spec(flat, Some(grid_region(w, h)), spans, rules, seed, tick);
            let c = crate::world::world_step_spec(chunked, rules, seed, tick);
            &&& walled_alike(f.model, c.model, w, h, rules.elements@, rules.reactions@)
            &&& f.entities.len() == 0
            &&& c.entities.len() == 0
            &&& f.collected == c.collected
        }),
{
    let els = rules.elements@;
    let rs = rules.reactions@;
    let g = Some(grid_region(w, h));
    lemma_no_machines(flat.model, flat.entities, rules.entities@, els, seed, tick);
    lemma_no_machines(chunked.model, chunked.entities, rules.entities@, els, seed, tick);
    // The flat grid's spans are its whole rows.
    assert forall|r: i32| 0 <= r <= h - 1 implies #[trigger] spans(r) == step::full_rows(g)(r) by {}
    lemma_spans_rows(step::fresh_sweep(flat.model), els, seed, tick, spans, step::full_rows(g), grid_region(w, h), h - 1);
    assert(step::step_model_spec(flat.model, g, spans, els, rs, seed, tick) == step::step_model_spec(flat.model, g, step::full_rows(g), els, rs, seed, tick));
    // The chunked world sweeps wherever its matter is, which is inside the grid.
    lemma_inside(flat.model, chunked.model, w, h, els, rs);
    let region = crate::world::matter_region(chunked.model);
    step::lemma_tick_extent(chunked.model, region, g, els, rs, seed, tick);
    lemma_sweep_walled(flat.model, chunked.model, w, h, els, rs, seed, tick);
    let mf = step::step_model_spec(flat.model, g, step::full_rows(g), els, rs, seed, tick);
    let mc = step::step_model_spec(chunked.model, g, step::full_rows(g), els, rs, seed, tick);
    lemma_inside(mf, mc, w, h, els, rs);
    heat::lemma_heat_extent(mc, els, crate::world::matter_region(mc), g);
    lemma_heat_walled(mf, mc, w, h, els, rs);
}

/// The same over any number of ticks: a walled-in chunked world without machines
/// evolves exactly as the flat world it is measured against.
pub proof fn lemma_runs_walled(
    flat: crate::world::WorldState,
    chunked: crate::world::WorldState,
    w: int,
    h: int,
    spans: spec_fn(i32) -> Seq<(i32, i32)>,
    rules: crate::rules::Rules,
    seed: u64,
    tick: int,
    ticks: nat,
)
    requires
        walled_alike(flat.model, chunked.model, w, h, rules.elements@, rules.reactions@),
        1 <= w <= i32::MAX,
        1 <= h <= i32::MAX,
        forall|r: i32| 0 <= r < h ==> #[trigger] spans(r) == seq![(0i32, (w - 1) as i32)],
        flat.entities.len() == 0,
        chunked.entities.len() == 0,
        flat.collected == chunked.collected,
    ensures
        ({
            let f = crate::world::flat_run(flat, Some(grid_region(w, h)), spans, rules, seed, tick, ticks);
            let c = crate::world::world_run(chunked, rules, seed, tick, ticks);
            &&& walled_alike(f.model, c.model, w, h, rules.elements@, rules.reactions@)
            &&& f.entities.len() == 0
            &&& c.entities.len() == 0
            &&& f.collected == c.collected
        }),
    decreases ticks,
{
    if ticks > 0 {
        lemma_runs_walled(flat, chunked, w, h, spans, rules, seed, tick, (ticks - 1) as nat);
        let f = crate::world::flat_run(flat, Some(grid_region(w, h)), spans, rules, seed, tick, (ticks - 1) as nat);
        let c = crate::world::world_run(chunked, rules, seed, tick, (ticks - 1) as nat);
        lemma_step_walled(f, c, w, h, spans, rules, seed, (tick + ticks - 1) as u64);
    }
}

/// A flat world and a chunked world walled in alike, without machines, stay alike
/// tick after tick: after the same number of ticks each holds
/// what the other does inside the grid, the chunked one holds nothing beyond it, and
/// neither has minted anything the other has not.
pub proof fn lemma_worlds_stay_alike(flat: crate::world::FlatWorld, chunked: crate::world::World, ticks: nat)
    requires
        flat.wf(),
        chunked.wf(),
        flat.spec_rules() == chunked.spec_rules(),
        flat.spec_seed() == chunked.spec_seed(),
        flat.spec_tick() == chunked.spec_tick(),
        flat.spec_entities().len() == 0,
        chunked.spec_entities().len() == 0,
        flat.spec_collected() == chunked.spec_collected(),
        1 <= flat.spec_field().spec_width() <= i32::MAX,
        1 <= flat.spec_field().spec_height() <= i32::MAX,
        walled_alike(
            heat::model_of(flat.spec_field()),
            heat::model_of(chunked.spec_field()),
            flat.spec_field().spec_width() as int,
            flat.spec_field().spec_height() as int,
            flat.spec_rules().elements@,
            flat.spec_rules().reactions@,
        ),
    ensures
        ({
            let field = flat.spec_field();
            let f = crate::world::flat_run(
                flat.state(),
                field.region(),
                |r: i32| field.spans(r),
                flat.spec_rules(),
                flat.spec_seed(),
                flat.spec_tick() as int,
                ticks,
            );
            let c = crate::world::world_run(chunked.state(), chunked.spec_rules(), chunked.spec_seed(), chunked.spec_tick() as int, ticks);
            &&& walled_alike(f.model, c.model, field.spec_width() as int, field.spec_height() as int, flat.spec_rules().elements@, flat.spec_rules().reactions@)
            &&& f.entities.len() == 0
            &&& c.entities.len() == 0
            &&& f.collected == c.collected
        }),
{
    let field = flat.spec_field();
    let (w, h) = (field.spec_width() as int, field.spec_height() as int);
    assert(field.region() == Some(grid_region(w, h)));
    let spans = |r: i32| field.spans(r);
    assert forall|r: i32| 0 <= r < h implies #[trigger] spans(r) == seq![(0i32, (w - 1) as i32)] by {}
    lemma_runs_walled(flat.state(), chunked.state(), w, h, spans, flat.spec_rules(), flat.spec_seed(), flat.spec_tick() as int, ticks);
}

/// Two worlds walled in alike have the same content hash, and at the same tick and
/// seed the same fingerprint: matter is all that either hashes.
pub proof fn lemma_alike_worlds_hash_alike(flat: crate::world::FlatWorld, chunked: crate::world::World)
    requires
        flat.wf(),
        chunked.wf(),
        walled_alike(
            heat::model_of(flat.spec_field()),
            heat::model_of(chunked.spec_field()),
            flat.spec_field().spec_width() as int,
            flat.spec_field().spec_height() as int,
            flat.spec_rules().elements@,
            flat.spec_rules().reactions@,
        ),
    ensures
        fnv_bytes(OFFSET_BASIS, canonical_records(chunked.spec_field())) == fnv_bytes(OFFSET_BASIS, canonical_records(flat.spec_field())),
        chunked.spec_tick() == flat.spec_tick() && chunked.spec_seed() == flat.spec_seed() ==> fnv_bytes(
            OFFSET_BASIS,
            le_bytes_u64(chunked.spec_tick()) + le_bytes_u64(chunked.spec_seed()) + canonical_records(chunked.spec_field()),
        ) == fnv_bytes(
            OFFSET_BASIS,
            le_bytes_u64(flat.spec_tick()) + le_bytes_u64(flat.spec_seed()) + canonical_records(flat.spec_field()),
        ),
{
    let (f, c) = (flat.spec_field(), chunked.spec_field());
    let (w, h) = (f.spec_width() as int, f.spec_height() as int);
    assert forall|x: i32, y: i32|
        #![trigger c.cell(x, y)]
        #![trigger f.cell(x, y)]
        crate::field::occupied(c, x, y) == crate::field::occupied(f, x, y) && (crate::field::occupied(c, x, y) ==> c.cell(x, y) == f.cell(x, y)
            && c.heat_at(x, y) == f.heat_at(x, y)) by {
        assert((heat::model_of(f).cell)(x, y) == f.cell(x, y));
        assert((heat::model_of(c).cell)(x, y) == c.cell(x, y));
        assert((heat::model_of(f).heat)(x, y) == f.heat_at(x, y));
        assert((heat::model_of(c).heat)(x, y) == c.heat_at(x, y));
        if !in_grid(w, h, x as int, y as int) {
            assert((heat::model_of(f).cell)(x, y) is None);
        }
    }
    crate::world::lemma_worlds_hash_alike(chunked, flat);
}

} // verus!
