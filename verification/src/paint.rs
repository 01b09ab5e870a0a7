//! Drawing, as the player does it.
//!
//! Everything the player builds sits on the tile grid. A stroke is a line over tiles,
//! and every tile it touches is filled completely: a tile is either entirely one
//! element or entirely not, and a diagonal wall comes out as a staircase of whole
//! tiles.

use vstd::prelude::*;
use crate::elements::ElementId;
use crate::field::CellField;

verus! {

/// Whether tile `(tile_x, tile_y)` lies where its cells can be addressed.
pub open spec fn tile_in_plane(tile_x: int, tile_y: int) -> bool {
    i32::MIN <= tile_x * 9 && tile_x * 9 + 8 <= i32::MAX && i32::MIN <= tile_y * 9 && tile_y * 9 + 8 <= i32::MAX
}

/// Whether cell `(x, y)` lies in tile `(tile_x, tile_y)`.
pub open spec fn in_tile(tile_x: int, tile_y: int, x: int, y: int) -> bool {
    tile_x * 9 <= x < tile_x * 9 + 9 && tile_y * 9 <= y < tile_y * 9 + 9
}

/// Whether cell `(x, y)` lies in a tile of the rectangle spanned by two tiles.
pub open spec fn in_tile_span(a: (i32, i32), b: (i32, i32), x: int, y: int) -> bool {
    let (lo_x, hi_x) = if a.0 <= b.0 { (a.0 as int, b.0 as int) } else { (b.0 as int, a.0 as int) };
    let (lo_y, hi_y) = if a.1 <= b.1 { (a.1 as int, b.1 as int) } else { (b.1 as int, a.1 as int) };
    lo_x * 9 <= x < hi_x * 9 + 9 && lo_y * 9 <= y < hi_y * 9 + 9
}

/// The tiles a line visits from tile `(x, y)` on, where `error` is the line's running
/// error term and `fuel` bounds the number of steps left.
pub open spec fn line_tiles(x: int, y: int, error: int, to: (int, int), step: (int, int), run: int, rise: int, fuel: nat) -> Set<
    (int, int),
>
    decreases fuel,
{
    if fuel == 0 || (x == to.0 && y == to.1) {
        set![(x, y)]
    } else {
        let doubled = 2 * error;
        let next_x = if doubled >= rise { x + step.0 } else { x };
        let error_x = if doubled >= rise { error + rise } else { error };
        let next_y = if doubled <= run { y + step.1 } else { y };
        let error_y = if doubled <= run { error_x + run } else { error_x };
        set![(x, y)].union(line_tiles(next_x, next_y, error_y, to, step, run, rise, (fuel - 1) as nat))
    }
}

/// The tiles a stroke from tile `from` to tile `to` fills: the integer line between
/// them, each step moving one tile across, one tile down, or one of each.
pub open spec fn stroke_tiles(from: (i32, i32), to: (i32, i32)) -> Set<(int, int)> {
    let step_x: int = if from.0 < to.0 { 1 } else { -1 };
    let step_y: int = if from.1 < to.1 { 1 } else { -1 };
    let run: int = if to.0 >= from.0 { to.0 - from.0 } else { from.0 - to.0 };
    let rise: int = if to.1 >= from.1 { from.1 - to.1 } else { to.1 - from.1 };
    line_tiles(from.0 as int, from.1 as int, run + rise, (to.0 as int, to.1 as int), (step_x, step_y), run, rise, (run - rise) as nat)
}

/// The tile that holds cell `(x, y)`.
pub open spec fn tile_of(x: int, y: int) -> (int, int) {
    (x / 9, y / 9)
}

/// A cell lies in a tile exactly when that tile is the one that holds it.
pub proof fn lemma_tile_of(tile_x: int, tile_y: int, x: int, y: int)
    ensures
        in_tile(tile_x, tile_y, x, y) <==> tile_of(x, y) == (tile_x, tile_y),
{
    assert((tile_x * 9 <= x < tile_x * 9 + 9) <==> x / 9 == tile_x) by (nonlinear_arith);
    assert((tile_y * 9 <= y < tile_y * 9 + 9) <==> y / 9 == tile_y) by (nonlinear_arith);
}

/// Paints a line of whole tiles, inclusive of both ends. Erasing is the same call with
/// `EMPTY`: half-erasing a wall would reintroduce exactly the off-grid state this
/// exists to prevent.
pub fn stroke<F: CellField>(field: &mut F, from: (i32, i32), to: (i32, i32), id: ElementId)
    requires
        old(field).field_inv(),
        tile_in_plane(from.0 as int, from.1 as int),
        tile_in_plane(to.0 as int, to.1 as int),
    ensures
        final(field).field_inv(),
        forall|x: i32, y: i32|
            (in_tile(from.0 as int, from.1 as int, x as int, y as int) || in_tile(to.0 as int, to.1 as int, x as int, y as int))
                && old(field).cell(x, y) is Some ==> #[trigger] final(field).cell(x, y) == Some(id),
        forall|x: i32, y: i32|
            !in_tile_span(from, to, x as int, y as int) ==> #[trigger] final(field).cell(x, y) == old(field).cell(x, y),
        forall|x: i32, y: i32| #[trigger] final(field).cell(x, y) != old(field).cell(x, y) ==> final(field).cell(x, y) == Some(id),
        forall|x: i32, y: i32| #[trigger] final(field).cell(x, y) is Some == old(field).cell(x, y) is Some,
        forall|x: i32, y: i32| #[trigger] final(field).cell(x, y) == (if stroke_tiles(from, to).contains(tile_of(x as int, y as int))
            && old(field).cell(x, y) is Some {
            Some(id)
        } else {
            old(field).cell(x, y)
        }),
        forall|x: i32, y: i32| stroke_tiles(from, to).contains(tile_of(x as int, y as int)) ==> #[trigger] final(field).active_at(x, y),
        forall|x: i32, y: i32| #[trigger] old(field).active_at(x, y) ==> final(field).active_at(x, y),
{
    // Bresenham over tiles. Integer only.
    let (fx, fy) = (from.0 as i64, from.1 as i64);
    let (tx, ty) = (to.0 as i64, to.1 as i64);
    let step_x: i64 = if fx < tx { 1 } else { -1 };
    let step_y: i64 = if fy < ty { 1 } else { -1 };
    let run: i64 = if tx >= fx { tx - fx } else { fx - tx };
    let rise: i64 = if ty >= fy { fy - ty } else { ty - fy };
    let mut error: i64 = run + rise;
    let mut x: i64 = fx;
    let mut y: i64 = fy;
    let ghost mut started = false;
    let ghost mut done: Set<(int, int)> = Set::empty();
    let ghost mut fuel: int = run - rise;
    proof {
        assert(error == run * (1 + (y - fy) * step_y) + rise * (1 + (x - fx) * step_x)) by (nonlinear_arith)
            requires
                x == fx,
                y == fy,
                error == run + rise,
        ;
        assert(0 <= (x - fx) * step_x && 0 <= (y - fy) * step_y) by (nonlinear_arith)
            requires
                x == fx,
                y == fy,
        ;
    }
    loop
        invariant
            field.field_inv(),
            fx == from.0 && fy == from.1 && tx == to.0 && ty == to.1,
            step_x == (if fx < tx { 1int } else { -1int }),
            step_y == (if fy < ty { 1int } else { -1int }),
            run == (if tx >= fx { tx - fx } else { fx - tx }),
            rise == (if ty >= fy { fy - ty } else { ty - fy }),
            0 <= (x - fx) * step_x <= run,
            0 <= (y - fy) * step_y <= -rise,
            error == run * (1 + (y - fy) * step_y) + rise * (1 + (x - fx) * step_x),
            3 * rise <= 2 * error <= 3 * run,
            0 <= run <= 0x1_0000_0000,
            -0x1_0000_0000 <= rise <= 0,
            tile_in_plane(fx as int, fy as int),
            tile_in_plane(tx as int, ty as int),
            started ==> forall|i: i32, j: i32|
                in_tile(fx as int, fy as int, i as int, j as int) && old(field).cell(i, j) is Some ==> #[trigger] field.cell(i, j) == Some(id),
            !started ==> x == fx && y == fy,
            forall|i: i32, j: i32| !in_tile_span(from, to, i as int, j as int) ==> #[trigger] field.cell(i, j) == old(field).cell(i, j),
            forall|i: i32, j: i32| #[trigger] field.cell(i, j) != old(field).cell(i, j) ==> field.cell(i, j) == Some(id),
            forall|i: i32, j: i32| #[trigger] field.cell(i, j) is Some == old(field).cell(i, j) is Some,
            0 <= run - (x - fx) * step_x + (-rise - (y - fy) * step_y) <= fuel,
            stroke_tiles(from, to) == done.union(
                line_tiles(x as int, y as int, error as int, (tx as int, ty as int), (step_x as int, step_y as int), run as int, rise as int, fuel as nat),
            ),
            forall|i: i32, j: i32| #[trigger] field.cell(i, j) == (if done.contains(tile_of(i as int, j as int))
                && old(field).cell(i, j) is Some {
                Some(id)
            } else {
                old(field).cell(i, j)
            }),
            forall|i: i32, j: i32| done.contains(tile_of(i as int, j as int)) ==> #[trigger] field.active_at(i, j),
            forall|i: i32, j: i32| #[trigger] old(field).active_at(i, j) ==> field.active_at(i, j),
        ensures
            field.field_inv(),
            forall|i: i32, j: i32| stroke_tiles(from, to).contains(tile_of(i as int, j as int)) ==> #[trigger] field.active_at(i, j),
            forall|i: i32, j: i32| #[trigger] old(field).active_at(i, j) ==> field.active_at(i, j),
            forall|i: i32, j: i32| #[trigger] field.cell(i, j) == (if stroke_tiles(from, to).contains(tile_of(i as int, j as int))
                && old(field).cell(i, j) is Some {
                Some(id)
            } else {
                old(field).cell(i, j)
            }),
            forall|i: i32, j: i32|
                (in_tile(fx as int, fy as int, i as int, j as int) || in_tile(tx as int, ty as int, i as int, j as int))
                    && old(field).cell(i, j) is Some ==> #[trigger] field.cell(i, j) == Some(id),
            forall|i: i32, j: i32| !in_tile_span(from, to, i as int, j as int) ==> #[trigger] field.cell(i, j) == old(field).cell(i, j),
            forall|i: i32, j: i32| #[trigger] field.cell(i, j) != old(field).cell(i, j) ==> field.cell(i, j) == Some(id),
            forall|i: i32, j: i32| #[trigger] field.cell(i, j) is Some == old(field).cell(i, j) is Some,
        decreases run - (x - fx) * step_x + (-rise - (y - fy) * step_y),
    {
        proof {
            assert(fx <= x <= tx || tx <= x <= fx) by (nonlinear_arith)
                requires
                    0 <= (x - fx) * step_x <= run,
                    step_x == (if fx < tx { 1int } else { -1int }),
                    run == (if tx >= fx { tx - fx } else { fx - tx }),
            ;
            assert(fy <= y <= ty || ty <= y <= fy) by (nonlinear_arith)
                requires
                    0 <= (y - fy) * step_y <= -rise,
                    step_y == (if fy < ty { 1int } else { -1int }),
                    rise == (if ty >= fy { fy - ty } else { ty - fy }),
            ;
        }
        let ghost before = *field;
        tile(field, x as i32, y as i32, id);
        proof {
            let lo_x: int = if from.0 <= to.0 { from.0 as int } else { to.0 as int };
            let hi_x: int = if from.0 <= to.0 { to.0 as int } else { from.0 as int };
            let lo_y: int = if from.1 <= to.1 { from.1 as int } else { to.1 as int };
            let hi_y: int = if from.1 <= to.1 { to.1 as int } else { from.1 as int };
            assert(lo_x <= x <= hi_x && lo_y <= y <= hi_y);
            assert forall|i: i32, j: i32| !in_tile_span(from, to, i as int, j as int) implies #[trigger] field.cell(i, j)
                == old(field).cell(i, j) by {
                assert(!in_tile(x as int, y as int, i as int, j as int));
                assert(field.cell(i, j) == before.cell(i, j));
            }
            assert forall|i: i32, j: i32| #[trigger] field.cell(i, j) != old(field).cell(i, j) implies field.cell(i, j) == Some(id) by {
                assert(field.cell(i, j) == before.cell(i, j) || field.cell(i, j) == Some(id));
            }
            assert forall|i: i32, j: i32| #[trigger] field.cell(i, j) is Some == old(field).cell(i, j) is Some by {
                assert(field.cell(i, j) is Some == before.cell(i, j) is Some);
            }
            assert forall|i: i32, j: i32|
                in_tile(fx as int, fy as int, i as int, j as int) && old(field).cell(i, j) is Some implies #[trigger] field.cell(i, j) == Some(id) by {
                if !started {
                    assert(field.cell(i, j) == Some(id));
                } else {
                    assert(before.cell(i, j) == Some(id));
                }
            }
        }
        let ghost was = started;
        let ghost done_before = done;
        proof {
            started = true;
            done = done.insert((x as int, y as int));
            assert forall|i: i32, j: i32| #[trigger] field.cell(i, j) == (if done.contains(tile_of(i as int, j as int))
                && old(field).cell(i, j) is Some {
                Some(id)
            } else {
                old(field).cell(i, j)
            }) by {
                lemma_tile_of(x as int, y as int, i as int, j as int);
                assert(before.cell(i, j) is Some == old(field).cell(i, j) is Some);
            }
            assert forall|i: i32, j: i32| done.contains(tile_of(i as int, j as int)) implies #[trigger] field.active_at(i, j) by {
                lemma_tile_of(x as int, y as int, i as int, j as int);
                if !done_before.contains(tile_of(i as int, j as int)) {
                    assert(in_tile(x as int, y as int, i as int, j as int));
                } else {
                    assert(before.active_at(i, j));
                }
            }
            assert forall|i: i32, j: i32| #[trigger] old(field).active_at(i, j) implies field.active_at(i, j) by {
                assert(before.active_at(i, j));
            }
        }
        if x == tx && y == ty {
            proof {
                assert(line_tiles(x as int, y as int, error as int, (tx as int, ty as int), (step_x as int, step_y as int), run as int, rise as int, fuel as nat)
                    == set![(x as int, y as int)]);
                assert(stroke_tiles(from, to) =~= done);
                assert forall|i: i32, j: i32| stroke_tiles(from, to).contains(tile_of(i as int, j as int)) implies #[trigger] field.active_at(i, j) by {
                    assert(done.contains(tile_of(i as int, j as int)));
                }
                assert forall|i: i32, j: i32|
                    (in_tile(fx as int, fy as int, i as int, j as int) || in_tile(tx as int, ty as int, i as int, j as int))
                        && old(field).cell(i, j) is Some implies #[trigger] field.cell(i, j) == Some(id) by {
                    assert(before.cell(i, j) is Some == old(field).cell(i, j) is Some);
                }
            }
            break;
        }
        let doubled: i64 = 2 * error;
        let ghost sx = (x - fx) * step_x;
        let ghost sy = (y - fy) * step_y;
        proof {
            assert((x == tx) == (sx == run)) by (nonlinear_arith)
                requires
                    sx == (x - fx) * step_x,
                    step_x == (if fx < tx { 1int } else { -1int }),
                    run == (if tx >= fx { tx - fx } else { fx - tx }),
            ;
            assert((y == ty) == (sy == -rise)) by (nonlinear_arith)
                requires
                    sy == (y - fy) * step_y,
                    step_y == (if fy < ty { 1int } else { -1int }),
                    rise == (if ty >= fy { fy - ty } else { ty - fy }),
            ;
            assert(doubled >= rise ==> sx < run) by (nonlinear_arith)
                requires
                    doubled == 2 * error,
                    error == run * (1 + sy) + rise * (1 + sx),
                    0 <= sx <= run,
                    0 <= sy <= -rise,
                    !(sx == run && sy == -rise),
                    rise <= 0,
            ;
            assert(doubled <= run ==> sy < -rise) by (nonlinear_arith)
                requires
                    doubled == 2 * error,
                    error == run * (1 + sy) + rise * (1 + sx),
                    0 <= sx <= run,
                    0 <= sy <= -rise,
                    !(sx == run && sy == -rise),
                    run >= 0,
            ;
        }
        let ghost (x0, y0, e0) = (x, y, error);
        let mx = doubled >= rise;
        let my = doubled <= run;
        if mx {
            error = error + rise;
            x = x + step_x;
        }
        if my {
            error = error + run;
            y = y + step_y;
        }
        proof {
            assert((x - fx) * step_x == sx + (if mx { 1int } else { 0 }) && (y - fy) * step_y == sy + (if my { 1int } else { 0 }))
                by (nonlinear_arith)
                requires
                    sx == (x0 - fx) * step_x,
                    sy == (y0 - fy) * step_y,
                    x == x0 + (if mx { step_x as int } else { 0 }),
                    y == y0 + (if my { step_y as int } else { 0 }),
                    step_x == 1 || step_x == -1,
                    step_y == 1 || step_y == -1,
            ;
            assert(error == run * (1 + (y - fy) * step_y) + rise * (1 + (x - fx) * step_x)) by (nonlinear_arith)
                requires
                    e0 == run * (1 + sy) + rise * (1 + sx),
                    error == e0 + (if mx { rise as int } else { 0 }) + (if my { run as int } else { 0 }),
                    (x - fx) * step_x == sx + (if mx { 1int } else { 0 }),
                    (y - fy) * step_y == sy + (if my { 1int } else { 0 }),
            ;
            let target = (tx as int, ty as int);
            let steps = (step_x as int, step_y as int);
            assert(fuel > 0);
            assert(line_tiles(x0 as int, y0 as int, e0 as int, target, steps, run as int, rise as int, fuel as nat) == set![(x0 as int, y0 as int)].union(
                line_tiles(x as int, y as int, error as int, target, steps, run as int, rise as int, (fuel - 1) as nat),
            ));
            fuel = fuel - 1;
            assert(stroke_tiles(from, to) =~= done.union(
                line_tiles(x as int, y as int, error as int, target, steps, run as int, rise as int, fuel as nat),
            ));
        }
    }
}

/// Fills one tile completely. Writing a cell is not a move, so each one is reported
/// as activity; without that, a stroke into a settled region would leave it asleep.
pub fn tile<F: CellField>(field: &mut F, tile_x: i32, tile_y: i32, id: ElementId)
    requires
        old(field).field_inv(),
        tile_in_plane(tile_x as int, tile_y as int),
    ensures
        final(field).field_inv(),
        forall|x: i32, y: i32| #[trigger] final(field).cell(x, y) == (if in_tile(tile_x as int, tile_y as int, x as int, y as int)
            && old(field).cell(x, y) is Some {
            Some(id)
        } else {
            old(field).cell(x, y)
        }),
        forall|x: i32, y: i32| in_tile(tile_x as int, tile_y as int, x as int, y as int) ==> #[trigger] final(field).active_at(x, y),
        forall|x: i32, y: i32| #[trigger] old(field).active_at(x, y) ==> final(field).active_at(x, y),
{
    let left: i32 = tile_x * 9;
    let top: i32 = tile_y * 9;
    let mut row: i32 = 0;
    while row < 9
        invariant
            0 <= row <= 9,
            left == tile_x * 9,
            top == tile_y * 9,
            tile_in_plane(tile_x as int, tile_y as int),
            field.field_inv(),
            forall|x: i32, y: i32| #[trigger] field.cell(x, y) == (if left <= x < left + 9 && top <= y < top + row
                && old(field).cell(x, y) is Some {
                Some(id)
            } else {
                old(field).cell(x, y)
            }),
            forall|x: i32, y: i32| left <= x < left + 9 && top <= y < top + row ==> #[trigger] field.active_at(x, y),
            forall|x: i32, y: i32| #[trigger] old(field).active_at(x, y) ==> field.active_at(x, y),
        decreases 9 - row,
    {
        let mut column: i32 = 0;
        while column < 9
            invariant
                0 <= row < 9,
                0 <= column <= 9,
                left == tile_x * 9,
                top == tile_y * 9,
                tile_in_plane(tile_x as int, tile_y as int),
                field.field_inv(),
                forall|x: i32, y: i32| #[trigger] field.cell(x, y) == (if left <= x < left + 9 && (top <= y < top + row
                    || (y == top + row && x < left + column)) && old(field).cell(x, y) is Some {
                    Some(id)
                } else {
                    old(field).cell(x, y)
                }),
                forall|x: i32, y: i32| left <= x < left + 9 && (top <= y < top + row || (y == top + row && x < left + column)) ==> #[trigger] field.active_at(x, y),
                forall|x: i32, y: i32| #[trigger] old(field).active_at(x, y) ==> field.active_at(x, y),
            decreases 9 - column,
        {
            let (x, y) = (left + column, top + row);
            let ghost before = *field;
            field.set(x, y, id);
            let ghost written = *field;
            field.mark_active(x, y);
            proof {
                assert forall|i: i32, j: i32| #[trigger] field.cell(i, j) == (if left <= i < left + 9 && (top <= j < top + row
                    || (j == top + row && i < left + column + 1)) && old(field).cell(i, j) is Some {
                    Some(id)
                } else {
                    old(field).cell(i, j)
                }) by {
                    assert(field.cell(i, j) == written.cell(i, j));
                    if !(i == x && j == y) {
                        assert(written.cell(i, j) == before.cell(i, j));
                    }
                }
                assert forall|i: i32, j: i32| #[trigger] old(field).active_at(i, j) implies field.active_at(i, j) by {
                    assert(before.active_at(i, j));
                    assert(written.active_at(i, j));
                }
                assert forall|i: i32, j: i32| left <= i < left + 9 && (top <= j < top + row || (j == top + row && i < left + column + 1)) implies #[trigger] field.active_at(i, j) by {
                    if !(i == x && j == y) {
                        assert(before.active_at(i, j));
                        assert(written.active_at(i, j));
                    }
                }
            }
            column = column + 1;
        }
        row = row + 1;
    }
}

} // verus!
