//! Flat cell storage.
//!
//! One byte per cell in a flat `Vec`, which is the shape a renderer wants: a typed
//! array it can view directly without copying per frame. Cells outside the grid behave
//! as immovable boundary, so a closed world stays closed and nothing falls out of it.

use vstd::prelude::*;
use crate::elements::{ElementId, EMPTY};
use crate::field::{Bounds, CellField, in_spans, occupied, same_elsewhere, same_except_two, same_census, same_matter, same_moved, census_after_write};
use crate::heat::AMBIENT_TEMPERATURE;

verus! {

broadcast use vstd::seq_lib::group_to_multiset_ensures;

/// The position of cell `(x, y)` in a row-major grid `w` cells wide lies inside it.
pub proof fn lemma_index_in_range(x: int, y: int, w: int, h: int)
    requires
        0 <= x < w,
        0 <= y < h,
    ensures
        0 <= y * w + x < w * h,
{
    assert(0 <= y * w) by (nonlinear_arith)
        requires
            0 <= y,
            0 <= w,
    ;
    assert(y * w + x < w * h) by (nonlinear_arith)
        requires
            0 <= x < w,
            0 <= y < h,
    ;
}

/// Distinct cells of a row-major grid have distinct positions.
pub proof fn lemma_index_unique(x1: int, y1: int, x2: int, y2: int, w: int)
    requires
        0 <= x1 < w,
        0 <= x2 < w,
        0 <= y1,
        0 <= y2,
        y1 * w + x1 == y2 * w + x2,
    ensures
        x1 == x2,
        y1 == y2,
{
    if y1 < y2 {
        assert(y1 * w + w <= y2 * w) by (nonlinear_arith)
            requires
                y1 < y2,
                0 <= w,
        ;
    } else if y2 < y1 {
        assert(y2 * w + w <= y1 * w) by (nonlinear_arith)
            requires
                y2 < y1,
                0 <= w,
        ;
    }
}

/// A fixed rectangle of cells with impassable edges.
#[derive(Clone, Debug)]
pub struct Grid {
    width: u32,
    height: u32,
    cells: Vec<ElementId>,
    /// Whole Kelvin, per cell. Ambient wherever the cell is empty.
    temps: Vec<i16>,
    /// This cell's contents already moved this tick, and must not be carried along
    /// again by a later visit.
    moved: Vec<bool>,
}

impl Grid {
    pub closed spec fn spec_width(&self) -> u32 {
        self.width
    }

    pub closed spec fn spec_height(&self) -> u32 {
        self.height
    }

    /// Every cell, row by row.
    pub closed spec fn spec_cells(&self) -> Seq<ElementId> {
        self.cells@
    }

    pub closed spec fn spec_temps(&self) -> Seq<i16> {
        self.temps@
    }

    pub closed spec fn spec_moved(&self) -> Seq<bool> {
        self.moved@
    }

    pub open spec fn area(&self) -> int {
        self.spec_width() * self.spec_height()
    }

    pub open spec fn inside(&self, x: i32, y: i32) -> bool {
        0 <= x < self.spec_width() && 0 <= y < self.spec_height()
    }

    /// Where cell `(x, y)` sits in row-major order.
    pub open spec fn idx(&self, x: i32, y: i32) -> int {
        y * self.spec_width() + x
    }

    pub open spec fn wf(&self) -> bool {
        &&& self.spec_cells().len() == self.area()
        &&& self.spec_temps().len() == self.area()
        &&& self.spec_moved().len() == self.area()
        &&& forall|i: int|
            0 <= i < self.area() && #[trigger] self.spec_cells()[i] == EMPTY ==> self.spec_temps()[i]
                == AMBIENT_TEMPERATURE
    }

    pub open spec fn region_spec(&self) -> Option<Bounds> {
        if self.spec_width() > 0 && self.spec_height() > 0 {
            Some(
                Bounds {
                    min_x: 0,
                    min_y: 0,
                    max_x: if self.spec_width() - 1 > i32::MAX {
                        i32::MAX
                    } else {
                        (self.spec_width() - 1) as i32
                    },
                    max_y: if self.spec_height() - 1 > i32::MAX {
                        i32::MAX
                    } else {
                        (self.spec_height() - 1) as i32
                    },
                },
            )
        } else {
            None
        }
    }

    proof fn lemma_idx(&self, x: i32, y: i32)
        requires
            self.inside(x, y),
        ensures
            0 <= self.idx(x, y) < self.area(),
    {
        lemma_index_in_range(x as int, y as int, self.spec_width() as int, self.spec_height() as int);
    }

    proof fn lemma_idx_distinct(&self, x1: i32, y1: i32, x2: i32, y2: i32)
        requires
            self.inside(x1, y1),
            self.inside(x2, y2),
            !(x1 == x2 && y1 == y2),
        ensures
            self.idx(x1, y1) != self.idx(x2, y2),
    {
        if self.idx(x1, y1) == self.idx(x2, y2) {
            lemma_index_unique(x1 as int, y1 as int, x2 as int, y2 as int, self.spec_width() as int);
        }
    }

    /// An empty grid: every cell empty, at ambient temperature, unmoved.
    pub fn new(width: u32, height: u32) -> (r: Grid)
        requires
            width * height <= usize::MAX,
        ensures
            r.wf(),
            r.spec_width() == width,
            r.spec_height() == height,
            forall|i: int| 0 <= i < r.area() ==> #[trigger] r.spec_cells()[i] == EMPTY,
            forall|i: int| 0 <= i < r.area() ==> !#[trigger] r.spec_moved()[i],
    {
        let count: usize = width as usize * height as usize;
        let mut cells: Vec<ElementId> = Vec::new();
        let mut temps: Vec<i16> = Vec::new();
        let mut moved: Vec<bool> = Vec::new();
        let mut k: usize = 0;
        while k < count
            invariant
                k <= count,
                cells@.len() == k,
                temps@.len() == k,
                moved@.len() == k,
                forall|i: int| 0 <= i < k ==> #[trigger] cells@[i] == EMPTY,
                forall|i: int| 0 <= i < k ==> #[trigger] temps@[i] == AMBIENT_TEMPERATURE,
                forall|i: int| 0 <= i < k ==> !#[trigger] moved@[i],
            decreases count - k,
        {
            cells.push(EMPTY);
            temps.push(AMBIENT_TEMPERATURE);
            moved.push(false);
            k = k + 1;
        }
        Grid { width, height, cells, temps, moved }
    }

    pub fn width(&self) -> (r: u32)
        ensures
            r == self.spec_width(),
    {
        self.width
    }

    pub fn height(&self) -> (r: u32)
        ensures
            r == self.spec_height(),
    {
        self.height
    }

    /// Every cell, row by row.
    pub fn cells(&self) -> (r: &[ElementId])
        ensures
            r@ == self.spec_cells(),
    {
        self.cells.as_slice()
    }

    pub fn in_bounds(&self, x: i32, y: i32) -> (r: bool)
        ensures
            r == self.inside(x, y),
    {
        x >= 0 && y >= 0 && (x as u32) < self.width && (y as u32) < self.height
    }

    pub fn index(&self, x: i32, y: i32) -> (r: Option<usize>)
        requires
            self.wf(),
        ensures
            r == (if self.inside(x, y) {
                Some(self.idx(x, y) as usize)
            } else {
                None
            }),
            r is Some ==> 0 <= self.idx(x, y) < self.area() && r.unwrap() as int == self.idx(x, y),
    {
        if self.in_bounds(x, y) {
            let count: usize = self.cells.len();
            proof {
                self.lemma_idx(x, y);
                assert(y * self.width + x < count);
                assert((y as usize) * (self.width as usize) <= y * self.width + x) by (nonlinear_arith)
                    requires 0 <= x, 0 <= y, 0 <= self.width;
            }
            Some(y as usize * self.width as usize + x as usize)
        } else {
            None
        }
    }

    /// `None` outside the grid: callers must decide what the boundary means rather
    /// than silently reading empty space.
    pub fn get(&self, x: i32, y: i32) -> (r: Option<ElementId>)
        requires
            self.wf(),
        ensures
            r == self.cell(x, y),
    {
        match self.index(x, y) {
            Some(index) => {
                proof {
                    self.lemma_idx(x, y);
                }
                Some(self.cells[index])
            },
            None => None,
        }
    }

    /// Returns false if the position is outside the grid. Writing `EMPTY` clears the
    /// cell's temperature back to ambient.
    pub fn set(&mut self, x: i32, y: i32, id: ElementId) -> (r: bool)
        requires
            old(self).wf(),
        ensures
            r == old(self).inside(x, y),
            final(self).wf(),
            final(self).spec_width() == old(self).spec_width(),
            final(self).spec_height() == old(self).spec_height(),
            final(self).spec_moved() == old(self).spec_moved(),
            final(self).spec_cells() == (if r {
                old(self).spec_cells().update(old(self).idx(x, y), id)
            } else {
                old(self).spec_cells()
            }),
            final(self).spec_temps() == (if r && id == EMPTY {
                old(self).spec_temps().update(old(self).idx(x, y), AMBIENT_TEMPERATURE)
            } else {
                old(self).spec_temps()
            }),
    {
        match self.index(x, y) {
            Some(index) => {
                self.cells.set(index, id);
                if id == EMPTY {
                    self.temps.set(index, AMBIENT_TEMPERATURE);
                }
                true
            },
            None => false,
        }
    }

    /// Fills an inclusive rectangle, clipped to the grid.
    pub fn fill_rect(&mut self, x0: i32, y0: i32, x1: i32, y1: i32, id: ElementId)
        requires
            old(self).wf(),
        ensures
            final(self).wf(),
            final(self).spec_width() == old(self).spec_width(),
            final(self).spec_height() == old(self).spec_height(),
            forall|x: i32, y: i32| #[trigger] final(self).cell(x, y) == (if x0 <= x <= x1 && y0 <= y <= y1 && old(self).inside(x, y) {
                Some(id)
            } else {
                old(self).cell(x, y)
            }),
    {
        let ghost start = *self;
        let mut y: i64 = y0 as i64;
        while y <= y1 as i64
            invariant
                self.wf(),
                y0 <= y <= y1 + 1 || (y == y0 && y0 > y1),
                self.spec_width() == start.spec_width(),
                self.spec_height() == start.spec_height(),
                forall|i: i32, j: i32| #[trigger] self.cell(i, j) == (if x0 <= i <= x1 && y0 <= j < y && start.inside(i, j) {
                    Some(id)
                } else {
                    start.cell(i, j)
                }),
            decreases y1 - y + 1,
        {
            let mut x: i64 = x0 as i64;
            while x <= x1 as i64
                invariant
                    self.wf(),
                    y0 <= y <= y1,
                    x0 <= x <= x1 + 1 || (x == x0 && x0 > x1),
                    self.spec_width() == start.spec_width(),
                    self.spec_height() == start.spec_height(),
                    forall|i: i32, j: i32| #[trigger] self.cell(i, j) == (if start.inside(i, j) && x0 <= i <= x1 && (y0 <= j < y || (j == y && i < x)) {
                        Some(id)
                    } else {
                        start.cell(i, j)
                    }),
                decreases x1 - x + 1,
            {
                let ghost before = *self;
                let xi: i32 = x as i32;
                let yi: i32 = y as i32;
                CellField::set(self, xi, yi, id);
                assert forall|i: i32, j: i32| #[trigger] self.cell(i, j) == (if start.inside(i, j) && x0 <= i <= x1 && (y0 <= j < y || (j == y && i < x + 1)) {
                    Some(id)
                } else {
                    start.cell(i, j)
                }) by {
                    if !(i == xi && j == yi) {
                        assert(self.cell(i, j) == before.cell(i, j));
                    }
                }
                x = x + 1;
            }
            y = y + 1;
        }
    }

    pub fn count_of(&self, id: ElementId) -> (r: usize)
        ensures
            r == self.spec_cells().to_multiset().count(id),
    {
        let mut count: usize = 0;
        let mut k: usize = 0;
        while k < self.cells.len()
            invariant
                k <= self.cells@.len(),
                count <= k,
                count == self.cells@.subrange(0, k as int).to_multiset().count(id),
            decreases self.cells@.len() - k,
        {
            assert(self.cells@.subrange(0, k + 1) == self.cells@.subrange(0, k as int).push(self.cells@[k as int]));
            if self.cells[k] == id {
                count = count + 1;
            }
            k = k + 1;
        }
        assert(self.cells@.subrange(0, self.cells@.len() as int) == self.cells@);
        count
    }

    /// Exchanges two cells and their temperatures. Movement is always a swap and never
    /// a write-plus-clear, so no rule can create or destroy a particle by accident.
    pub fn swap(&mut self, a: usize, b: usize)
        requires
            old(self).wf(),
            a < old(self).area(),
            b < old(self).area(),
        ensures
            final(self).wf(),
            final(self).spec_width() == old(self).spec_width(),
            final(self).spec_height() == old(self).spec_height(),
            final(self).spec_moved() == old(self).spec_moved(),
            final(self).spec_cells() == old(self).spec_cells().update(a as int, old(self).spec_cells()[b as int]).update(
                b as int,
                old(self).spec_cells()[a as int],
            ),
            final(self).spec_temps() == old(self).spec_temps().update(a as int, old(self).spec_temps()[b as int]).update(
                b as int,
                old(self).spec_temps()[a as int],
            ),
            final(self).spec_cells().to_multiset() == old(self).spec_cells().to_multiset(),
    {
        let ghost s0 = self.cells@;
        let cell_a = self.cells[a];
        let cell_b = self.cells[b];
        let temp_a = self.temps[a];
        let temp_b = self.temps[b];
        self.cells.set(a, cell_b);
        self.cells.set(b, cell_a);
        self.temps.set(a, temp_b);
        self.temps.set(b, temp_a);
        proof {
            let s1 = s0.update(a as int, cell_b);
            assert(s1.to_multiset() == s0.to_multiset().insert(cell_b).remove(cell_a));
            assert(s1.update(b as int, cell_a).to_multiset() == s1.to_multiset().insert(cell_a).remove(s1[b as int]));
            broadcast use {vstd::multiset::group_multiset_axioms, vstd::multiset::group_multiset_properties};
            if a == b {
                assert(s1.update(b as int, cell_a) == s0);
            } else {
                assert(s1[b as int] == cell_b);
                assert(s0.to_multiset().insert(cell_b).remove(cell_a).insert(cell_a).remove(cell_b) =~= s0.to_multiset());
            }
        }
    }

    pub fn is_moved(&self, index: usize) -> (r: bool)
        requires
            self.wf(),
            index < self.area(),
        ensures
            r == self.spec_moved()[index as int],
    {
        self.moved[index]
    }

    pub fn mark_moved(&mut self, index: usize)
        requires
            old(self).wf(),
            index < old(self).area(),
        ensures
            final(self).wf(),
            final(self).spec_width() == old(self).spec_width(),
            final(self).spec_height() == old(self).spec_height(),
            final(self).spec_cells() == old(self).spec_cells(),
            final(self).spec_temps() == old(self).spec_temps(),
            final(self).spec_moved() == old(self).spec_moved().update(index as int, true),
    {
        self.moved.set(index, true);
    }

    pub fn clear_moved(&mut self)
        requires
            old(self).wf(),
        ensures
            final(self).wf(),
            final(self).spec_width() == old(self).spec_width(),
            final(self).spec_height() == old(self).spec_height(),
            final(self).spec_cells() == old(self).spec_cells(),
            final(self).spec_temps() == old(self).spec_temps(),
            forall|i: int| 0 <= i < final(self).area() ==> !#[trigger] final(self).spec_moved()[i],
    {
        let mut k: usize = 0;
        while k < self.moved.len()
            invariant
                self.wf(),
                k <= self.moved@.len(),
                self.width == old(self).width,
                self.height == old(self).height,
                self.cells@ == old(self).cells@,
                self.temps@ == old(self).temps@,
                forall|i: int| 0 <= i < k ==> !#[trigger] self.moved@[i],
            decreases self.moved@.len() - k,
        {
            self.moved.set(k, false);
            k = k + 1;
        }
    }
}

impl CellField for Grid {
    open spec fn cell(&self, x: i32, y: i32) -> Option<ElementId> {
        if self.inside(x, y) {
            Some(self.spec_cells()[self.idx(x, y)])
        } else {
            None
        }
    }

    open spec fn heat_at(&self, x: i32, y: i32) -> i16 {
        if self.inside(x, y) {
            self.spec_temps()[self.idx(x, y)]
        } else {
            AMBIENT_TEMPERATURE
        }
    }

    open spec fn moved_at(&self, x: i32, y: i32) -> bool {
        self.inside(x, y) && self.spec_moved()[self.idx(x, y)]
    }

    open spec fn census(&self, id: ElementId) -> int {
        self.spec_cells().to_multiset().count(id) as int
    }

    open spec fn region(&self) -> Option<Bounds> {
        self.region_spec()
    }

    open spec fn field_inv(&self) -> bool {
        self.wf()
    }

    open spec fn shape_fixed() -> bool {
        true
    }

    /// A grid has no sleeping parts: its spans always hold all of its matter.
    open spec fn covers(&self) -> bool {
        true
    }

    open spec fn may_sleep(&self) -> bool {
        false
    }

    /// A grid never sleeps, so every cell counts as reported.
    open spec fn active_at(&self, x: i32, y: i32) -> bool {
        true
    }

    /// A grid never sleeps.
    open spec fn wakes_all(&self) -> bool {
        true
    }

    open spec fn wakes_at(&self, x: i32, y: i32) -> bool {
        true
    }

    open spec fn awake_at(&self, x: i32, y: i32) -> bool {
        true
    }

    open spec fn all_active(&self) -> bool {
        true
    }

    /// The whole row, for a row inside the grid.
    open spec fn spans(&self, y: i32) -> Seq<(i32, i32)> {
        if 0 <= y < self.spec_height() && self.spec_width() > 0 {
            seq![(0i32, if self.spec_width() - 1 > i32::MAX { i32::MAX } else { (self.spec_width() - 1) as i32 })]
        } else {
            Seq::empty()
        }
    }

    proof fn lemma_field(&self, x: i32, y: i32) {
        if self.inside(x, y) {
            self.lemma_idx(x, y);
        }
    }

    fn get(&self, x: i32, y: i32) -> (r: Option<ElementId>) {
        Grid::get(self, x, y)
    }

    fn set(&mut self, x: i32, y: i32, id: ElementId)
        ensures
            final(self).spec_width() == old(self).spec_width(),
            final(self).spec_height() == old(self).spec_height(),
    {
        let ghost before = *self;
        let inside = Grid::set(self, x, y, id);
        proof {
            if inside {
                before.lemma_idx(x, y);
                let i = before.idx(x, y);
                assert forall|a: i32, b: i32| !(a == x && b == y) implies #[trigger] self.cell(a, b) == before.cell(a, b)
                    && self.heat_at(a, b) == before.heat_at(a, b) by {
                    if before.inside(a, b) {
                        before.lemma_idx(a, b);
                        before.lemma_idx_distinct(a, b, x, y);
                    }
                }
                assert(self.spec_cells().to_multiset() == before.spec_cells().to_multiset().insert(id).remove(
                    before.spec_cells()[i],
                ));
                assert(before.spec_cells().to_multiset().count(before.spec_cells()[i]) > 0);
                broadcast use {vstd::multiset::group_multiset_axioms, vstd::multiset::group_multiset_properties};
            }
        }
    }

    fn swap(&mut self, ax: i32, ay: i32, bx: i32, by: i32) {
        let ghost before = *self;
        let a = Grid::index(self, ax, ay).unwrap();
        let b = Grid::index(self, bx, by).unwrap();
        Grid::swap(self, a, b);
        proof {
            before.lemma_idx(ax, ay);
            before.lemma_idx(bx, by);
            assert forall|i: i32, j: i32| !(i == ax && j == ay) && !(i == bx && j == by) implies #[trigger] self.cell(i, j)
                == before.cell(i, j) && self.heat_at(i, j) == before.heat_at(i, j) by {
                if before.inside(i, j) {
                    before.lemma_idx(i, j);
                    before.lemma_idx_distinct(i, j, ax, ay);
                    before.lemma_idx_distinct(i, j, bx, by);
                }
            }
            if !(ax == bx && ay == by) {
                before.lemma_idx_distinct(ax, ay, bx, by);
            }
        }
    }

    fn is_moved(&self, x: i32, y: i32) -> (r: bool) {
        match Grid::index(self, x, y) {
            Some(index) => {
                proof {
                    self.lemma_idx(x, y);
                }
                Grid::is_moved(self, index)
            },
            None => false,
        }
    }

    fn mark_moved(&mut self, x: i32, y: i32) {
        let ghost before = *self;
        match Grid::index(self, x, y) {
            Some(index) => {
                Grid::mark_moved(self, index);
                proof {
                    before.lemma_idx(x, y);
                    assert forall|i: i32, j: i32| !(i == x && j == y) implies #[trigger] self.moved_at(i, j)
                        == before.moved_at(i, j) by {
                        if before.inside(i, j) {
                            before.lemma_idx(i, j);
                            before.lemma_idx_distinct(i, j, x, y);
                        }
                    }
                }
            },
            None => {},
        }
    }

    fn mark_active(&mut self, x: i32, y: i32) {
    }

    fn temperature(&self, x: i32, y: i32) -> (r: i16) {
        match Grid::index(self, x, y) {
            Some(index) => self.temps[index],
            None => AMBIENT_TEMPERATURE,
        }
    }

    fn set_temperature(&mut self, x: i32, y: i32, value: i16) {
        let ghost before = *self;
        match Grid::index(self, x, y) {
            Some(index) => {
                if self.cells[index] != EMPTY {
                    self.temps.set(index, value);
                    proof {
                        assert forall|i: i32, j: i32| !(i == x && j == y) implies #[trigger] self.cell(i, j)
                            == before.cell(i, j) && self.heat_at(i, j) == before.heat_at(i, j) by {
                            if before.inside(i, j) {
                                before.lemma_idx(i, j);
                                before.lemma_idx_distinct(i, j, x, y);
                            }
                        }
                    }
                }
            },
            None => {},
        }
    }

    fn begin_tick(&mut self) {
        self.clear_moved();
        proof {
            assert forall|i: i32, j: i32| !#[trigger] self.moved_at(i, j) by {
                if self.inside(i, j) {
                    self.lemma_idx(i, j);
                }
            }
        }
    }

    fn bounds(&self) -> (r: Option<Bounds>) {
        if self.width == 0 || self.height == 0 {
            return None;
        }
        let max_x: i32 = if self.width - 1 > 0x7fff_ffff {
            0x7fff_ffff
        } else {
            (self.width - 1) as i32
        };
        let max_y: i32 = if self.height - 1 > 0x7fff_ffff {
            0x7fff_ffff
        } else {
            (self.height - 1) as i32
        };
        Some(Bounds { min_x: 0, min_y: 0, max_x, max_y })
    }

    /// Nothing to skip: the whole row, when the row is inside the grid.
    fn active_spans(&self, y: i32, out: &mut Vec<(i32, i32)>) {
        if y >= 0 && (y as u32) < self.height && self.width > 0 {
            let max_x: i32 = if self.width - 1 > 0x7fff_ffff {
                0x7fff_ffff
            } else {
                (self.width - 1) as i32
            };
            out.push((0, max_x));
        }
        proof {
            assert(out@ =~= old(out)@ + self.spans(y));
            if old(out)@.len() == 0 {
                assert forall|x: i32| self.cell(x, y) is Some && self.cell(x, y) != Some(EMPTY) implies #[trigger] in_spans(out@, x as int) by {
                    assert(out@[0].0 <= x <= out@[0].1);
                }
            }
        }
    }
}


/// Two grids of one size, each a nonempty rectangle of the plane, that hold the same
/// cells count every id alike, empty space included.
pub proof fn lemma_same_cells_census(a: Grid, b: Grid)
    requires
        a.wf(),
        b.wf(),
        1 <= a.spec_width() <= i32::MAX,
        1 <= a.spec_height() <= i32::MAX,
        a.region_spec() == b.region_spec(),
        forall|x: i32, y: i32| #[trigger] a.cell(x, y) == b.cell(x, y),
    ensures
        b.spec_width() == a.spec_width(),
        b.spec_height() == a.spec_height(),
        forall|k: ElementId| #[trigger] b.census(k) == a.census(k),
{
    assert(b.spec_width() > 0 && b.spec_height() > 0);
    let w = a.spec_width() as int;
    let h = a.spec_height() as int;
    assert forall|i: int| 0 <= i < a.area() implies #[trigger] a.spec_cells()[i] == b.spec_cells()[i] by {
        let x = i % w;
        let y = i / w;
        vstd::arithmetic::div_mod::lemma_fundamental_div_mod(i, w);
        assert(0 <= y < h) by (nonlinear_arith)
            requires
                0 <= i < w * h,
                i == w * y + x,
                0 <= x < w,
                w >= 1,
        ;
        assert(a.inside(x as i32, y as i32));
        assert(a.idx(x as i32, y as i32) == i);
        assert(a.cell(x as i32, y as i32) == b.cell(x as i32, y as i32));
    }
    assert(a.spec_cells() =~= b.spec_cells());
}


/// An id the census counts lies in some cell, and an id some cell holds is counted.
pub proof fn lemma_census_present(g: Grid, k: ElementId)
    requires
        g.wf(),
        1 <= g.spec_width() <= i32::MAX,
        1 <= g.spec_height() <= i32::MAX,
    ensures
        g.census(k) > 0 <==> exists|x: i32, y: i32| #[trigger] g.cell(x, y) == Some(k),
{
    broadcast use vstd::seq_lib::group_to_multiset_ensures;

    let w = g.spec_width() as int;
    let h = g.spec_height() as int;
    if g.census(k) > 0 {
        assert(g.spec_cells().contains(k));
        let i = choose|i: int| 0 <= i < g.spec_cells().len() && g.spec_cells()[i] == k;
        let x = i % w;
        let y = i / w;
        vstd::arithmetic::div_mod::lemma_fundamental_div_mod(i, w);
        assert(0 <= y < h) by (nonlinear_arith)
            requires
                0 <= i < w * h,
                i == w * y + x,
                0 <= x < w,
                w >= 1,
        ;
        assert(y * w + x == i) by (nonlinear_arith)
            requires
                i == w * y + x,
        ;
        assert(g.idx(x as i32, y as i32) == i);
        assert(g.cell(x as i32, y as i32) == Some(k));
    }
    if exists|x: i32, y: i32| #[trigger] g.cell(x, y) == Some(k) {
        let (x, y) = choose|x: i32, y: i32| #[trigger] g.cell(x, y) == Some(k);
        g.lemma_idx(x, y);
        assert(g.spec_cells().contains(k));
    }
}

} // verus!
