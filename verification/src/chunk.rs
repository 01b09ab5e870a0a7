//! Sparse chunked storage: the infinite canvas.
//!
//! Chunks are defined in tiles, not cells, so tile and chunk alignment can never drift
//! apart. A chunk that has never held anything is not stored at all and reads as empty,
//! which is what makes an unbounded world affordable.
//!
//! Chunking here is storage, and nothing else. The tick still sweeps global rows
//! bottom-up across the whole live region, exactly as the flat grid does, so chunk
//! layout cannot influence the result.
//!
//! Layout: chunk positions are kept in a strictly ascending `Vec` (ordered keys make
//! every traversal reproducible without having to remember to sort), each paired with
//! the block of the flat cell arrays that holds that chunk's cells.

use vstd::prelude::*;
use crate::elements::{ElementId, EMPTY};
use crate::field::{Bounds, CellField, in_spans, spans_sorted};
use crate::heat::AMBIENT_TEMPERATURE;

verus! {

broadcast use vstd::seq_lib::group_to_multiset_ensures;

/// Cells per tile edge. Odd on purpose: every tile has a true centre cell.
pub const TILE_CELLS: u32 = 9;

/// Tiles per chunk edge.
pub const CHUNK_TILES: u32 = 16;

/// Cells per chunk edge.
pub const CHUNK_CELLS: u32 = TILE_CELLS * CHUNK_TILES;

/// Cells per chunk.
pub const CHUNK_AREA: usize = 20736;

/// A chunk's position on the infinite canvas, in chunks.
pub type ChunkCoord = (i32, i32);

/// The chunk holding world coordinate `c`: floor division.
pub open spec fn chunk_of(c: int) -> int {
    c / 144
}

/// Where `c` sits inside its chunk: the Euclidean remainder.
pub open spec fn offset_of(c: int) -> int {
    c % 144
}

/// The chunk holding cell `(x, y)`.
pub open spec fn chunk_key(x: i32, y: i32) -> ChunkCoord {
    (chunk_of(x as int) as i32, chunk_of(y as int) as i32)
}

/// Where cell `(x, y)` sits inside its chunk's block.
pub open spec fn local_index(x: i32, y: i32) -> int {
    offset_of(y as int) * 144 + offset_of(x as int)
}

/// Whether chunk position `a` sorts before `b`: by column, then by row.
pub open spec fn coord_lt(a: ChunkCoord, b: ChunkCoord) -> bool {
    a.0 < b.0 || (a.0 == b.0 && a.1 < b.1)
}

pub open spec fn sorted_coords(s: Seq<ChunkCoord>) -> bool {
    forall|i: int, j: int| 0 <= i < j < s.len() ==> coord_lt(#[trigger] s[i], #[trigger] s[j])
}

/// Splits a world coordinate into a chunk coordinate and an offset inside it.
///
/// Floor division and Euclidean remainder, not truncation: with truncating division,
/// cells at x = -1 and x = 0 would land in the same chunk and the world would fold over
/// on itself at the origin.
pub fn split(coordinate: i32) -> (r: (i32, u32))
    ensures
        r.0 as int == chunk_of(coordinate as int),
        r.1 as int == offset_of(coordinate as int),
        r.0 * 144 + r.1 == coordinate,
        r.1 < 144,
{
    let (chunk, offset): (i64, i64) = if coordinate >= 0 {
        let c: i64 = coordinate as i64;
        (c / 144, c % 144)
    } else {
        let magnitude: i64 = -(coordinate as i64);
        let whole: i64 = (magnitude + 143) / 144;
        (-whole, whole * 144 - magnitude)
    };
    proof {
        if coordinate >= 0 {
            assert(chunk * 144 + offset == coordinate && 0 <= offset < 144) by (nonlinear_arith)
                requires
                    coordinate >= 0,
                    chunk == coordinate as int / 144,
                    offset == coordinate as int % 144,
            ;
        } else {
            let m = -(coordinate as int);
            let w = (m + 143) / 144;
            assert(w * 144 - m >= 0 && w * 144 - m < 144) by (nonlinear_arith)
                requires
                    m > 0,
                    w == (m + 143) / 144,
            ;
        }
        vstd::arithmetic::div_mod::lemma_fundamental_div_mod_converse(coordinate as int, 144, chunk as int, offset as int);
    }
    (chunk as i32, offset as u32)
}

proof fn lemma_block_index(block: int, offset: int, blocks: int)
    requires
        0 <= block < blocks,
        0 <= offset < CHUNK_AREA,
    ensures
        0 <= block * CHUNK_AREA + offset < blocks * CHUNK_AREA,
{
    assert(0 <= block * CHUNK_AREA + offset < blocks * CHUNK_AREA) by (nonlinear_arith)
        requires
            0 <= block < blocks,
            0 <= offset < CHUNK_AREA,
    ;
}

proof fn lemma_block_distinct(b1: int, o1: int, b2: int, o2: int)
    requires
        0 <= b1,
        0 <= b2,
        0 <= o1 < CHUNK_AREA,
        0 <= o2 < CHUNK_AREA,
        b1 * CHUNK_AREA + o1 == b2 * CHUNK_AREA + o2,
    ensures
        b1 == b2,
        o1 == o2,
{
    if b1 < b2 {
        assert(b1 * CHUNK_AREA + CHUNK_AREA <= b2 * CHUNK_AREA) by (nonlinear_arith)
            requires
                b1 < b2,
        ;
    } else if b2 < b1 {
        assert(b2 * CHUNK_AREA + CHUNK_AREA <= b1 * CHUNK_AREA) by (nonlinear_arith)
            requires
                b2 < b1,
        ;
    }
}

proof fn lemma_local_index(x: i32, y: i32)
    ensures
        0 <= local_index(x, y) < CHUNK_AREA,
{
    assert(0 <= offset_of(y as int) * 144 + offset_of(x as int) < CHUNK_AREA) by (nonlinear_arith)
        requires
            0 <= offset_of(y as int) < 144,
            0 <= offset_of(x as int) < 144,
    ;
}

/// Two cells with the same chunk and the same place in it are the same cell.
proof fn lemma_local_distinct(x1: i32, y1: i32, x2: i32, y2: i32)
    requires
        chunk_key(x1, y1) == chunk_key(x2, y2),
        local_index(x1, y1) == local_index(x2, y2),
    ensures
        x1 == x2,
        y1 == y2,
{
    let (ox1, oy1, ox2, oy2) = (offset_of(x1 as int), offset_of(y1 as int), offset_of(x2 as int), offset_of(y2 as int));
    assert(ox1 == ox2 && oy1 == oy2) by (nonlinear_arith)
        requires
            0 <= ox1 < 144,
            0 <= ox2 < 144,
            0 <= oy1 < 144,
            0 <= oy2 < 144,
            oy1 * 144 + ox1 == oy2 * 144 + ox2,
    ;
    assert(chunk_of(x1 as int) == chunk_of(x2 as int) && chunk_of(y1 as int) == chunk_of(y2 as int)) by {
        vstd::arithmetic::div_mod::lemma_fundamental_div_mod(x1 as int, 144);
        vstd::arithmetic::div_mod::lemma_fundamental_div_mod(x2 as int, 144);
        vstd::arithmetic::div_mod::lemma_fundamental_div_mod(y1 as int, 144);
        vstd::arithmetic::div_mod::lemma_fundamental_div_mod(y2 as int, 144);
    }
    vstd::arithmetic::div_mod::lemma_fundamental_div_mod(x1 as int, 144);
    vstd::arithmetic::div_mod::lemma_fundamental_div_mod(x2 as int, 144);
    vstd::arithmetic::div_mod::lemma_fundamental_div_mod(y1 as int, 144);
    vstd::arithmetic::div_mod::lemma_fundamental_div_mod(y2 as int, 144);
}

/// Where block `s` lives once the block in the last place has moved into block `b`.
pub open spec fn relocated(b: int, last: int, s: int) -> int {
    if s == last {
        b
    } else {
        s
    }
}

/// The position in `slots` that names block `b`.
pub open spec fn holder_of(slots: Seq<usize>, b: int) -> int {
    choose|i: int| 0 <= i < slots.len() && slots[i] == b
}

/// Whether chunk `c` holds cells of the plane: a chunk position that some pair of
/// `i32` coordinates falls in.
pub open spec fn key_in_plane(c: ChunkCoord) -> bool {
    -14913081 <= c.0 <= 14913080 && -14913081 <= c.1 <= 14913080
}

/// Whether place `o` of chunk `c`'s block stands for a cell of the plane. Chunks at
/// the plane's edges reach past it; their places out there never hold matter.
pub open spec fn offset_in_plane(c: ChunkCoord, o: int) -> bool {
    i32::MIN <= c.0 * 144 + o % 144 <= i32::MAX && i32::MIN <= c.1 * 144 + o / 144 <= i32::MAX
}

/// Every cell of the plane falls in a chunk of the plane.
pub proof fn lemma_key_in_plane(x: i32, y: i32)
    ensures
        key_in_plane(chunk_key(x, y)),
{
    assert(-14913081 <= x as int / 144 <= 14913080) by (nonlinear_arith)
        requires
            i32::MIN <= x <= i32::MAX,
    ;
    assert(-14913081 <= y as int / 144 <= 14913080) by (nonlinear_arith)
        requires
            i32::MIN <= y <= i32::MAX,
    ;
}

/// Chunks keyed by position.
#[derive(Clone, Debug)]
pub struct ChunkMap {
    /// Stored chunk positions, strictly ascending.
    keys: Vec<ChunkCoord>,
    /// For each key, which block of the cell arrays holds that chunk.
    slots: Vec<usize>,
    /// `CHUNK_AREA` cells per block.
    cells: Vec<ElementId>,
    temps: Vec<i16>,
    moved: Vec<bool>,
    /// Per block: something moved in this chunk during the tick now running.
    dirty: Vec<bool>,
    /// Per block: something moved in it during the previous tick.
    was_dirty: Vec<bool>,
    /// Per block: it is being simulated this tick.
    awake: Vec<bool>,
    /// Off by default: every chunk ticks, which is the behaviour the flat reference
    /// world is compared against.
    sleeping: bool,
    /// Chunks within this many chunks of the viewport stay awake regardless.
    viewport: Option<Bounds>,
    viewport_margin: i32,
}

impl ChunkMap {
    pub closed spec fn spec_keys(&self) -> Seq<ChunkCoord> {
        self.keys@
    }

    /// How many chunks are stored.
    pub open spec fn blocks(&self) -> int {
        self.spec_keys().len() as int
    }

    /// Whether chunk `c` is stored.
    pub closed spec fn stored(&self, c: ChunkCoord) -> bool {
        exists|i: int| 0 <= i < self.keys@.len() && self.keys@[i] == c
    }

    /// The position of chunk `c` among the keys.
    closed spec fn key_index(&self, c: ChunkCoord) -> int {
        choose|i: int| 0 <= i < self.keys@.len() && self.keys@[i] == c
    }

    /// Where cell `(x, y)` lives in the flat arrays, if its chunk is stored.
    closed spec fn position(&self, x: i32, y: i32) -> int {
        self.slots@[self.key_index(chunk_key(x, y))] * CHUNK_AREA + local_index(x, y)
    }

    pub closed spec fn wf(&self) -> bool {
        let n = self.keys@.len();
        &&& self.slots@.len() == n
        &&& self.dirty@.len() == n
        &&& self.was_dirty@.len() == n
        &&& self.awake@.len() == n
        &&& self.cells@.len() == n * CHUNK_AREA
        &&& self.temps@.len() == n * CHUNK_AREA
        &&& self.moved@.len() == n * CHUNK_AREA
        &&& sorted_coords(self.keys@)
        &&& forall|i: int| 0 <= i < n ==> key_in_plane(#[trigger] self.keys@[i])
        &&& forall|i: int| 0 <= i < n ==> #[trigger] self.slots@[i] < n
        &&& forall|i: int, j: int| 0 <= i < n && 0 <= j < n && i != j ==> #[trigger] self.slots@[i] != #[trigger] self.slots@[j]
        &&& forall|b: int| 0 <= b < n ==> 0 <= #[trigger] holder_of(self.slots@, b) < n && self.slots@[holder_of(self.slots@, b)] == b
        &&& forall|p: int| 0 <= p < self.cells@.len() && #[trigger] self.cells@[p] == EMPTY ==> self.temps@[p] == AMBIENT_TEMPERATURE
        &&& forall|i: int, o: int|
            0 <= i < n && 0 <= o < CHUNK_AREA && !offset_in_plane(self.keys@[i], o) ==> #[trigger] self.cells@[self.slots@[i] * CHUNK_AREA
                + o] == EMPTY
        &&& self.viewport_margin >= 0
    }

    proof fn lemma_key_unique(&self, i: int, j: int)
        requires
            self.wf(),
            0 <= i < self.keys@.len(),
            0 <= j < self.keys@.len(),
            self.keys@[i] == self.keys@[j],
        ensures
            i == j,
    {
        if i < j {
            assert(coord_lt(self.keys@[i], self.keys@[j]));
        } else if j < i {
            assert(coord_lt(self.keys@[j], self.keys@[i]));
        }
    }

    proof fn lemma_key_index(&self, i: int)
        requires
            self.wf(),
            0 <= i < self.keys@.len(),
        ensures
            self.stored(self.keys@[i]),
            self.key_index(self.keys@[i]) == i,
    {
        let c = self.keys@[i];
        assert(self.keys@[i] == c);
        let k = self.key_index(c);
        self.lemma_key_unique(i, k);
    }

    proof fn lemma_position(&self, x: i32, y: i32)
        requires
            self.wf(),
            self.stored(chunk_key(x, y)),
        ensures
            0 <= self.key_index(chunk_key(x, y)) < self.keys@.len(),
            self.keys@[self.key_index(chunk_key(x, y))] == chunk_key(x, y),
            0 <= self.position(x, y) < self.cells@.len(),
    {
        let i = self.key_index(chunk_key(x, y));
        lemma_local_index(x, y);
        lemma_block_index(self.slots@[i] as int, local_index(x, y), self.keys@.len() as int);
    }

    /// Distinct cells in stored chunks live at distinct positions.
    proof fn lemma_position_distinct(&self, x1: i32, y1: i32, x2: i32, y2: i32)
        requires
            self.wf(),
            self.stored(chunk_key(x1, y1)),
            self.stored(chunk_key(x2, y2)),
            !(x1 == x2 && y1 == y2),
        ensures
            self.position(x1, y1) != self.position(x2, y2),
    {
        self.lemma_position(x1, y1);
        self.lemma_position(x2, y2);
        lemma_local_index(x1, y1);
        lemma_local_index(x2, y2);
        let i1 = self.key_index(chunk_key(x1, y1));
        let i2 = self.key_index(chunk_key(x2, y2));
        if self.position(x1, y1) == self.position(x2, y2) {
            lemma_block_distinct(self.slots@[i1] as int, local_index(x1, y1), self.slots@[i2] as int, local_index(x2, y2));
            assert(i1 == i2);
            lemma_local_distinct(x1, y1, x2, y2);
        }
    }

    /// Two maps with the same keys, slots and cell arrays model the same world.
    proof fn lemma_same_model(a: ChunkMap, b: ChunkMap)
        requires
            a.keys@ == b.keys@,
            a.slots@ == b.slots@,
            a.cells@ == b.cells@,
            a.temps@ == b.temps@,
            a.moved@ == b.moved@,
        ensures
            forall|c: ChunkCoord| #[trigger] a.stored(c) == b.stored(c),
            forall|x: i32, y: i32| #[trigger] a.cell(x, y) == b.cell(x, y),
            forall|x: i32, y: i32| #[trigger] a.heat_at(x, y) == b.heat_at(x, y),
            forall|x: i32, y: i32| #[trigger] a.moved_at(x, y) == b.moved_at(x, y),
            forall|k: ElementId| #[trigger] a.census(k) == b.census(k),
    {
        assert forall|c: ChunkCoord| #[trigger] a.key_index(c) == b.key_index(c) by {}
    }

    /// Two maps with the same keys and slots place every cell at the same position.
    /// Whether every chunk is awake depends on the keys, slots and awake flags alone.
    proof fn lemma_same_awake(a: ChunkMap, b: ChunkMap)
        requires
            a.keys@ == b.keys@,
            a.slots@ == b.slots@,
            a.awake@ == b.awake@,
        ensures
            a.all_awake() == b.all_awake(),
    {
        assert forall|c: ChunkCoord| #[trigger] a.stored(c) == b.stored(c) && a.key_index(c) == b.key_index(c) by {}
        if a.all_awake() {
            assert forall|c: ChunkCoord| #[trigger] b.stored(c) implies b.chunk_awake(c) by {
                assert(a.stored(c));
                assert(a.chunk_awake(c));
                assert(a.key_index(c) == b.key_index(c));
            }
        }
        if b.all_awake() {
            assert forall|c: ChunkCoord| #[trigger] a.stored(c) implies a.chunk_awake(c) by {
                assert(b.stored(c));
                assert(b.chunk_awake(c));
                assert(a.key_index(c) == b.key_index(c));
            }
        }
    }

    /// Two maps with the same keys, slots and flags report the same flags per chunk.
    proof fn lemma_same_flags(a: ChunkMap, b: ChunkMap)
        requires
            a.keys@ == b.keys@,
            a.slots@ == b.slots@,
            a.dirty@ == b.dirty@,
            a.was_dirty@ == b.was_dirty@,
            a.awake@ == b.awake@,
        ensures
            forall|c: ChunkCoord|
                #[trigger] a.chunk_dirty(c) == b.chunk_dirty(c) && a.chunk_was_dirty(c) == b.chunk_was_dirty(c) && a.chunk_awake(c)
                    == b.chunk_awake(c),
    {
        assert forall|c: ChunkCoord| #[trigger] a.stored(c) == b.stored(c) && a.key_index(c) == b.key_index(c) by {}
    }

    /// Where no dirty chunk turns clean, every newly stored chunk is dirty and the
    /// sleeping settings stay, a map that would wake every chunk still does.
    proof fn lemma_wake_kept(a: ChunkMap, b: ChunkMap)
        requires
            forall|d: ChunkCoord| #[trigger] a.chunk_dirty(d) ==> b.chunk_dirty(d),
            forall|c: ChunkCoord| #[trigger] b.stored(c) ==> a.stored(c) || b.chunk_dirty(c),
            a.sleeping == b.sleeping,
            a.viewport == b.viewport,
            a.viewport_margin == b.viewport_margin,
        ensures
            a.wakes_all() ==> b.wakes_all(),
            forall|c: ChunkCoord| #[trigger] a.near_activity(c) ==> b.near_activity(c),
            forall|i: i32, j: i32| #[trigger] a.wakes_at(i, j) ==> b.wakes_at(i, j),
    {
        assert forall|c: ChunkCoord| #[trigger] a.near_activity(c) implies b.near_activity(c) by {
            let d = choose|d: ChunkCoord| #[trigger] a.chunk_dirty(d) && touching(c, d);
            assert(b.chunk_dirty(d));
        }
        assert forall|i: i32, j: i32| #[trigger] a.wakes_at(i, j) implies b.wakes_at(i, j) by {
            if a.near_activity(chunk_key(i, j)) {
                assert(b.near_activity(chunk_key(i, j)));
            }
        }
        if a.wakes_all() && b.sleeping {
            assert forall|c: ChunkCoord| #[trigger] b.stored(c) implies b.near_activity(c) || b.in_view(c) by {
                if a.stored(c) {
                    assert(a.near_activity(c) || a.in_view(c));
                    if a.near_activity(c) {
                        let d = choose|d: ChunkCoord| #[trigger] a.chunk_dirty(d) && touching(c, d);
                        assert(b.chunk_dirty(d));
                    }
                } else {
                    assert(b.chunk_dirty(c));
                    assert(touching(c, c));
                }
            }
        }
    }

    /// A map that gained at most one chunk, dirty, and kept every other chunk's flags
    /// and its sleeping settings wakes and runs at least what it did.
    proof fn lemma_grown_flags(a: ChunkMap, b: ChunkMap, coord: ChunkCoord)
        requires
            forall|c: ChunkCoord|
                a.stored(c) ==> #[trigger] b.chunk_dirty(c) == a.chunk_dirty(c) && b.chunk_was_dirty(c) == a.chunk_was_dirty(c)
                    && b.chunk_awake(c) == a.chunk_awake(c),
            forall|c: ChunkCoord| #[trigger] b.stored(c) <==> (a.stored(c) || c == coord),
            b.chunk_dirty(coord),
            a.sleeping == b.sleeping,
            a.viewport == b.viewport,
            a.viewport_margin == b.viewport_margin,
        ensures
            a.wakes_all() ==> b.wakes_all(),
            forall|i: i32, j: i32| #[trigger] a.wakes_at(i, j) ==> b.wakes_at(i, j),
            forall|c: ChunkCoord| #[trigger] a.chunk_awake(c) ==> b.chunk_awake(c),
    {
        assert forall|d: ChunkCoord| #[trigger] a.chunk_dirty(d) implies b.chunk_dirty(d) by {
            assert(a.stored(d));
        }
        assert forall|c: ChunkCoord| #[trigger] b.stored(c) implies a.stored(c) || b.chunk_dirty(c) by {}
        ChunkMap::lemma_wake_kept(a, b);
        assert forall|c: ChunkCoord| #[trigger] a.chunk_awake(c) implies b.chunk_awake(c) by {
            assert(a.stored(c));
            assert(b.chunk_dirty(c) == a.chunk_dirty(c));
        }
    }

    /// Two maps with the same keys, slots and carried-over flags report the same such
    /// flags per chunk.
    proof fn lemma_same_rest(a: ChunkMap, b: ChunkMap)
        requires
            a.keys@ == b.keys@,
            a.slots@ == b.slots@,
            a.was_dirty@ == b.was_dirty@,
            a.awake@ == b.awake@,
        ensures
            forall|c: ChunkCoord| #[trigger] a.stored(c) == b.stored(c),
            forall|c: ChunkCoord| #[trigger] a.chunk_was_dirty(c) == b.chunk_was_dirty(c),
            forall|c: ChunkCoord| #[trigger] a.chunk_awake(c) == b.chunk_awake(c),
    {
        assert forall|c: ChunkCoord| #[trigger] a.stored(c) == b.stored(c) && a.key_index(c) == b.key_index(c) by {}
    }

    proof fn lemma_same_keys(a: ChunkMap, b: ChunkMap)
        requires
            a.keys@ == b.keys@,
            a.slots@ == b.slots@,
        ensures
            forall|c: ChunkCoord| #[trigger] a.stored(c) == b.stored(c),
            forall|c: ChunkCoord| #[trigger] a.key_index(c) == b.key_index(c),
            forall|x: i32, y: i32| #[trigger] a.position(x, y) == b.position(x, y),
    {
        assert forall|c: ChunkCoord| #[trigger] a.key_index(c) == b.key_index(c) by {}
    }

    pub fn new() -> (r: ChunkMap)
        ensures
            r.wf(),
            r.blocks() == 0,
            r.region() is None,
            !r.is_sleeping(),
            r.spec_viewport() is None,
            r.spec_margin() == 0,
            forall|c: ChunkCoord| !#[trigger] r.stored(c),
            forall|x: i32, y: i32| #[trigger] r.cell(x, y) == Some(EMPTY),
            forall|x: i32, y: i32| #[trigger] r.heat_at(x, y) == AMBIENT_TEMPERATURE,
            forall|x: i32, y: i32| !#[trigger] r.moved_at(x, y),
    {
        ChunkMap {
            keys: Vec::new(),
            slots: Vec::new(),
            cells: Vec::new(),
            temps: Vec::new(),
            moved: Vec::new(),
            dirty: Vec::new(),
            was_dirty: Vec::new(),
            awake: Vec::new(),
            sleeping: false,
            viewport: None,
            viewport_margin: 0,
        }
    }

    /// Finds a chunk's position among the keys.
    fn slot(&self, coord: ChunkCoord) -> (r: Option<usize>)
        requires
            self.wf(),
        ensures
            r is Some <==> self.stored(coord),
            r is Some ==> r.unwrap() as int == self.key_index(coord) && r.unwrap() < self.keys@.len(),
    {
        let mut i: usize = 0;
        while i < self.keys.len()
            invariant
                i <= self.keys@.len(),
                self.wf(),
                forall|j: int| 0 <= j < i ==> #[trigger] self.keys@[j] != coord,
            decreases self.keys@.len() - i,
        {
            let key = self.keys[i];
            if key.0 == coord.0 && key.1 == coord.1 {
                proof {
                    self.lemma_key_index(i as int);
                }
                return Some(i);
            }
            i = i + 1;
        }
        None
    }

    /// The chunk and the place inside it holding cell `(x, y)`.
    fn locate(x: i32, y: i32) -> (r: (ChunkCoord, usize))
        ensures
            r.0 == chunk_key(x, y),
            r.1 as int == local_index(x, y),
            r.1 < CHUNK_AREA,
    {
        let (chunk_x, local_x) = split(x);
        let (chunk_y, local_y) = split(y);
        proof {
            lemma_local_index(x, y);
        }
        ((chunk_x, chunk_y), (local_y * 144 + local_x) as usize)
    }

    /// Where the chunk `coord` would be inserted to keep the keys ascending.
    fn insertion_point(&self, coord: ChunkCoord) -> (r: usize)
        requires
            self.wf(),
            !self.stored(coord),
        ensures
            r <= self.keys@.len(),
            forall|j: int| 0 <= j < r ==> coord_lt(#[trigger] self.keys@[j], coord),
            forall|j: int| r <= j < self.keys@.len() ==> coord_lt(coord, #[trigger] self.keys@[j]),
    {
        let mut i: usize = 0;
        while i < self.keys.len()
            invariant
                i <= self.keys@.len(),
                self.wf(),
                !self.stored(coord),
                forall|j: int| 0 <= j < i ==> coord_lt(#[trigger] self.keys@[j], coord),
            decreases self.keys@.len() - i,
        {
            let key = self.keys[i];
            if key.0 > coord.0 || (key.0 == coord.0 && key.1 > coord.1) {
                proof {
                    assert forall|j: int| i <= j < self.keys@.len() implies coord_lt(coord, #[trigger] self.keys@[j]) by {
                        if j > i {
                            assert(coord_lt(self.keys@[i as int], self.keys@[j]));
                        }
                    }
                }
                return i;
            }
            proof {
                assert(self.keys@[i as int] != coord);
            }
            i = i + 1;
        }
        i
    }
}


/// The lowest chunk row among the first `n` keys.
pub open spec fn min_row(s: Seq<ChunkCoord>, n: int) -> int
    decreases n,
{
    if n <= 1 {
        s[0].1 as int
    } else if (s[n - 1].1 as int) < min_row(s, n - 1) {
        s[n - 1].1 as int
    } else {
        min_row(s, n - 1)
    }
}

/// The highest chunk row among the first `n` keys.
pub open spec fn max_row(s: Seq<ChunkCoord>, n: int) -> int
    decreases n,
{
    if n <= 1 {
        s[0].1 as int
    } else if (s[n - 1].1 as int) > max_row(s, n - 1) {
        s[n - 1].1 as int
    } else {
        max_row(s, n - 1)
    }
}

proof fn lemma_row_range(s: Seq<ChunkCoord>, n: int, j: int)
    requires
        1 <= n <= s.len(),
        0 <= j < n,
    ensures
        min_row(s, n) <= s[j].1 <= max_row(s, n),
        i32::MIN <= min_row(s, n) <= i32::MAX,
        i32::MIN <= max_row(s, n) <= i32::MAX,
    decreases n,
{
    if n > 1 {
        if j < n - 1 {
            lemma_row_range(s, n - 1, j);
        } else {
            lemma_row_range(s, n - 1, 0);
        }
    }
}

/// `value`, clamped into the 32-bit plane.
pub open spec fn clip_i32(value: int) -> i32 {
    if value < i32::MIN {
        i32::MIN
    } else if value > i32::MAX {
        i32::MAX
    } else {
        value as i32
    }
}

fn clip(value: i64) -> (r: i32)
    ensures
        r == clip_i32(value as int),
{
    if value < i32::MIN as i64 {
        i32::MIN
    } else if value > i32::MAX as i64 {
        i32::MAX
    } else {
        value as i32
    }
}

/// The bounding box, in cells, of every stored chunk.
pub open spec fn keys_region(s: Seq<ChunkCoord>) -> Option<Bounds> {
    if s.len() == 0 {
        None
    } else {
        Some(
            Bounds {
                min_x: clip_i32(s[0].0 * 144),
                min_y: clip_i32(min_row(s, s.len() as int) * 144),
                max_x: clip_i32(s[s.len() - 1].0 * 144 + 143),
                max_y: clip_i32(max_row(s, s.len() as int) * 144 + 143),
            },
        )
    }
}

impl ChunkMap {
    /// Where chunk `i`'s cell at `offset` lives in the flat arrays.
    fn pos(&self, i: usize, offset: usize) -> (r: usize)
        requires
            self.wf(),
            i < self.keys@.len(),
            offset < CHUNK_AREA,
        ensures
            r as int == self.slots@[i as int] * CHUNK_AREA + offset,
            r < self.cells@.len(),
    {
        let total = self.cells.len();
        proof {
            lemma_block_index(self.slots@[i as int] as int, offset as int, self.keys@.len() as int);
        }
        self.slots[i] * CHUNK_AREA + offset
    }

    /// Resolves a chunk's position among the keys, creating the chunk if it is not
    /// there yet. A new chunk holds nothing, so the world it models is unchanged.
    #[verifier::spinoff_prover]
    fn slot_or_create(&mut self, coord: ChunkCoord) -> (r: usize)
        requires
            old(self).wf(),
            key_in_plane(coord),
        ensures
            old(self).all_awake() ==> final(self).all_awake(),
            forall|c: ChunkCoord|
                old(self).stored(c) ==> #[trigger] final(self).chunk_dirty(c) == old(self).chunk_dirty(c) && final(self).chunk_was_dirty(c)
                    == old(self).chunk_was_dirty(c) && final(self).chunk_awake(c) == old(self).chunk_awake(c),
            !old(self).stored(coord) ==> final(self).chunk_dirty(coord) && final(self).chunk_was_dirty(coord) && final(self).chunk_awake(coord),
            final(self).wf(),
            r < final(self).keys@.len(),
            final(self).keys@[r as int] == coord,
            final(self).stored(coord),
            final(self).key_index(coord) == r,
            final(self).keys@.len() == old(self).keys@.len() + (if old(self).stored(coord) {
                0int
            } else {
                1int
            }),
            forall|c: ChunkCoord| #[trigger] final(self).stored(c) <==> (old(self).stored(c) || c == coord),
            forall|x: i32, y: i32| #[trigger] final(self).cell(x, y) == old(self).cell(x, y),
            forall|x: i32, y: i32| #[trigger] final(self).heat_at(x, y) == old(self).heat_at(x, y),
            forall|x: i32, y: i32| #[trigger] final(self).moved_at(x, y) == old(self).moved_at(x, y),
            forall|k: ElementId| k != EMPTY ==> #[trigger] final(self).census(k) == old(self).census(k),
            final(self).sleeping == old(self).sleeping,
            final(self).viewport == old(self).viewport,
            final(self).viewport_margin == old(self).viewport_margin,
            old(self).stored(coord) ==> *final(self) == *old(self),
            old(self).wakes_all() ==> final(self).wakes_all(),
            forall|i: i32, j: i32| #[trigger] old(self).wakes_at(i, j) ==> final(self).wakes_at(i, j),
            forall|c: ChunkCoord| #[trigger] old(self).chunk_awake(c) ==> final(self).chunk_awake(c),
    {
        match self.slot(coord) {
            Some(i) => {
                proof {
                    self.lemma_key_index(i as int);
                }
                return i;
            },
            None => {},
        }
        let ghost before = *self;
        let at = self.insertion_point(coord);
        let block = self.keys.len();
        let mut k: usize = 0;
        while k < CHUNK_AREA
            invariant
                k <= CHUNK_AREA,
                block == before.keys@.len(),
                self.keys@ == before.keys@,
                self.slots@ == before.slots@,
                self.dirty@ == before.dirty@,
                self.was_dirty@ == before.was_dirty@,
                self.awake@ == before.awake@,
                self.sleeping == before.sleeping,
                self.viewport == before.viewport,
                self.viewport_margin == before.viewport_margin,
                self.cells@.len() == before.cells@.len() + k,
                self.temps@.len() == before.temps@.len() + k,
                self.moved@.len() == before.moved@.len() + k,
                self.cells@.subrange(0, before.cells@.len() as int) == before.cells@,
                self.temps@.subrange(0, before.temps@.len() as int) == before.temps@,
                self.moved@.subrange(0, before.moved@.len() as int) == before.moved@,
                forall|p: int| before.cells@.len() <= p < self.cells@.len() ==> #[trigger] self.cells@[p] == EMPTY,
                forall|p: int| before.temps@.len() <= p < self.temps@.len() ==> #[trigger] self.temps@[p] == AMBIENT_TEMPERATURE,
                forall|p: int| before.moved@.len() <= p < self.moved@.len() ==> !#[trigger] self.moved@[p],
                forall|id: ElementId| id != EMPTY ==> #[trigger] self.cells@.to_multiset().count(id) == before.cells@.to_multiset().count(id),
            decreases CHUNK_AREA - k,
        {
            let ghost prior = self.cells@;
            self.cells.push(EMPTY);
            self.temps.push(AMBIENT_TEMPERATURE);
            self.moved.push(false);
            proof {
                assert(self.cells@ == prior.push(EMPTY));
                assert(self.cells@.subrange(0, before.cells@.len() as int) =~= before.cells@);
                assert(self.temps@.subrange(0, before.temps@.len() as int) =~= before.temps@);
                assert(self.moved@.subrange(0, before.moved@.len() as int) =~= before.moved@);
            }
            k = k + 1;
        }
        // A chunk that has just come into existence has never been simulated, so it
        // must run before it can be trusted to be at rest.
        self.dirty.push(true);
        self.was_dirty.push(true);
        self.awake.push(true);
        self.keys.insert(at, coord);
        self.slots.insert(at, block);
        proof {
            let n = before.keys@.len() as int;
            assert(self.cells@.len() == (n + 1) * CHUNK_AREA);
            assert forall|i: int, j: int| 0 <= i < j < self.keys@.len() implies coord_lt(#[trigger] self.keys@[i], #[trigger] self.keys@[j]) by {
                if j < at {
                } else if j == at {
                } else if i < at {
                    assert(coord_lt(before.keys@[i], coord));
                    assert(coord_lt(coord, before.keys@[j - 1]));
                } else if i == at {
                } else {
                    assert(coord_lt(before.keys@[i - 1], before.keys@[j - 1]));
                }
            }
            assert forall|i: int| 0 <= i < n + 1 implies #[trigger] self.slots@[i] < n + 1 by {
                if i < at {
                    assert(before.slots@[i] < n);
                } else if i > at {
                    assert(before.slots@[i - 1] < n);
                }
            }
            assert forall|i: int, j: int| 0 <= i < n + 1 && 0 <= j < n + 1 && i != j implies #[trigger] self.slots@[i] != #[trigger] self.slots@[j] by {
                let oi = if i < at { i } else { i - 1 };
                let oj = if j < at { j } else { j - 1 };
                if i != at && j != at {
                    assert(before.slots@[oi] != before.slots@[oj]);
                } else if i == at {
                    assert(before.slots@[oj] < n);
                } else {
                    assert(before.slots@[oi] < n);
                }
            }
            assert forall|b: int| 0 <= b < n + 1 implies 0 <= #[trigger] holder_of(self.slots@, b) < n + 1 && self.slots@[holder_of(self.slots@, b)] == b by {
                if b == n {
                    assert(self.slots@[at as int] == n);
                } else {
                    let h = holder_of(before.slots@, b);
                    assert(0 <= h < n && before.slots@[h] == b);
                    let nh = if h < at { h } else { h + 1 };
                    assert(self.slots@[nh] == b);
                }
            }
            assert forall|p: int| 0 <= p < self.cells@.len() && #[trigger] self.cells@[p] == EMPTY implies self.temps@[p] == AMBIENT_TEMPERATURE by {
                if p < before.cells@.len() {
                    assert(self.cells@[p] == before.cells@[p]);
                    assert(self.temps@[p] == before.temps@[p]);
                }
            }
            assert forall|i: int| 0 <= i < n + 1 implies key_in_plane(#[trigger] self.keys@[i]) by {
                if i < at {
                    assert(self.keys@[i] == before.keys@[i]);
                } else if i > at {
                    assert(self.keys@[i] == before.keys@[i - 1]);
                }
            }
            assert forall|i: int, o: int|
                0 <= i < n + 1 && 0 <= o < CHUNK_AREA && !offset_in_plane(self.keys@[i], o) implies #[trigger] self.cells@[self.slots@[i]
                    * CHUNK_AREA + o] == EMPTY by {
                if i == at {
                    lemma_block_index(n, o, n + 1);
                    assert(self.slots@[i] == n);
                    assert(n * CHUNK_AREA + o >= before.cells@.len());
                } else {
                    let oi = if i < at { i } else { i - 1 };
                    assert(self.keys@[i] == before.keys@[oi]);
                    assert(self.slots@[i] == before.slots@[oi]);
                    lemma_block_index(before.slots@[oi] as int, o, n);
                    assert(before.cells@[before.slots@[oi] * CHUNK_AREA + o] == EMPTY);
                    assert(self.cells@.subrange(0, before.cells@.len() as int)[before.slots@[oi] * CHUNK_AREA + o] == self.cells@[
                        before.slots@[oi] * CHUNK_AREA + o]);
                }
            }
            assert(self.wf());
            assert(self.keys@[at as int] == coord);
            self.lemma_key_index(at as int);
            assert forall|c: ChunkCoord| #[trigger] self.stored(c) <==> (before.stored(c) || c == coord) by {
                if self.stored(c) {
                    let i = choose|i: int| 0 <= i < self.keys@.len() && self.keys@[i] == c;
                    if i < at {
                        assert(before.keys@[i] == c);
                    } else if i > at {
                        assert(before.keys@[i - 1] == c);
                    }
                }
                if before.stored(c) {
                    let i = choose|i: int| 0 <= i < before.keys@.len() && before.keys@[i] == c;
                    let ni = if i < at { i } else { i + 1 };
                    assert(self.keys@[ni] == c);
                }
            }
            assert forall|x: i32, y: i32|
                self.cell(x, y) == before.cell(x, y) && self.heat_at(x, y) == before.heat_at(x, y)
                    && self.moved_at(x, y) == before.moved_at(x, y) by {
                let c = chunk_key(x, y);
                lemma_local_index(x, y);
                if c == coord {
                    assert(self.key_index(c) == at);
                    lemma_block_index(n, local_index(x, y), n + 1);
                    assert(self.position(x, y) == n * CHUNK_AREA + local_index(x, y));
                    assert(n * CHUNK_AREA + local_index(x, y) >= before.cells@.len());
                } else if before.stored(c) {
                    let i = before.key_index(c);
                    before.lemma_position(x, y);
                    let ni = if i < at { i } else { i + 1 };
                    assert(self.keys@[ni] == c);
                    self.lemma_key_index(ni);
                    assert(self.slots@[ni] == before.slots@[i]);
                    assert(self.position(x, y) == before.position(x, y));
                    assert(self.cells@[before.position(x, y)] == before.cells@[before.position(x, y)]);
                    assert(self.temps@[before.position(x, y)] == before.temps@[before.position(x, y)]);
                    assert(self.moved@[before.position(x, y)] == before.moved@[before.position(x, y)]);
                } else {
                    assert(!self.stored(c));
                }
            }
            assert(self.key_index(coord) == at);
            assert(self.slots@[at as int] == n);
            assert(self.keys@.len() == n + 1);
            assert forall|c: ChunkCoord| before.stored(c) implies #[trigger] self.chunk_dirty(c) == before.chunk_dirty(c)
                && self.chunk_was_dirty(c) == before.chunk_was_dirty(c) && self.chunk_awake(c) == before.chunk_awake(c) by {
                let i = before.key_index(c);
                before.lemma_key_index(i);
                assert(before.keys@[i] == c);
                let ni = if i < at { i } else { i + 1 };
                assert(self.keys@[ni] == c);
                self.lemma_key_index(ni);
                assert(self.slots@[ni] == before.slots@[i]);
                assert(before.slots@[i] < n);
                assert(self.dirty@[before.slots@[i] as int] == before.dirty@[before.slots@[i] as int]);
                assert(self.was_dirty@[before.slots@[i] as int] == before.was_dirty@[before.slots@[i] as int]);
                assert(self.awake@[before.slots@[i] as int] == before.awake@[before.slots@[i] as int]);
                assert(self.key_index(c) == ni);
            }
            assert(before == *old(self));
            assert forall|c: ChunkCoord| old(self).stored(c) implies #[trigger] self.chunk_dirty(c) == old(self).chunk_dirty(c)
                && self.chunk_was_dirty(c) == old(self).chunk_was_dirty(c) && self.chunk_awake(c) == old(self).chunk_awake(c) by {
                assert(before.stored(c));
            }
            assert(self.chunk_dirty(coord)) by {
                assert(self.key_index(coord) == at);
                assert(self.slots@[at as int] == n);
                assert(self.dirty@[n] == true);
            }
            ChunkMap::lemma_grown_flags(before, *self, coord);
            if before.all_awake() {
                assert forall|c: ChunkCoord| #[trigger] self.stored(c) implies self.chunk_awake(c) by {
                    if c == coord {
                        assert(self.key_index(c) == at);
                        assert(self.slots@[at as int] == n);
                        assert(self.awake@[n] == true);
                    } else {
                        assert(before.stored(c));
                        assert(before.chunk_awake(c));
                        let i = before.key_index(c);
                        before.lemma_key_index(i);
                        let ni = if i < at { i } else { i + 1 };
                        assert(self.keys@[ni] == c);
                        self.lemma_key_index(ni);
                        assert(self.slots@[ni] == before.slots@[i]);
                        assert(before.slots@[i] < n);
                        assert(self.awake@[before.slots@[i] as int] == before.awake@[before.slots@[i] as int]);
                    }
                }
            }
        }
        at
    }
}

impl CellField for ChunkMap {
    closed spec fn cell(&self, x: i32, y: i32) -> Option<ElementId> {
        if self.stored(chunk_key(x, y)) {
            Some(self.cells@[self.position(x, y)])
        } else {
            Some(EMPTY)
        }
    }

    closed spec fn heat_at(&self, x: i32, y: i32) -> i16 {
        if self.stored(chunk_key(x, y)) {
            self.temps@[self.position(x, y)]
        } else {
            AMBIENT_TEMPERATURE
        }
    }

    closed spec fn moved_at(&self, x: i32, y: i32) -> bool {
        self.stored(chunk_key(x, y)) && self.moved@[self.position(x, y)]
    }

    closed spec fn census(&self, id: ElementId) -> int {
        self.cells@.to_multiset().count(id) as int
    }

    closed spec fn region(&self) -> Option<Bounds> {
        keys_region(self.keys@)
    }

    open spec fn field_inv(&self) -> bool {
        self.wf()
    }

    /// Chunks come into existence as material reaches them, and wake and sleep, so
    /// nothing about the spans is fixed.
    open spec fn shape_fixed() -> bool {
        false
    }

    closed spec fn spans(&self, y: i32) -> Seq<(i32, i32)> {
        Seq::empty()
    }

    /// Every stored chunk is awake; a chunk that is not stored holds nothing.
    closed spec fn covers(&self) -> bool {
        self.all_awake()
    }

    open spec fn may_sleep(&self) -> bool {
        self.is_sleeping()
    }

    /// The chunk holding the cell was dirtied during the tick now running.
    open spec fn active_at(&self, x: i32, y: i32) -> bool {
        self.chunk_dirty(chunk_key(x, y))
    }

    /// Sleeping is off, or every stored chunk is next to a chunk dirtied during the
    /// tick now running or lies in the widened viewport.
    open spec fn wakes_all(&self) -> bool {
        !self.is_sleeping() || forall|c: ChunkCoord| #[trigger] self.stored(c) ==> self.near_activity(c) || self.in_view(c)
    }

    /// Sleeping is off, or the cell's chunk is next to a chunk dirtied during the tick
    /// now running or lies in the widened viewport.
    open spec fn wakes_at(&self, x: i32, y: i32) -> bool {
        !self.is_sleeping() || self.near_activity(chunk_key(x, y)) || self.in_view(chunk_key(x, y))
    }

    /// The cell's chunk is stored and awake.
    open spec fn awake_at(&self, x: i32, y: i32) -> bool {
        self.chunk_awake(chunk_key(x, y))
    }

    /// Every stored chunk is dirty.
    open spec fn all_active(&self) -> bool {
        forall|c: ChunkCoord| #[trigger] self.stored(c) ==> self.chunk_dirty(c)
    }

    proof fn lemma_field(&self, x: i32, y: i32) {
        let c = chunk_key(x, y);
        if self.stored(c) {
            self.lemma_position(x, y);
            let i = self.key_index(c);
            let n = self.keys@.len() as int;
            assert(coord_lt(self.keys@[0], self.keys@[i]) || i == 0);
            assert(coord_lt(self.keys@[i], self.keys@[n - 1]) || i == n - 1);
            lemma_row_range(self.keys@, n, i);
            vstd::arithmetic::div_mod::lemma_fundamental_div_mod(x as int, 144);
            vstd::arithmetic::div_mod::lemma_fundamental_div_mod(y as int, 144);
        }
    }

    /// Always `Some`. The canvas is infinite, so there is no boundary to report: an
    /// unallocated cell is empty space, not a wall.
    fn get(&self, x: i32, y: i32) -> (r: Option<ElementId>) {
        let (coord, index) = ChunkMap::locate(x, y);
        match self.slot(coord) {
            Some(i) => {
                let p = self.pos(i, index);
                Some(self.cells[p])
            },
            None => Some(EMPTY),
        }
    }

    /// Writing empty where no chunk is stored allocates none; any other write stores
    /// the cell's chunk, a new one dirty and awake. No chunk's flags change otherwise.
    #[verifier::spinoff_prover]
    fn set(&mut self, x: i32, y: i32, id: ElementId)
        ensures
            forall|c: ChunkCoord| #[trigger] final(self).stored(c) == (old(self).stored(c) || (c == chunk_key(x, y) && id != EMPTY)),
            final(self).blocks() == old(self).blocks() + (if !old(self).stored(chunk_key(x, y)) && id != EMPTY {
                1int
            } else {
                0int
            }),
            forall|c: ChunkCoord|
                old(self).stored(c) ==> #[trigger] final(self).chunk_dirty(c) == old(self).chunk_dirty(c) && final(self).chunk_was_dirty(c)
                    == old(self).chunk_was_dirty(c) && final(self).chunk_awake(c) == old(self).chunk_awake(c),
            id != EMPTY && !old(self).stored(chunk_key(x, y)) ==> final(self).chunk_dirty(chunk_key(x, y)) && final(self).chunk_was_dirty(
                chunk_key(x, y),
            ) && final(self).chunk_awake(chunk_key(x, y)),
            final(self).is_sleeping() == old(self).is_sleeping(),
            final(self).spec_viewport() == old(self).spec_viewport(),
            final(self).spec_margin() == old(self).spec_margin(),
    {
        let (coord, index) = ChunkMap::locate(x, y);
        // Writing empty into a chunk that does not exist would allocate a chunk to
        // store nothing.
        if id == EMPTY && self.slot(coord).is_none() {
            return;
        }
        let ghost before = *self;
        proof {
            lemma_key_in_plane(x, y);
        }
        let i = self.slot_or_create(coord);
        let ghost grown = *self;
        let p = self.pos(i, index);
        let ghost prior = self.cells@;
        self.cells.set(p, id);
        if id == EMPTY {
            self.temps.set(p, AMBIENT_TEMPERATURE);
        }
        proof {
            ChunkMap::lemma_same_keys(*self, grown);
            ChunkMap::lemma_same_flags(*self, grown);
            ChunkMap::lemma_same_awake(*self, grown);
            assert forall|c: ChunkCoord| before.stored(c) implies #[trigger] self.chunk_dirty(c) == before.chunk_dirty(c)
                && self.chunk_was_dirty(c) == before.chunk_was_dirty(c) && self.chunk_awake(c) == before.chunk_awake(c) by {
                assert(grown.chunk_dirty(c) == before.chunk_dirty(c));
                assert(self.chunk_dirty(c) == grown.chunk_dirty(c));
            }
            assert(grown.position(x, y) == p);
            assert(grown.cell(x, y) == before.cell(x, y));
            assert(grown.heat_at(x, y) == before.heat_at(x, y));
            assert(grown.cell(x, y) == Some(prior[p as int]));
            assert forall|a: i32, b: i32| !(a == x && b == y) implies #[trigger] self.cell(a, b) == before.cell(a, b)
                && self.heat_at(a, b) == before.heat_at(a, b) by {
                assert(grown.cell(a, b) == before.cell(a, b) && grown.heat_at(a, b) == before.heat_at(a, b));
                if grown.stored(chunk_key(a, b)) {
                    grown.lemma_position_distinct(a, b, x, y);
                    grown.lemma_position(a, b);
                }
            }
            assert forall|a: i32, b: i32| #[trigger] self.moved_at(a, b) == before.moved_at(a, b) by {
                assert(grown.moved_at(a, b) == before.moved_at(a, b));
            }
            assert forall|k: ElementId| k != EMPTY implies #[trigger] self.census(k) == before.census(k) - (if prior[p as int] == k {
                1int
            } else {
                0
            }) + (if id == k {
                1int
            } else {
                0
            }) by {
                assert(grown.census(k) == before.census(k));
                assert(self.cells@.to_multiset() == prior.to_multiset().insert(id).remove(prior[p as int]));
                assert(prior.to_multiset().count(prior[p as int]) > 0);
                broadcast use {vstd::multiset::group_multiset_axioms, vstd::multiset::group_multiset_properties};
            }
            assert(before == *old(self));
            assert forall|c: ChunkCoord| old(self).stored(c) implies #[trigger] self.chunk_dirty(c) == old(self).chunk_dirty(c)
                && self.chunk_was_dirty(c) == old(self).chunk_was_dirty(c) && self.chunk_awake(c) == old(self).chunk_awake(c) by {
                assert(grown.chunk_dirty(c) == before.chunk_dirty(c));
                assert(self.chunk_dirty(c) == grown.chunk_dirty(c));
                assert(self.chunk_was_dirty(c) == grown.chunk_was_dirty(c));
                assert(self.chunk_awake(c) == grown.chunk_awake(c));
            }
            ChunkMap::lemma_wake_kept(grown, *self);
        }
    }

    /// Across a chunk boundary, a swap of two cells that already agree in contents and
    /// temperature changes nothing. Any other swap stores both cells' chunks, a new one
    /// with its flags set, and marks both dirty; no other chunk's flags change.
    #[verifier::spinoff_prover]
    #[verifier::rlimit(40)]
    fn swap(&mut self, ax: i32, ay: i32, bx: i32, by: i32)
        ensures
            ({
                let ka = chunk_key(ax, ay);
                let kb = chunk_key(bx, by);
                let quiet = ka != kb && old(self).cell(ax, ay) == old(self).cell(bx, by) && old(self).heat_at(ax, ay) == old(self).heat_at(
                    bx,
                    by,
                );
                &&& quiet ==> *final(self) == *old(self)
                &&& !quiet ==> forall|c: ChunkCoord| #[trigger] final(self).stored(c) == (old(self).stored(c) || c == ka || c == kb)
                &&& !quiet ==> final(self).blocks() == old(self).blocks() + (if old(self).stored(ka) { 0int } else { 1int }) + (if kb
                    == ka || old(self).stored(kb) {
                    0int
                } else {
                    1int
                })
                &&& !quiet ==> final(self).chunk_dirty(ka) && final(self).chunk_dirty(kb)
                &&& !quiet ==> forall|c: ChunkCoord|
                    c != ka && c != kb && old(self).stored(c) ==> #[trigger] final(self).chunk_dirty(c) == old(self).chunk_dirty(c)
                &&& !quiet ==> forall|c: ChunkCoord|
                    old(self).stored(c) ==> #[trigger] final(self).chunk_was_dirty(c) == old(self).chunk_was_dirty(c)
                        && final(self).chunk_awake(c) == old(self).chunk_awake(c)
                &&& !quiet ==> forall|c: ChunkCoord|
                    (c == ka || c == kb) && !old(self).stored(c) ==> #[trigger] final(self).chunk_was_dirty(c) && final(self).chunk_awake(c)
            }),
            final(self).is_sleeping() == old(self).is_sleeping(),
            final(self).spec_viewport() == old(self).spec_viewport(),
            final(self).spec_margin() == old(self).spec_margin(),
    {
        let (a_coord, a_index) = ChunkMap::locate(ax, ay);
        let (b_coord, b_index) = ChunkMap::locate(bx, by);
        let same_chunk = a_coord.0 == b_coord.0 && a_coord.1 == b_coord.1;
        if !same_chunk {
            // Across a chunk boundary, a swap of identical contents changes nothing and
            // reports nothing.
            let a_value = CellField::get(self, ax, ay);
            let b_value = CellField::get(self, bx, by);
            if a_value == b_value && CellField::temperature(self, ax, ay) == CellField::temperature(self, bx, by) {
                return;
            }
        }
        let ghost before = *self;
        proof {
            lemma_key_in_plane(ax, ay);
            lemma_key_in_plane(bx, by);
        }
        self.slot_or_create(a_coord);
        let ghost first = *self;
        self.slot_or_create(b_coord);
        let ghost grown = *self;
        let ia = self.slot(a_coord).unwrap();
        let ib = self.slot(b_coord).unwrap();
        let pa = self.pos(ia, a_index);
        let pb = self.pos(ib, b_index);
        let ghost prior = self.cells@;
        let cell_a = self.cells[pa];
        let cell_b = self.cells[pb];
        let temp_a = self.temps[pa];
        let temp_b = self.temps[pb];
        self.cells.set(pa, cell_b);
        self.cells.set(pb, cell_a);
        self.temps.set(pa, temp_b);
        self.temps.set(pb, temp_a);
        let block_a = self.slots[ia];
        let block_b = self.slots[ib];
        self.dirty.set(block_a, true);
        self.dirty.set(block_b, true);
        proof {
            let ka = chunk_key(ax, ay);
            let kb = chunk_key(bx, by);
            ChunkMap::lemma_same_rest(*self, grown);
            grown.lemma_key_index(ia as int);
            grown.lemma_key_index(ib as int);
            assert(grown.key_index(ka) == ia);
            assert(grown.key_index(kb) == ib);
            assert(self.chunk_dirty(ka));
            assert(self.chunk_dirty(kb));
            assert(first.stored(ka));
            assert forall|c: ChunkCoord| c != ka && c != kb && before.stored(c) implies #[trigger] self.chunk_dirty(c) == before.chunk_dirty(c) by {
                assert(first.chunk_dirty(c) == before.chunk_dirty(c));
                assert(first.stored(c));
                assert(grown.chunk_dirty(c) == first.chunk_dirty(c));
                assert(grown.stored(c));
                let j = grown.key_index(c);
                grown.lemma_key_index(j);
                assert(j != ia as int);
                assert(j != ib as int);
                assert(grown.slots@[j] != grown.slots@[ia as int]);
                assert(grown.slots@[j] != grown.slots@[ib as int]);
                assert(self.key_index(c) == j);
            }
            assert forall|c: ChunkCoord| before.stored(c) implies #[trigger] self.chunk_was_dirty(c) == before.chunk_was_dirty(c)
                && self.chunk_awake(c) == before.chunk_awake(c) by {
                assert(first.chunk_dirty(c) == before.chunk_dirty(c));
                assert(first.stored(c));
                assert(grown.chunk_dirty(c) == first.chunk_dirty(c));
                assert(self.chunk_was_dirty(c) == grown.chunk_was_dirty(c));
                assert(self.chunk_awake(c) == grown.chunk_awake(c));
            }
            assert forall|c: ChunkCoord| (c == ka || c == kb) && !before.stored(c) implies #[trigger] self.chunk_was_dirty(c)
                && self.chunk_awake(c) by {
                assert(self.chunk_was_dirty(c) == grown.chunk_was_dirty(c));
                assert(self.chunk_awake(c) == grown.chunk_awake(c));
                if c == ka {
                    assert(first.chunk_dirty(c));
                    assert(grown.chunk_dirty(c) == first.chunk_dirty(c));
                } else {
                    assert(!first.stored(c));
                }
            }
        }
        proof {
            assert(grown.position(ax, ay) == pa);
            assert(grown.position(bx, by) == pb);
            assert(grown.cell(ax, ay) == before.cell(ax, ay));
            assert(grown.heat_at(ax, ay) == before.heat_at(ax, ay));
            assert(grown.cell(bx, by) == before.cell(bx, by));
            assert(grown.heat_at(bx, by) == before.heat_at(bx, by));
            assert forall|k: ElementId| k != EMPTY implies #[trigger] grown.census(k) == before.census(k) by {}
            let s1 = prior.update(pa as int, cell_b);
            assert(s1.to_multiset() == prior.to_multiset().insert(cell_b).remove(cell_a));
            assert(s1.update(pb as int, cell_a).to_multiset() == s1.to_multiset().insert(cell_a).remove(s1[pb as int]));
            broadcast use {vstd::multiset::group_multiset_axioms, vstd::multiset::group_multiset_properties};
            if pa == pb {
                assert(s1.update(pb as int, cell_a) =~= prior);
            } else {
                assert(s1[pb as int] == cell_b);
                assert(prior.to_multiset().insert(cell_b).remove(cell_a).insert(cell_a).remove(cell_b) =~= prior.to_multiset());
            }
            if !(ax == bx && ay == by) {
                grown.lemma_position_distinct(ax, ay, bx, by);
            }
            ChunkMap::lemma_same_keys(*self, grown);
            assert forall|d: ChunkCoord| #[trigger] grown.chunk_dirty(d) implies self.chunk_dirty(d) by {
                assert(self.key_index(d) == grown.key_index(d));
            }
            ChunkMap::lemma_wake_kept(grown, *self);
            assert forall|k: ElementId| k != EMPTY implies #[trigger] self.census(k) == before.census(k) by {
                assert(grown.census(k) == before.census(k));
            }
            assert forall|i: i32, j: i32| !(i == ax && j == ay) && !(i == bx && j == by) implies #[trigger] self.cell(i, j)
                == before.cell(i, j) && self.heat_at(i, j) == before.heat_at(i, j) by {
                assert(grown.cell(i, j) == before.cell(i, j) && grown.heat_at(i, j) == before.heat_at(i, j));
                if grown.stored(chunk_key(i, j)) {
                    grown.lemma_position_distinct(i, j, ax, ay);
                    grown.lemma_position_distinct(i, j, bx, by);
                    grown.lemma_position(i, j);
                }
            }
            assert forall|i: i32, j: i32| #[trigger] self.moved_at(i, j) == before.moved_at(i, j) by {
                assert(grown.moved_at(i, j) == before.moved_at(i, j));
            }
            ChunkMap::lemma_same_awake(*self, grown);
        }
    }

    fn is_moved(&self, x: i32, y: i32) -> (r: bool) {
        let (coord, index) = ChunkMap::locate(x, y);
        match self.slot(coord) {
            Some(i) => {
                let p = self.pos(i, index);
                self.moved[p]
            },
            None => false,
        }
    }

    #[verifier::spinoff_prover]
    fn mark_moved(&mut self, x: i32, y: i32) {
        let (coord, index) = ChunkMap::locate(x, y);
        let ghost before = *self;
        proof {
            lemma_key_in_plane(x, y);
        }
        let i = self.slot_or_create(coord);
        let ghost grown = *self;
        let p = self.pos(i, index);
        self.moved.set(p, true);
        proof {
            ChunkMap::lemma_same_awake(*self, grown);
            ChunkMap::lemma_same_keys(*self, grown);
            assert(grown.position(x, y) == p);
            assert forall|k: ElementId| k != EMPTY implies #[trigger] self.census(k) == before.census(k) by {
                assert(grown.census(k) == before.census(k));
            }
            assert forall|a: i32, b: i32| !(a == x && b == y) implies #[trigger] self.moved_at(a, b) == before.moved_at(a, b) by {
                assert(grown.moved_at(a, b) == before.moved_at(a, b));
                if grown.stored(chunk_key(a, b)) {
                    grown.lemma_position_distinct(a, b, x, y);
                }
            }
            assert forall|a: i32, b: i32| #[trigger] self.cell(a, b) == before.cell(a, b) && self.heat_at(a, b) == before.heat_at(a, b) by {
                assert(grown.cell(a, b) == before.cell(a, b) && grown.heat_at(a, b) == before.heat_at(a, b));
            }
            ChunkMap::lemma_same_flags(*self, grown);
            ChunkMap::lemma_wake_kept(grown, *self);
        }
    }

    /// Marks the chunk holding `(x, y)` as having changed this tick, creating it if it is
    /// not stored; nothing else about any chunk changes.
    #[verifier::spinoff_prover]
    fn mark_active(&mut self, x: i32, y: i32)
        ensures
            final(self).chunk_dirty(chunk_key(x, y)),
            forall|c: ChunkCoord| #[trigger] final(self).stored(c) == (old(self).stored(c) || c == chunk_key(x, y)),
            forall|c: ChunkCoord| c != chunk_key(x, y) ==> #[trigger] final(self).chunk_dirty(c) == old(self).chunk_dirty(c),
            forall|c: ChunkCoord|
                old(self).stored(c) ==> #[trigger] final(self).chunk_was_dirty(c) == old(self).chunk_was_dirty(c) && final(self).chunk_awake(c)
                    == old(self).chunk_awake(c),
            !old(self).stored(chunk_key(x, y)) ==> final(self).chunk_was_dirty(chunk_key(x, y)) && final(self).chunk_awake(chunk_key(x, y)),
            final(self).is_sleeping() == old(self).is_sleeping(),
            final(self).spec_viewport() == old(self).spec_viewport(),
            final(self).spec_margin() == old(self).spec_margin(),
    {
        let (coord, _) = ChunkMap::locate(x, y);
        let ghost before = *self;
        proof {
            lemma_key_in_plane(x, y);
        }
        let i = self.slot_or_create(coord);
        let ghost grown = *self;
        let block = self.slots[i];
        self.dirty.set(block, true);
        proof {
            ChunkMap::lemma_same_keys(*self, grown);
            assert forall|d: ChunkCoord| #[trigger] grown.chunk_dirty(d) implies self.chunk_dirty(d) by {
                assert(self.key_index(d) == grown.key_index(d));
            }
            ChunkMap::lemma_wake_kept(grown, *self);
            grown.lemma_key_index(i as int);
            assert forall|c: ChunkCoord| c != coord implies #[trigger] self.chunk_dirty(c) == grown.chunk_dirty(c) by {
                if grown.stored(c) {
                    let j = grown.key_index(c);
                    grown.lemma_key_index(j);
                    assert(j != i);
                    assert(grown.slots@[j] != grown.slots@[i as int]);
                    assert(self.key_index(c) == j);
                    assert(self.dirty@[grown.slots@[j] as int] == grown.dirty@[grown.slots@[j] as int]);
                }
            }
            ChunkMap::lemma_same_rest(*self, grown);
            assert(before == *old(self));
            assert forall|c: ChunkCoord| old(self).stored(c) implies #[trigger] self.chunk_was_dirty(c) == old(self).chunk_was_dirty(c)
                && self.chunk_awake(c) == old(self).chunk_awake(c) by {
                assert(self.chunk_was_dirty(c) == grown.chunk_was_dirty(c));
                assert(self.chunk_awake(c) == grown.chunk_awake(c));
                assert(grown.chunk_dirty(c) == before.chunk_dirty(c));
            }
            ChunkMap::lemma_same_awake(*self, grown);
            ChunkMap::lemma_same_model(*self, grown);
            assert forall|k: ElementId| k != EMPTY implies #[trigger] self.census(k) == before.census(k) by {
                assert(grown.census(k) == before.census(k));
            }
            assert forall|a: i32, b: i32| #[trigger] self.cell(a, b) == before.cell(a, b) && self.heat_at(a, b) == before.heat_at(a, b) by {
                assert(grown.cell(a, b) == before.cell(a, b) && grown.heat_at(a, b) == before.heat_at(a, b));
            }
            assert forall|a: i32, b: i32| #[trigger] self.moved_at(a, b) == before.moved_at(a, b) by {
                assert(grown.moved_at(a, b) == before.moved_at(a, b));
            }
        }
    }

    fn temperature(&self, x: i32, y: i32) -> (r: i16) {
        let (coord, index) = ChunkMap::locate(x, y);
        match self.slot(coord) {
            Some(i) => {
                let p = self.pos(i, index);
                self.temps[p]
            },
            None => AMBIENT_TEMPERATURE,
        }
    }

    fn set_temperature(&mut self, x: i32, y: i32, value: i16) {
        let (coord, index) = ChunkMap::locate(x, y);
        let ghost before = *self;
        match self.slot(coord) {
            Some(i) => {
                let p = self.pos(i, index);
                if self.cells[p] != EMPTY {
                    self.temps.set(p, value);
                    proof {
                        ChunkMap::lemma_same_awake(*self, before);
                        ChunkMap::lemma_same_keys(*self, before);
                        ChunkMap::lemma_same_flags(*self, before);
                        ChunkMap::lemma_wake_kept(before, *self);
                        assert(before.position(x, y) == p);
                        assert forall|a: i32, b: i32| !(a == x && b == y) implies #[trigger] self.cell(a, b) == before.cell(a, b)
                            && self.heat_at(a, b) == before.heat_at(a, b) by {
                            if before.stored(chunk_key(a, b)) {
                                before.lemma_position_distinct(a, b, x, y);
                                before.lemma_position(a, b);
                            }
                        }
                    }
                }
            },
            None => {},
        }
    }

    /// Clears the moved flags, carries each chunk's activity over to `was_dirty`, and
    /// wakes exactly the chunks that must run: all of them unless sleeping is on, and
    /// otherwise those next to last tick's activity or in view.
    #[verifier::spinoff_prover]
    fn begin_tick(&mut self)
        ensures
            final(self).spec_keys() == old(self).spec_keys(),
            final(self).is_sleeping() == old(self).is_sleeping(),
            final(self).spec_viewport() == old(self).spec_viewport(),
            final(self).spec_margin() == old(self).spec_margin(),
            forall|c: ChunkCoord| #[trigger] final(self).stored(c) == old(self).stored(c),
            forall|c: ChunkCoord| !#[trigger] final(self).chunk_dirty(c),
            forall|c: ChunkCoord| #[trigger] final(self).chunk_was_dirty(c) == old(self).chunk_dirty(c),
            forall|c: ChunkCoord|
                old(self).stored(c) ==> #[trigger] final(self).chunk_awake(c) == (!old(self).is_sleeping() || old(self).near_activity(c)
                    || old(self).in_view(c)),
            !old(self).is_sleeping() ==> final(self).all_awake(),
    {
        self.begin_tick_impl();
        proof {
            if !old(self).sleeping {
                assert forall|c: ChunkCoord| #[trigger] self.stored(c) implies self.chunk_awake(c) by {
                    assert(old(self).stored(c));
                }
            }
        }
    }

    fn bounds(&self) -> (r: Option<Bounds>) {
        let n = self.keys.len();
        if n == 0 {
            return None;
        }
        let mut min_y: i32 = self.keys[0].1;
        let mut max_y: i32 = self.keys[0].1;
        let mut i: usize = 1;
        while i < n
            invariant
                1 <= i <= n,
                n == self.keys@.len(),
                min_y == min_row(self.keys@, i as int),
                max_y == max_row(self.keys@, i as int),
            decreases n - i,
        {
            let row = self.keys[i].1;
            if row < min_y {
                min_y = row;
            }
            if row > max_y {
                max_y = row;
            }
            i = i + 1;
        }
        let size: i64 = 144;
        Some(
            Bounds {
                min_x: clip(self.keys[0].0 as i64 * size),
                min_y: clip(min_y as i64 * size),
                max_x: clip(self.keys[n - 1].0 as i64 * size + size - 1),
                max_y: clip(max_y as i64 * size + size - 1),
            },
        )
    }

    /// Awake chunk columns on the chunk row containing `y`, merged into contiguous
    /// cell spans, ascending.
    fn active_spans(&self, y: i32, out: &mut Vec<(i32, i32)>) {
        let (chunk_y, _) = split(y);
        let ghost fresh = old(out)@.len() == 0;
        let ghost mut last: int = 0;
        let mut i: usize = 0;
        while i < self.keys.len()
            invariant
                self.wf(),
                i <= self.keys@.len(),
                out@.len() >= old(out)@.len(),
                fresh == (old(out)@.len() == 0),
                chunk_y == chunk_of(y as int),
                fresh ==> spans_sorted(out@),
                fresh && out@.len() > 0 ==> out@[out@.len() - 1].1 == clip_i32(last * 144 + 143) && -14913081 <= last <= 14913080,
                fresh && out@.len() > 0 ==> forall|j: int| i <= j < self.keys@.len() && (#[trigger] self.keys@[j]).1 == chunk_y ==> self.keys@[j].0 > last,
                fresh ==> forall|j: int, x: i32|
                    0 <= j < i && (#[trigger] self.keys@[j]).1 == chunk_y && self.awake@[self.slots@[j] as int] && chunk_of(x as int) == self.keys@[j].0 ==> #[trigger] in_spans(out@, x as int),
            decreases self.keys@.len() - i,
        {
            let key = self.keys[i];
            let ghost prior = out@;
            if key.1 == chunk_y && self.awake[self.slots[i]] {
                proof {
                    assert(key_in_plane(self.keys@[i as int]));
                }
                let start: i32 = clip(key.0 as i64 * 144);
                let end: i32 = clip(key.0 as i64 * 144 + 143);
                let len = out.len();
                if len > 0 && out[len - 1].1 as i64 + 1 == start as i64 {
                    // Neighbouring chunks make one continuous run; merging them keeps
                    // the sweep from restarting every chunk.
                    let first = out[len - 1].0;
                    out.set(len - 1, (first, end));
                } else {
                    out.push((start, end));
                }
                proof {
                    if fresh {
                        assert(start <= end);
                        if prior.len() > 0 {
                            assert(key.0 > last);
                            assert(start as int == key.0 * 144);
                            assert(prior[prior.len() - 1].1 == last * 144 + 143);
                            assert(prior[prior.len() - 1].1 < start);
                        }
                        assert(spans_sorted(out@)) by {
                            let n = out@.len();
                            assert forall|j: int, k: int| 0 <= j < k < n implies #[trigger] out@[j].1 < #[trigger] out@[k].0 by {
                                if k < prior.len() - 1 || (k < prior.len() && n > prior.len()) {
                                    assert(out@[j] == prior[j] && out@[k] == prior[k]);
                                } else if n > prior.len() {
                                    let p = prior.len() - 1;
                                    assert(out@[j] == prior[j]);
                                    if j < p {
                                        assert(prior[j].1 < prior[p].0);
                                        assert(prior[p].0 <= prior[p].1);
                                    }
                                } else {
                                    assert(out@[j] == prior[j]);
                                    assert(out@[k].0 == prior[k].0);
                                }
                            }
                            assert forall|k: int| 0 <= k < n implies #[trigger] out@[k].0 <= out@[k].1 by {
                                if k < prior.len() && !(k == prior.len() - 1 && n == prior.len()) {
                                    assert(out@[k] == prior[k]);
                                } else if n == prior.len() {
                                    assert(out@[k].0 == prior[k].0);
                                    assert(prior[k].0 <= prior[k].1);
                                }
                            }
                        }
                        assert forall|j: int, x: i32|
                            0 <= j < i + 1 && (#[trigger] self.keys@[j]).1 == chunk_y && self.awake@[self.slots@[j] as int] && chunk_of(x as int)
                                == self.keys@[j].0 implies #[trigger] in_spans(out@, x as int) by {
                            if j < i {
                                assert(in_spans(prior, x as int));
                                let k = choose|k: int| 0 <= k < prior.len() && #[trigger] prior[k].0 <= x <= prior[k].1;
                                if k < prior.len() - 1 || out@.len() > prior.len() {
                                    assert(out@[k] == prior[k]);
                                } else {
                                    assert(out@[k].0 == prior[k].0 && out@[k].1 >= prior[k].1);
                                }
                            } else {
                                vstd::arithmetic::div_mod::lemma_fundamental_div_mod(x as int, 144);
                                let k = (out@.len() - 1) as int;
                                assert(out@[k].0 <= x <= out@[k].1);
                            }
                        }
                    }
                    last = key.0 as int;
                }
            }
            i = i + 1;
        }
        proof {
            if fresh && self.all_awake() {
                assert forall|x: i32| self.cell(x, y) is Some && self.cell(x, y) != Some(EMPTY) implies #[trigger] in_spans(out@, x as int) by {
                    let c = chunk_key(x, y);
                    assert(self.stored(c));
                    assert(self.chunk_awake(c));
                    let j = self.key_index(c);
                    assert(0 <= j < self.keys@.len() && self.keys@[j] == c);
                }
            }
        }
    }
}


/// How many of the first `n` flags are set.
pub open spec fn count_true(s: Seq<bool>, n: int) -> nat
    decreases n,
{
    if n <= 0 {
        0
    } else {
        count_true(s, n - 1) + if s[n - 1] {
            1nat
        } else {
            0nat
        }
    }
}

/// Only one strictly ascending list holds a given set of chunk positions.
pub proof fn lemma_sorted_unique(a: Seq<ChunkCoord>, b: Seq<ChunkCoord>)
    requires
        sorted_coords(a),
        sorted_coords(b),
        forall|c: ChunkCoord| a.contains(c) <==> b.contains(c),
    ensures
        a == b,
    decreases a.len(),
{
    if a.len() == 0 {
        if b.len() > 0 {
            assert(b.contains(b[0]));
        }
        assert(a =~= b);
    } else {
        assert(a.contains(a[0]));
        assert(b.contains(a[0]));
        assert(b.len() > 0);
        assert(b.contains(b[0]));
        assert(a.contains(b[0]));
        let i = choose|i: int| 0 <= i < a.len() && a[i] == b[0];
        let j = choose|j: int| 0 <= j < b.len() && b[j] == a[0];
        if i > 0 && j > 0 {
            assert(coord_lt(a[0], a[i]));
            assert(coord_lt(b[0], b[j]));
        }
        assert(a[0] == b[0]);
        let ta = a.subrange(1, a.len() as int);
        let tb = b.subrange(1, b.len() as int);
        assert forall|c: ChunkCoord| ta.contains(c) <==> tb.contains(c) by {
            if ta.contains(c) {
                let k = choose|k: int| 0 <= k < ta.len() && ta[k] == c;
                assert(a[k + 1] == c);
                assert(coord_lt(a[0], a[k + 1]));
                assert(b.contains(c));
                let m = choose|m: int| 0 <= m < b.len() && b[m] == c;
                assert(m != 0);
                assert(tb[m - 1] == c);
            }
            if tb.contains(c) {
                let k = choose|k: int| 0 <= k < tb.len() && tb[k] == c;
                assert(b[k + 1] == c);
                assert(coord_lt(b[0], b[k + 1]));
                assert(a.contains(c));
                let m = choose|m: int| 0 <= m < a.len() && a[m] == c;
                assert(m != 0);
                assert(ta[m - 1] == c);
            }
        }
        assert(sorted_coords(ta));
        assert(sorted_coords(tb));
        lemma_sorted_unique(ta, tb);
        assert(a =~= seq![a[0]] + ta);
        assert(b =~= seq![b[0]] + tb);
    }
}

/// Keeping some of an ascending list keeps it ascending.
pub proof fn lemma_filter_sorted(s: Seq<ChunkCoord>, pred: spec_fn(ChunkCoord) -> bool)
    requires
        sorted_coords(s),
    ensures
        sorted_coords(s.filter(pred)),
    decreases s.len(),
{
    broadcast use vstd::seq_lib::group_seq_lib_default;

    if s.len() == 0 {
        assert(s.filter(pred) =~= s);
    } else {
        let front = s.drop_last();
        assert(sorted_coords(front));
        lemma_filter_sorted(front, pred);
        assert(s =~= front.push(s.last()));
        front.lemma_filter_push(s.last(), pred);
        let kept = front.filter(pred);
        if pred(s.last()) {
            assert forall|k: int| 0 <= k < kept.len() implies coord_lt(#[trigger] kept[k], s.last()) by {
                assert(kept.contains(kept[k]));
                front.lemma_filter_contains_rev(pred, kept[k]);
                let m = choose|m: int| 0 <= m < front.len() && front[m] == kept[k];
                assert(s[m] == kept[k]);
            }
            assert forall|i: int, j: int| 0 <= i < j < kept.push(s.last()).len() implies coord_lt(
                #[trigger] kept.push(s.last())[i],
                #[trigger] kept.push(s.last())[j],
            ) by {
                if j == kept.len() {
                    assert(coord_lt(kept[i], s.last()));
                } else {
                    assert(coord_lt(kept[i], kept[j]));
                }
            }
        }
    }
}

/// The places among the first `k` of `s` that hold `id`.
pub open spec fn places_holding(s: Seq<ElementId>, id: ElementId, k: int) -> Set<int> {
    Set::new(|p: int| 0 <= p < k && s[p] == id)
}

/// How often `id` occurs among the first `k` places is how many of them hold it.
proof fn lemma_count_places(s: Seq<ElementId>, id: ElementId, k: int)
    requires
        0 <= k <= s.len(),
    ensures
        places_holding(s, id, k).finite(),
        s.subrange(0, k).to_multiset().count(id) == places_holding(s, id, k).len(),
    decreases k,
{
    broadcast use vstd::seq_lib::group_to_multiset_ensures;
    broadcast use vstd::set::group_set_axioms;

    if k == 0 {
        assert(places_holding(s, id, 0) =~= Set::empty());
        assert(s.subrange(0, 0) =~= Seq::<ElementId>::empty());
    } else {
        lemma_count_places(s, id, k - 1);
        assert(s.subrange(0, k) =~= s.subrange(0, k - 1).push(s[k - 1]));
        if s[k - 1] == id {
            assert(places_holding(s, id, k) =~= places_holding(s, id, k - 1).insert(k - 1));
            assert(!places_holding(s, id, k - 1).contains(k - 1));
        } else {
            assert(places_holding(s, id, k) =~= places_holding(s, id, k - 1));
        }
    }
}

/// Where the first `n` flags are all set, `n` of them are.
pub proof fn lemma_count_all(s: Seq<bool>, n: int)
    requires
        0 <= n <= s.len(),
        forall|i: int| 0 <= i < n ==> #[trigger] s[i],
    ensures
        count_true(s, n) == n,
    decreases n,
{
    if n > 0 {
        lemma_count_all(s, n - 1);
    }
}

/// Cells within one of each other lie in chunks within one of each other.
pub proof fn lemma_near_cells_touch(x: i32, y: i32, i: i32, j: i32)
    requires
        -1 <= i - x <= 1,
        -1 <= j - y <= 1,
    ensures
        touching(chunk_key(x, y), chunk_key(i, j)),
{
    vstd::arithmetic::div_mod::lemma_fundamental_div_mod(x as int, 144);
    vstd::arithmetic::div_mod::lemma_fundamental_div_mod(y as int, 144);
    vstd::arithmetic::div_mod::lemma_fundamental_div_mod(i as int, 144);
    vstd::arithmetic::div_mod::lemma_fundamental_div_mod(j as int, 144);
    assert(-1 <= x as int / 144 - i as int / 144 <= 1) by (nonlinear_arith)
        requires
            x == 144 * (x as int / 144) + x as int % 144,
            i == 144 * (i as int / 144) + i as int % 144,
            0 <= x as int % 144 < 144,
            0 <= i as int % 144 < 144,
            -1 <= i - x <= 1,
    ;
    assert(-1 <= y as int / 144 - j as int / 144 <= 1) by (nonlinear_arith)
        requires
            y == 144 * (y as int / 144) + y as int % 144,
            j == 144 * (j as int / 144) + j as int % 144,
            0 <= y as int % 144 < 144,
            0 <= j as int % 144 < 144,
            -1 <= j - y <= 1,
    ;
    lemma_key_in_plane(x, y);
    lemma_key_in_plane(i, j);
}

/// Whether chunk rows and columns `a` and `b` are within one of each other.
pub open spec fn touching(a: ChunkCoord, b: ChunkCoord) -> bool {
    -1 <= a.0 - b.0 <= 1 && -1 <= a.1 - b.1 <= 1
}

impl ChunkMap {
    /// Something moved in stored chunk `c` during the tick now running.
    pub closed spec fn chunk_dirty(&self, c: ChunkCoord) -> bool {
        self.stored(c) && self.dirty@[self.slots@[self.key_index(c)] as int]
    }

    /// Something moved in stored chunk `c` during the previous tick.
    pub closed spec fn chunk_was_dirty(&self, c: ChunkCoord) -> bool {
        self.stored(c) && self.was_dirty@[self.slots@[self.key_index(c)] as int]
    }

    /// Stored chunk `c` is being simulated this tick.
    pub closed spec fn chunk_awake(&self, c: ChunkCoord) -> bool {
        self.stored(c) && self.awake@[self.slots@[self.key_index(c)] as int]
    }

    /// Every stored chunk is being simulated this tick.
    pub closed spec fn all_awake(&self) -> bool {
        forall|c: ChunkCoord| #[trigger] self.stored(c) ==> self.chunk_awake(c)
    }

    pub closed spec fn is_sleeping(&self) -> bool {
        self.sleeping
    }

    pub closed spec fn spec_viewport(&self) -> Option<Bounds> {
        self.viewport
    }

    pub closed spec fn spec_margin(&self) -> i32 {
        self.viewport_margin
    }

    /// The viewport in chunks, widened by the margin.
    pub open spec fn view_box(&self) -> Option<(int, int, int, int)> {
        match self.spec_viewport() {
            Some(v) => Some(
                (
                    chunk_of(v.min_x as int) - self.spec_margin(),
                    chunk_of(v.min_y as int) - self.spec_margin(),
                    chunk_of(v.max_x as int) + self.spec_margin(),
                    chunk_of(v.max_y as int) + self.spec_margin(),
                ),
            ),
            None => None,
        }
    }

    pub open spec fn in_view(&self, c: ChunkCoord) -> bool {
        match self.view_box() {
            Some((min_x, min_y, max_x, max_y)) => min_x <= c.0 <= max_x && min_y <= c.1 <= max_y,
            None => false,
        }
    }

    /// Whether a stored chunk at or next to `c` was dirty.
    pub open spec fn near_activity(&self, c: ChunkCoord) -> bool {
        exists|d: ChunkCoord| #[trigger] self.chunk_dirty(d) && touching(c, d)
    }

    /// Enables viewport-gated sleeping.
    ///
    /// A chunk sleeps only when it is quiescent: nothing moved in it or in any
    /// neighbour last tick. The viewport gate can only keep more chunks awake, never
    /// fewer, so it costs CPU and cannot alter the world.
    pub fn set_sleeping(&mut self, enabled: bool)
        requires
            old(self).wf(),
        ensures
            final(self).wf(),
            final(self).is_sleeping() == enabled,
            final(self).spec_keys() == old(self).spec_keys(),
            final(self).spec_viewport() == old(self).spec_viewport(),
            final(self).spec_margin() == old(self).spec_margin(),
            forall|c: ChunkCoord| #[trigger] final(self).chunk_awake(c) == old(self).chunk_awake(c),
            forall|c: ChunkCoord| #[trigger] final(self).chunk_dirty(c) == old(self).chunk_dirty(c),
            forall|x: i32, y: i32|
                #[trigger] final(self).cell(x, y) == old(self).cell(x, y) && final(self).heat_at(x, y) == old(self).heat_at(x, y)
                    && final(self).moved_at(x, y) == old(self).moved_at(x, y),
            forall|k: ElementId| #[trigger] final(self).census(k) == old(self).census(k),
    {
        let ghost before = *self;
        self.sleeping = enabled;
        proof {
            ChunkMap::lemma_same_keys(*self, before);
            ChunkMap::lemma_same_model(*self, before);
        }
    }

    /// Where the player is looking, in cells. Anything within `margin_chunks` of it
    /// stays awake; a negative margin counts as none.
    pub fn set_viewport(&mut self, viewport: Option<Bounds>, margin_chunks: i32)
        requires
            old(self).wf(),
        ensures
            final(self).wf(),
            final(self).spec_viewport() == viewport,
            final(self).spec_margin() == (if margin_chunks > 0 { margin_chunks } else { 0 }),
            final(self).is_sleeping() == old(self).is_sleeping(),
            final(self).spec_keys() == old(self).spec_keys(),
            forall|c: ChunkCoord| #[trigger] final(self).chunk_awake(c) == old(self).chunk_awake(c),
            forall|c: ChunkCoord| #[trigger] final(self).chunk_dirty(c) == old(self).chunk_dirty(c),
            forall|x: i32, y: i32|
                #[trigger] final(self).cell(x, y) == old(self).cell(x, y) && final(self).heat_at(x, y) == old(self).heat_at(x, y)
                    && final(self).moved_at(x, y) == old(self).moved_at(x, y),
            forall|k: ElementId| #[trigger] final(self).census(k) == old(self).census(k),
    {
        let ghost before = *self;
        self.viewport = viewport;
        self.viewport_margin = if margin_chunks > 0 { margin_chunks } else { 0 };
        proof {
            ChunkMap::lemma_same_keys(*self, before);
            ChunkMap::lemma_same_model(*self, before);
        }
    }

    /// Number of chunks currently held. An internal detail, exposed for tests.
    pub fn chunk_count(&self) -> (r: usize)
        requires
            self.wf(),
        ensures
            r == self.blocks(),
    {
        self.keys.len()
    }

    /// Every stored chunk position, ascending.
    pub fn chunk_coords(&self) -> (r: Vec<ChunkCoord>)
        requires
            self.wf(),
        ensures
            r@ == self.spec_keys(),
            sorted_coords(r@),
            forall|c: ChunkCoord| #[trigger] self.stored(c) <==> r@.contains(c),
    {
        let mut out: Vec<ChunkCoord> = Vec::new();
        let mut i: usize = 0;
        while i < self.keys.len()
            invariant
                i <= self.keys@.len(),
                out@ == self.keys@.subrange(0, i as int),
            decreases self.keys@.len() - i,
        {
            out.push(self.keys[i]);
            i = i + 1;
            proof {
                assert(out@ =~= self.keys@.subrange(0, i as int));
            }
        }
        proof {
            assert(out@ =~= self.keys@);
            assert forall|c: ChunkCoord| #[trigger] self.stored(c) <==> out@.contains(c) by {
                if out@.contains(c) {
                    let i = choose|i: int| 0 <= i < out@.len() && out@[i] == c;
                    assert(self.keys@[i] == c);
                }
            }
        }
        out
    }

    /// How many cells hold `id`. Empty space outside every stored chunk is unbounded,
    /// so counting it is meaningless and gives 0.
    pub fn count_of(&self, id: ElementId) -> (r: usize)
        requires
            self.wf(),
        ensures
            id != EMPTY ==> r == self.census(id),
            id != EMPTY ==> r == self.cells_holding(id).len(),
            id == EMPTY ==> r == 0,
    {
        if id == EMPTY {
            return 0;
        }
        proof {
            self.lemma_census(id);
        }
        let mut count: usize = 0;
        let mut k: usize = 0;
        while k < self.cells.len()
            invariant
                k <= self.cells@.len(),
                count <= k,
                count == self.cells@.subrange(0, k as int).to_multiset().count(id),
            decreases self.cells@.len() - k,
        {
            assert(self.cells@.subrange(0, k + 1) == self.cells@.subrange(0, k as int).push(self.cells@[k as int]));
            if self.cells[k] == id {
                count = count + 1;
            }
            k = k + 1;
        }
        assert(self.cells@.subrange(0, self.cells@.len() as int) == self.cells@);
        count
    }

    /// The canvas is infinite: every position holds a cell, empty or not.
    pub proof fn lemma_everywhere(&self)
        ensures
            forall|x: i32, y: i32| #[trigger] self.cell(x, y) is Some,
    {
    }

    /// Whether each stored chunk, in key order, is awake.
    pub closed spec fn awake_flags(&self) -> Seq<bool> {
        Seq::new(self.keys@.len(), |i: int| self.awake@[self.slots@[i] as int])
    }

    pub proof fn lemma_awake_flags(&self, i: int)
        requires
            self.wf(),
            0 <= i < self.spec_keys().len(),
        ensures
            self.awake_flags()[i] == self.chunk_awake(self.spec_keys()[i]),
            self.awake_flags().len() == self.spec_keys().len(),
    {
        self.lemma_key_index(i);
    }

    /// When every stored chunk is awake, the awake chunks are all the stored ones.
    pub proof fn lemma_all_awake_count(&self)
        requires
            self.wf(),
            self.all_awake(),
        ensures
            count_true(self.awake_flags(), self.spec_keys().len() as int) == self.blocks(),
    {
        let n = self.spec_keys().len() as int;
        assert forall|i: int| 0 <= i < n implies #[trigger] self.awake_flags()[i] by {
            self.lemma_awake_flags(i);
            self.lemma_key_index(i);
            assert(self.stored(self.spec_keys()[i]));
        }
        lemma_count_all(self.awake_flags(), n);
    }

    /// How many chunks ran this tick. Exposed so a test can prove that sleeping
    /// actually happened rather than passing vacuously.
    pub fn awake_chunk_count(&self) -> (r: usize)
        requires
            self.wf(),
        ensures
            r == count_true(self.awake_flags(), self.spec_keys().len() as int),
    {
        let mut count: usize = 0;
        let mut i: usize = 0;
        while i < self.keys.len()
            invariant
                self.wf(),
                i <= self.keys@.len(),
                count == count_true(self.awake_flags(), i as int),
                count <= i,
            decreases self.keys@.len() - i,
        {
            if self.awake[self.slots[i]] {
                count = count + 1;
            }
            i = i + 1;
        }
        count
    }

    /// The viewport in chunks, widened by the margin.
    fn viewport_chunks(&self) -> (r: Option<(i64, i64, i64, i64)>)
        requires
            self.wf(),
        ensures
            match r {
                Some((a, b, c, d)) => self.view_box() == Some((a as int, b as int, c as int, d as int)),
                None => self.view_box() is None,
            },
    {
        let viewport = match self.viewport {
            Some(v) => v,
            None => {
                return None;
            },
        };
        let (min_x, _) = split(viewport.min_x);
        let (min_y, _) = split(viewport.min_y);
        let (max_x, _) = split(viewport.max_x);
        let (max_y, _) = split(viewport.max_y);
        let margin = self.viewport_margin as i64;
        Some((min_x as i64 - margin, min_y as i64 - margin, max_x as i64 + margin, max_y as i64 + margin))
    }

    /// Clears per-tick state and decides which chunks run.
    ///
    /// A chunk is awake if anything moved in it last tick, or in any of its eight
    /// neighbours: material crossing a boundary has to find the receiving chunk
    /// running. The rule can only over-simulate, and over-simulating is invisible.
    fn begin_tick_impl(&mut self)
        requires
            old(self).wf(),
        ensures
            final(self).wf(),
            final(self).spec_keys() == old(self).spec_keys(),
            final(self).is_sleeping() == old(self).is_sleeping(),
            final(self).spec_viewport() == old(self).spec_viewport(),
            final(self).spec_margin() == old(self).spec_margin(),
            forall|x: i32, y: i32|
                #[trigger] final(self).cell(x, y) == old(self).cell(x, y) && final(self).heat_at(x, y) == old(self).heat_at(x, y),
            forall|k: ElementId| #[trigger] final(self).census(k) == old(self).census(k),
            forall|x: i32, y: i32| !#[trigger] final(self).moved_at(x, y),
            forall|c: ChunkCoord| #[trigger] final(self).stored(c) == old(self).stored(c),
            forall|c: ChunkCoord| !#[trigger] final(self).chunk_dirty(c),
            forall|c: ChunkCoord| #[trigger] final(self).chunk_was_dirty(c) == old(self).chunk_dirty(c),
            forall|c: ChunkCoord|
                old(self).stored(c) ==> #[trigger] final(self).chunk_awake(c) == (!old(self).is_sleeping()
                    || old(self).near_activity(c) || old(self).in_view(c)),
    {
        let ghost before = *self;
        let mut k: usize = 0;
        while k < self.moved.len()
            invariant
                k <= self.moved@.len(),
                self.moved@.len() == before.moved@.len(),
                self.keys@ == before.keys@,
                self.slots@ == before.slots@,
                self.cells@ == before.cells@,
                self.temps@ == before.temps@,
                self.dirty@ == before.dirty@,
                self.was_dirty@ == before.was_dirty@,
                self.awake@ == before.awake@,
                self.sleeping == before.sleeping,
                self.viewport == before.viewport,
                self.viewport_margin == before.viewport_margin,
                forall|p: int| 0 <= p < k ==> !#[trigger] self.moved@[p],
            decreases self.moved@.len() - k,
        {
            self.moved.set(k, false);
            k = k + 1;
        }
        let n = self.dirty.len();
        let mut b: usize = 0;
        while b < n
            invariant
                b <= n,
                n == before.dirty@.len(),
                self.dirty@.len() == n,
                self.was_dirty@.len() == n,
                self.moved@.len() == before.moved@.len(),
                self.keys@ == before.keys@,
                self.slots@ == before.slots@,
                self.cells@ == before.cells@,
                self.temps@ == before.temps@,
                self.awake@ == before.awake@,
                self.sleeping == before.sleeping,
                self.viewport == before.viewport,
                self.viewport_margin == before.viewport_margin,
                forall|p: int| 0 <= p < self.moved@.len() ==> !#[trigger] self.moved@[p],
                forall|q: int| 0 <= q < b ==> #[trigger] self.was_dirty@[q] == before.dirty@[q],
                forall|q: int| 0 <= q < b ==> !#[trigger] self.dirty@[q],
                forall|q: int| b <= q < n ==> #[trigger] self.dirty@[q] == before.dirty@[q],
            decreases n - b,
        {
            let d = self.dirty[b];
            self.was_dirty.set(b, d);
            self.dirty.set(b, false);
            b = b + 1;
        }
        proof {
            assert(self.wf());
            assert forall|x: i32, y: i32| !#[trigger] self.moved_at(x, y) by {
                if self.stored(chunk_key(x, y)) {
                    self.lemma_position(x, y);
                }
            }
        }
        if !self.sleeping {
            // Everything runs. This is the behaviour the flat reference is measured
            // against, and the default.
            let mut b: usize = 0;
            while b < n
                invariant
                    b <= n,
                    self.awake@.len() == n,
                    self.wf(),
                    forall|q: int| 0 <= q < b ==> #[trigger] self.awake@[q],
                    self.keys@ == before.keys@,
                    self.slots@ == before.slots@,
                    self.cells@ == before.cells@,
                    self.temps@ == before.temps@,
                    self.moved@.len() == before.moved@.len(),
                    forall|p: int| 0 <= p < self.moved@.len() ==> !#[trigger] self.moved@[p],
                    forall|q: int| 0 <= q < n ==> #[trigger] self.was_dirty@[q] == before.dirty@[q],
                    forall|q: int| 0 <= q < n ==> !#[trigger] self.dirty@[q],
                    self.sleeping == before.sleeping,
                    self.viewport == before.viewport,
                    self.viewport_margin == before.viewport_margin,
                decreases n - b,
            {
                self.awake.set(b, true);
                b = b + 1;
            }
            proof {
                assert forall|x: i32, y: i32| !#[trigger] self.moved_at(x, y) by {
                    if self.stored(chunk_key(x, y)) {
                        self.lemma_position(x, y);
                    }
                }
                assert forall|c: ChunkCoord| before.stored(c) implies #[trigger] self.chunk_awake(c) by {
                    let i = before.key_index(c);
                    assert(before.keys@[i] == c);
                }
                assert forall|c: ChunkCoord| !#[trigger] self.chunk_dirty(c) by {
                    if self.stored(c) {
                        let i = self.key_index(c);
                        assert(self.keys@[i] == c);
                        assert(self.slots@[i] < n);
                    }
                }
                assert forall|c: ChunkCoord| #[trigger] self.chunk_was_dirty(c) == before.chunk_dirty(c) by {
                    if self.stored(c) {
                        let i = self.key_index(c);
                        assert(self.keys@[i] == c);
                        assert(self.slots@[i] < n);
                    }
                }
            }
            return;
        }
        let view = self.viewport_chunks();
        let mut i: usize = 0;
        while i < self.keys.len()
            invariant
                i <= self.keys@.len(),
                self.wf(),
                before.wf(),
                self.sleeping,
                self.keys@ == before.keys@,
                self.slots@ == before.slots@,
                self.cells@ == before.cells@,
                self.temps@ == before.temps@,
                self.moved@.len() == before.moved@.len(),
                forall|p: int| 0 <= p < self.moved@.len() ==> !#[trigger] self.moved@[p],
                forall|q: int| 0 <= q < n ==> #[trigger] self.was_dirty@[q] == before.dirty@[q],
                    forall|q: int| 0 <= q < n ==> !#[trigger] self.dirty@[q],
                self.sleeping == before.sleeping,
                self.viewport == before.viewport,
                self.viewport_margin == before.viewport_margin,
                n == self.keys@.len(),
                forall|q: int| 0 <= q < i ==> #[trigger] self.awake@[self.slots@[q] as int] == (before.near_activity(self.keys@[q]) || before.in_view(self.keys@[q])),
                match view {
                    Some((a, b2, c2, d2)) => self.view_box() == Some((a as int, b2 as int, c2 as int, d2 as int)),
                    None => self.view_box() is None,
                },
            decreases self.keys@.len() - i,
        {
            let key = self.keys[i];
            let mut near = false;
            let mut j: usize = 0;
            while j < self.keys.len()
                invariant
                    j <= self.keys@.len(),
                    self.wf(),
                    n == self.keys@.len(),
                    before.wf(),
                    i < n,
                    key == self.keys@[i as int],
                    self.keys@ == before.keys@,
                    self.slots@ == before.slots@,
                    forall|q: int| 0 <= q < n ==> #[trigger] self.was_dirty@[q] == before.dirty@[q],
                    forall|q: int| 0 <= q < n ==> !#[trigger] self.dirty@[q],
                    near ==> before.near_activity(key),
                    !near ==> forall|q: int| 0 <= q < j ==> !(#[trigger] before.chunk_dirty(self.keys@[q]) && touching(key, self.keys@[q])),
                decreases self.keys@.len() - j,
            {
                let other = self.keys[j];
                let dx: i64 = other.0 as i64 - key.0 as i64;
                let dy: i64 = other.1 as i64 - key.1 as i64;
                if self.was_dirty[self.slots[j]] && -1 <= dx && dx <= 1 && -1 <= dy && dy <= 1 {
                    proof {
                        before.lemma_key_index(j as int);
                        assert(before.chunk_dirty(other));
                    }
                    near = true;
                }
                proof {
                    before.lemma_key_index(j as int);
                }
                j = j + 1;
            }
            proof {
                if !near {
                    assert forall|d: ChunkCoord| #[trigger] before.chunk_dirty(d) implies !touching(key, d) by {
                        let q = before.key_index(d);
                        assert(self.keys@[q] == d);
                    }
                }
            }
            let in_view = match view {
                Some((min_x, min_y, max_x, max_y)) => min_x <= key.0 as i64 && key.0 as i64 <= max_x && min_y <= key.1 as i64 && key.1 as i64 <= max_y,
                None => false,
            };
            let block = self.slots[i];
            self.awake.set(block, near || in_view);
            proof {
                assert forall|q: int| 0 <= q < i + 1 implies #[trigger] self.awake@[self.slots@[q] as int] == (before.near_activity(self.keys@[q]) || before.in_view(self.keys@[q])) by {
                    if q < i {
                        assert(self.slots@[q] != self.slots@[i as int]);
                    }
                }
            }
            i = i + 1;
        }
        proof {
            assert forall|x: i32, y: i32| !#[trigger] self.moved_at(x, y) by {
                if self.stored(chunk_key(x, y)) {
                    self.lemma_position(x, y);
                }
            }
            assert forall|c: ChunkCoord| before.stored(c) implies #[trigger] self.chunk_awake(c) == (!before.is_sleeping()
                || before.near_activity(c) || before.in_view(c)) by {
                let q = before.key_index(c);
                assert(before.keys@[q] == c);
            }
            assert forall|c: ChunkCoord| !#[trigger] self.chunk_dirty(c) by {
                if self.stored(c) {
                    let i = self.key_index(c);
                    assert(self.keys@[i] == c);
                    assert(self.slots@[i] < n);
                }
            }
            assert forall|c: ChunkCoord| #[trigger] self.chunk_was_dirty(c) == before.chunk_dirty(c) by {
                if self.stored(c) {
                    let i = self.key_index(c);
                    assert(self.keys@[i] == c);
                    assert(self.slots@[i] < n);
                }
            }
        }
    }
}


impl ChunkMap {
    /// Every cell of stored chunk `c` is empty.
    pub closed spec fn vacant(&self, c: ChunkCoord) -> bool {
        self.stored(c) && forall|o: int|
            0 <= o < CHUNK_AREA ==> #[trigger] self.cells@[self.slots@[self.key_index(c)] * CHUNK_AREA + o] == EMPTY
    }

    /// Some cell of the plane in chunk `c` holds matter.
    pub open spec fn holds_matter(&self, c: ChunkCoord) -> bool {
        exists|x: i32, y: i32| chunk_key(x, y) == c && #[trigger] self.cell(x, y) != Some(EMPTY)
    }

    /// A stored chunk is vacant exactly when every cell of the plane in it is empty.
    pub proof fn lemma_vacant(&self, c: ChunkCoord)
        requires
            self.wf(),
            self.stored(c),
        ensures
            self.vacant(c) <==> forall|x: i32, y: i32| chunk_key(x, y) == c ==> #[trigger] self.cell(x, y) == Some(EMPTY),
    {
        let i = self.key_index(c);
        self.lemma_key_index(i);
        let base = self.slots@[i] * CHUNK_AREA;
        if self.vacant(c) {
            assert forall|x: i32, y: i32| chunk_key(x, y) == c implies #[trigger] self.cell(x, y) == Some(EMPTY) by {
                lemma_local_index(x, y);
                assert(self.cells@[base + local_index(x, y)] == EMPTY);
            }
        }
        if forall|x: i32, y: i32| chunk_key(x, y) == c ==> #[trigger] self.cell(x, y) == Some(EMPTY) {
            assert forall|o: int| 0 <= o < CHUNK_AREA implies #[trigger] self.cells@[base + o] == EMPTY by {
                if offset_in_plane(c, o) {
                    let x = (c.0 * 144 + o % 144) as i32;
                    let y = (c.1 * 144 + o / 144) as i32;
                    assert(0 <= o / 144 < 144) by (nonlinear_arith)
                        requires
                            0 <= o < CHUNK_AREA,
                    ;
                    vstd::arithmetic::div_mod::lemma_fundamental_div_mod(o, 144);
                    vstd::arithmetic::div_mod::lemma_fundamental_div_mod_converse(x as int, 144, c.0 as int, o % 144);
                    vstd::arithmetic::div_mod::lemma_fundamental_div_mod_converse(y as int, 144, c.1 as int, o / 144);
                    assert(chunk_key(x, y) == c);
                    assert(local_index(x, y) == o);
                    assert(self.cell(x, y) == Some(EMPTY));
                }
            }
        }
    }

    /// Activity reported at every cell where it was stays reported near every chunk
    /// it was near.
    pub proof fn lemma_activity_kept(a: ChunkMap, b: ChunkMap)
        requires
            a.wf(),
            forall|i: i32, j: i32| #[trigger] a.active_at(i, j) ==> b.active_at(i, j),
        ensures
            forall|c: ChunkCoord| #[trigger] a.near_activity(c) ==> b.near_activity(c),
    {
        assert forall|c: ChunkCoord| #[trigger] a.near_activity(c) implies b.near_activity(c) by {
            let d = choose|d: ChunkCoord| #[trigger] a.chunk_dirty(d) && touching(c, d);
            let k = a.key_index(d);
            assert(key_in_plane(a.keys@[k]));
            let px = (d.0 * 144 + 16) as i32;
            let py = (d.1 * 144 + 16) as i32;
            vstd::arithmetic::div_mod::lemma_fundamental_div_mod_converse(px as int, 144, d.0 as int, 16);
            vstd::arithmetic::div_mod::lemma_fundamental_div_mod_converse(py as int, 144, d.1 as int, 16);
            assert(chunk_key(px, py) == d);
            assert(a.active_at(px, py));
            assert(b.chunk_dirty(d));
        }
    }

    /// Matter only lies in stored chunks.
    pub proof fn lemma_matter_stored(&self, x: i32, y: i32)
        ensures
            self.cell(x, y) != Some(EMPTY) ==> self.stored(chunk_key(x, y)),
    {
    }

    /// The coordinates of every cell holding `id`.
    pub open spec fn cells_holding(&self, id: ElementId) -> Set<(i32, i32)> {
        Set::new(|q: (i32, i32)| self.cell(q.0, q.1) == Some(id))
    }

    /// The cell that place `p` of the cell array stands for.
    closed spec fn place_cell(&self, p: int) -> (i32, i32) {
        let k = self.keys@[holder_of(self.slots@, p / (CHUNK_AREA as int))];
        ((k.0 * 144 + (p % (CHUNK_AREA as int)) % 144) as i32, (k.1 * 144 + (p % (CHUNK_AREA as int)) / 144) as i32)
    }

    /// A place holding matter stands for a cell of the plane that reads as it.
    proof fn lemma_place_cell(&self, p: int)
        requires
            self.wf(),
            0 <= p < self.cells@.len(),
            self.cells@[p] != EMPTY,
        ensures
            self.stored(chunk_key(self.place_cell(p).0, self.place_cell(p).1)),
            self.position(self.place_cell(p).0, self.place_cell(p).1) == p,
            self.cell(self.place_cell(p).0, self.place_cell(p).1) == Some(self.cells@[p]),
    {
        let n = self.keys@.len() as int;
        let b = p / (CHUNK_AREA as int);
        let o = p % (CHUNK_AREA as int);
        vstd::arithmetic::div_mod::lemma_fundamental_div_mod(p, CHUNK_AREA as int);
        assert(0 <= b < n) by (nonlinear_arith)
            requires
                0 <= p < n * CHUNK_AREA,
                b == p / (CHUNK_AREA as int),
                p == CHUNK_AREA * b + o,
                0 <= o < CHUNK_AREA,
        ;
        let h = holder_of(self.slots@, b);
        assert(0 <= h < n && self.slots@[h] == b);
        let k = self.keys@[h];
        assert(self.cells@[self.slots@[h] * CHUNK_AREA + o] != EMPTY);
        assert(offset_in_plane(k, o));
        let x = (k.0 * 144 + o % 144) as i32;
        let y = (k.1 * 144 + o / 144) as i32;
        assert(0 <= o / 144 < 144) by (nonlinear_arith)
            requires
                0 <= o < CHUNK_AREA,
        ;
        vstd::arithmetic::div_mod::lemma_fundamental_div_mod(o, 144);
        vstd::arithmetic::div_mod::lemma_fundamental_div_mod_converse(x as int, 144, k.0 as int, o % 144);
        vstd::arithmetic::div_mod::lemma_fundamental_div_mod_converse(y as int, 144, k.1 as int, o / 144);
        assert(chunk_key(x, y) == k);
        assert(local_index(x, y) == o);
        self.lemma_key_index(h);
        assert(self.place_cell(p) == (x, y));
    }

    /// A cell of a stored chunk is stood for by its own place.
    proof fn lemma_cell_place(&self, x: i32, y: i32)
        requires
            self.wf(),
            self.stored(chunk_key(x, y)),
        ensures
            0 <= self.position(x, y) < self.cells@.len(),
            self.place_cell(self.position(x, y)) == (x, y),
    {
        self.lemma_position(x, y);
        lemma_local_index(x, y);
        let n = self.keys@.len() as int;
        let i = self.key_index(chunk_key(x, y));
        let b = self.slots@[i] as int;
        let o = local_index(x, y);
        let p = self.position(x, y);
        vstd::arithmetic::div_mod::lemma_fundamental_div_mod_converse(p, CHUNK_AREA as int, b, o);
        let h = holder_of(self.slots@, b);
        assert(0 <= h < n && self.slots@[h] == b);
        assert(h == i);
        let k = chunk_key(x, y);
        vstd::arithmetic::div_mod::lemma_fundamental_div_mod(x as int, 144);
        vstd::arithmetic::div_mod::lemma_fundamental_div_mod(y as int, 144);
        vstd::arithmetic::div_mod::lemma_fundamental_div_mod_converse(o, 144, offset_of(y as int), offset_of(x as int));
        assert(self.place_cell(p) == (x, y));
    }

    /// For a real element, the census counts exactly the cells that hold it: finitely
    /// many.
    pub proof fn lemma_census(&self, id: ElementId)
        requires
            self.wf(),
            id != EMPTY,
        ensures
            self.cells_holding(id).finite(),
            self.census(id) == self.cells_holding(id).len(),
    {
        let s = self.cells@;
        lemma_count_places(s, id, s.len() as int);
        assert(s.subrange(0, s.len() as int) == s);
        let xs = places_holding(s, id, s.len() as int);
        let f = |p: int| self.place_cell(p);
        assert forall|p1: int, p2: int| xs.contains(p1) && xs.contains(p2) && #[trigger] f(p1) == #[trigger] f(p2) implies p1 == p2 by {
            self.lemma_place_cell(p1);
            self.lemma_place_cell(p2);
        }
        assert(vstd::relations::injective_on(f, xs));
        assert(xs.map(f) =~= self.cells_holding(id)) by {
            assert forall|q: (i32, i32)| xs.map(f).contains(q) implies #[trigger] self.cells_holding(id).contains(q) by {
                let p = choose|p: int| xs.contains(p) && f(p) == q;
                self.lemma_place_cell(p);
            }
            assert forall|q: (i32, i32)| #[trigger] self.cells_holding(id).contains(q) implies xs.map(f).contains(q) by {
                let (x, y) = q;
                assert(self.cell(x, y) == Some(id));
                self.lemma_cell_place(x, y);
                let p = self.position(x, y);
                assert(xs.contains(p));
                assert(f(p) == q);
            }
        }
        vstd::set_lib::lemma_map_size(xs, self.cells_holding(id), f);
    }

    /// Whether every cell of block `b` is empty.
    fn block_vacant(&self, b: usize) -> (r: bool)
        requires
            self.wf(),
            b < self.keys@.len(),
        ensures
            r == forall|o: int| 0 <= o < CHUNK_AREA ==> #[trigger] self.cells@[b * CHUNK_AREA + o] == EMPTY,
    {
        let total = self.cells.len();
        proof {
            lemma_block_index(b as int, 0, self.keys@.len() as int);
            lemma_block_index(b as int, CHUNK_AREA - 1, self.keys@.len() as int);
        }
        proof {
            assert(b * CHUNK_AREA + CHUNK_AREA <= self.keys@.len() * CHUNK_AREA) by (nonlinear_arith)
                requires
                    b < self.keys@.len(),
            ;
        }
        let base: usize = b * CHUNK_AREA;
        let mut o: usize = 0;
        while o < CHUNK_AREA
            invariant
                o <= CHUNK_AREA,
                base == b * CHUNK_AREA,
                total == self.cells@.len(),
                base + CHUNK_AREA <= self.cells@.len(),
                forall|q: int| 0 <= q < o ==> #[trigger] self.cells@[b * CHUNK_AREA + q] == EMPTY,
            decreases CHUNK_AREA - o,
        {
            if self.cells[base + o] != EMPTY {
                return false;
            }
            o = o + 1;
        }
        true
    }

    /// The key whose chunk lives in block `b`.
    fn find_holder(&self, b: usize) -> (r: usize)
        requires
            self.wf(),
            b < self.keys@.len(),
        ensures
            r < self.keys@.len(),
            self.slots@[r as int] == b,
    {
        let mut i: usize = 0;
        while i < self.slots.len()
            invariant
                i <= self.slots@.len(),
                self.slots@.len() == self.keys@.len(),
                forall|j: int| 0 <= j < i ==> #[trigger] self.slots@[j] != b,
            decreases self.slots@.len() - i,
        {
            if self.slots[i] == b {
                return i;
            }
            i = i + 1;
        }
        proof {
            let h = holder_of(self.slots@, b as int);
            assert(self.slots@[h] == b);
        }
        0
    }

    /// Drops the vacant chunk at key `i`, moving the last block into its place so the
    /// arrays stay dense. The world it models is unchanged.
    #[verifier::rlimit(50)]
    fn drop_chunk(&mut self, i: usize)
        requires
            old(self).wf(),
            i < old(self).keys@.len(),
            old(self).vacant(old(self).keys@[i as int]),
        ensures
            final(self).wf(),
            final(self).keys@ == old(self).keys@.remove(i as int),
            forall|x: i32, y: i32| #[trigger] final(self).cell(x, y) == old(self).cell(x, y),
            forall|x: i32, y: i32| #[trigger] final(self).heat_at(x, y) == old(self).heat_at(x, y),
            forall|k: ElementId| k != EMPTY ==> #[trigger] final(self).census(k) == old(self).census(k),
            forall|c: ChunkCoord| c != old(self).keys@[i as int] ==> #[trigger] final(self).vacant(c) == old(self).vacant(c),
            final(self).sleeping == old(self).sleeping,
            final(self).viewport == old(self).viewport,
            final(self).viewport_margin == old(self).viewport_margin,
    {
        let ghost orig = *self;
        let n = self.keys.len();
        let b = self.slots[i];
        let last = n - 1;
        let total = self.cells.len();
        proof {
            orig.lemma_key_index(i as int);
            lemma_block_index(last as int, 0, n as int);
            lemma_block_index(b as int, 0, n as int);
            assert(last * CHUNK_AREA + CHUNK_AREA == n * CHUNK_AREA) by (nonlinear_arith)
                requires
                    last == n - 1,
            ;
            assert(b * CHUNK_AREA + CHUNK_AREA <= n * CHUNK_AREA) by (nonlinear_arith)
                requires
                    b < n,
            ;
        }
        let ghost lb = orig.cells@.subrange(last * CHUNK_AREA, last * CHUNK_AREA + CHUNK_AREA);
        if b != last {
            let j = self.find_holder(last);
            let from: usize = last * CHUNK_AREA;
            let to: usize = b * CHUNK_AREA;
            proof {
                assert forall|q: int| 0 <= q < CHUNK_AREA implies #[trigger] self.cells@[to + q] == EMPTY by {
                    assert(orig.key_index(orig.keys@[i as int]) == i);
                    assert(orig.cells@[orig.slots@[orig.key_index(orig.keys@[i as int])] * CHUNK_AREA + q] == EMPTY);
                    lemma_block_index(b as int, q, n as int);
                }
                assert forall|q: int| 0 <= q < CHUNK_AREA implies #[trigger] self.temps@[to + q] == AMBIENT_TEMPERATURE by {
                    assert(self.cells@[to + q] == EMPTY);
                    lemma_block_index(b as int, q, n as int);
                }
            }
            let mut o: usize = 0;
            while o < CHUNK_AREA
                invariant
                    o <= CHUNK_AREA,
                    total == n * CHUNK_AREA,
                    self.cells@.len() == n * CHUNK_AREA,
                    self.temps@.len() == n * CHUNK_AREA,
                    self.moved@.len() == n * CHUNK_AREA,
                    from == last * CHUNK_AREA,
                    to == b * CHUNK_AREA,
                    from + CHUNK_AREA == n * CHUNK_AREA,
                    to + CHUNK_AREA <= from,
                    n == orig.keys@.len(),
                    b < last,
                    last == n - 1,
                    lb == orig.cells@.subrange(from as int, from + CHUNK_AREA),
                    self.keys@ == orig.keys@,
                    self.slots@ == orig.slots@,
                    self.dirty@ == orig.dirty@,
                    self.was_dirty@ == orig.was_dirty@,
                    self.awake@ == orig.awake@,
                    self.sleeping == orig.sleeping,
                    self.viewport == orig.viewport,
                    self.viewport_margin == orig.viewport_margin,
                    self.cells@.len() == orig.cells@.len(),
                    self.temps@.len() == orig.temps@.len(),
                    self.moved@.len() == orig.moved@.len(),
                    forall|p: int| 0 <= p < self.cells@.len() && (p < to || p >= to + CHUNK_AREA) ==> #[trigger] self.cells@[p]
                        == orig.cells@[p],
                    forall|p: int| 0 <= p < self.temps@.len() && (p < to || p >= to + CHUNK_AREA) ==> #[trigger] self.temps@[p]
                        == orig.temps@[p],
                    forall|p: int| 0 <= p < self.moved@.len() && (p < to || p >= to + CHUNK_AREA) ==> #[trigger] self.moved@[p]
                        == orig.moved@[p],
                    forall|q: int| 0 <= q < o ==> #[trigger] self.cells@[to + q] == orig.cells@[from + q],
                    forall|q: int| 0 <= q < o ==> #[trigger] self.temps@[to + q] == orig.temps@[from + q],
                    forall|q: int| 0 <= q < o ==> #[trigger] self.moved@[to + q] == orig.moved@[from + q],
                    forall|q: int| o <= q < CHUNK_AREA ==> #[trigger] self.cells@[to + q] == EMPTY,
                    forall|q: int| o <= q < CHUNK_AREA ==> #[trigger] self.temps@[to + q] == AMBIENT_TEMPERATURE,
                    forall|k: ElementId| k != EMPTY ==> #[trigger] self.cells@.to_multiset().count(k) == orig.cells@.to_multiset().count(k)
                        + lb.subrange(0, o as int).to_multiset().count(k),
                decreases CHUNK_AREA - o,
            {
                let ghost prior = self.cells@;
                let v = self.cells[from + o];
                let t = self.temps[from + o];
                let m = self.moved[from + o];
                proof {
                    assert(prior[to + o] == EMPTY);
                    assert(v == lb[o as int]);
                }
                self.cells.set(to + o, v);
                self.temps.set(to + o, t);
                self.moved.set(to + o, m);
                proof {
                    broadcast use {vstd::multiset::group_multiset_axioms, vstd::multiset::group_multiset_properties};
                    assert(self.cells@.to_multiset() == prior.to_multiset().insert(v).remove(EMPTY));
                    assert(prior.to_multiset().count(EMPTY) > 0) by {
                        assert(prior.contains(EMPTY));
                    }
                    assert(lb.subrange(0, o + 1) =~= lb.subrange(0, o as int).push(v));
                }
                o = o + 1;
            }
            let d = self.dirty[last];
            let w = self.was_dirty[last];
            let a = self.awake[last];
            self.dirty.set(b, d);
            self.was_dirty.set(b, w);
            self.awake.set(b, a);
            self.slots.set(j, b);
            proof {
                assert(lb.subrange(0, CHUNK_AREA as int) =~= lb);
            }
        } else {
            proof {
                broadcast use {vstd::multiset::group_multiset_axioms, vstd::multiset::group_multiset_properties};
                assert forall|k: ElementId| k != EMPTY implies #[trigger] lb.to_multiset().count(k) == 0 by {
                    if lb.to_multiset().count(k) > 0 {
                        assert(lb.contains(k));
                        let q = choose|q: int| 0 <= q < lb.len() && lb[q] == k;
                        assert(orig.cells@[b * CHUNK_AREA + q] == k);
                    }
                }
            }
        }
        let ghost mid = *self;
        proof {
            assert(mid.cells@.subrange(last * CHUNK_AREA, n * CHUNK_AREA) =~= lb);
            assert(self.cells@ =~= mid.cells@.subrange(0, n * CHUNK_AREA - 0));
            assert(self.temps@ =~= mid.temps@.subrange(0, n * CHUNK_AREA - 0));
            assert(self.moved@ =~= mid.moved@.subrange(0, n * CHUNK_AREA - 0));
            assert(lb.subrange(CHUNK_AREA as int, CHUNK_AREA as int) =~= Seq::<ElementId>::empty());
        }
        let mut popped: usize = 0;
        while popped < CHUNK_AREA
            invariant
                popped <= CHUNK_AREA,
                n * CHUNK_AREA == mid.cells@.len(),
                n * CHUNK_AREA == mid.temps@.len(),
                n * CHUNK_AREA == mid.moved@.len(),
                last * CHUNK_AREA + CHUNK_AREA == n * CHUNK_AREA,
                self.cells@ == mid.cells@.subrange(0, n * CHUNK_AREA - popped),
                self.temps@ == mid.temps@.subrange(0, n * CHUNK_AREA - popped),
                self.moved@ == mid.moved@.subrange(0, n * CHUNK_AREA - popped),
                mid.cells@.subrange(last * CHUNK_AREA, n * CHUNK_AREA) == lb,
                self.keys@ == mid.keys@,
                self.slots@ == mid.slots@,
                self.dirty@ == mid.dirty@,
                self.was_dirty@ == mid.was_dirty@,
                self.awake@ == mid.awake@,
                self.sleeping == mid.sleeping,
                self.viewport == mid.viewport,
                self.viewport_margin == mid.viewport_margin,
                lb.len() == CHUNK_AREA,
                forall|k: ElementId| k != EMPTY ==> #[trigger] self.cells@.to_multiset().count(k) + lb.subrange(
                    CHUNK_AREA - popped,
                    CHUNK_AREA as int,
                ).to_multiset().count(k) == mid.cells@.to_multiset().count(k),
            decreases CHUNK_AREA - popped,
        {
            let ghost prior = self.cells@;
            let ghost prior_t = self.temps@;
            let ghost prior_m = self.moved@;
            self.cells.pop();
            self.temps.pop();
            self.moved.pop();
            proof {
                let len = n * CHUNK_AREA - popped;
                assert(prior[len - 1] == mid.cells@[len - 1]);
                assert(mid.cells@[len - 1] == lb[CHUNK_AREA - popped - 1]);
                assert(self.cells@ =~= prior.drop_last());
                assert(self.temps@ =~= prior_t.drop_last());
                assert(self.moved@ =~= prior_m.drop_last());
                assert(prior.drop_last() =~= prior.remove(len - 1));
                let tail = lb.subrange(CHUNK_AREA - popped, CHUNK_AREA as int);
                assert(lb.subrange(CHUNK_AREA - popped - 1, CHUNK_AREA as int) =~= tail.insert(0, lb[CHUNK_AREA - popped - 1]));
                broadcast use {vstd::multiset::group_multiset_axioms, vstd::multiset::group_multiset_properties};
                assert(self.cells@.to_multiset() == prior.to_multiset().remove(prior[len - 1]));
                assert(prior.to_multiset().count(prior[len - 1]) > 0) by {
                    assert(prior.contains(prior[len - 1]));
                }
                assert(self.cells@ =~= mid.cells@.subrange(0, n * CHUNK_AREA - (popped + 1)));
                assert(self.temps@ =~= mid.temps@.subrange(0, n * CHUNK_AREA - (popped + 1)));
                assert(self.moved@ =~= mid.moved@.subrange(0, n * CHUNK_AREA - (popped + 1)));
            }
            popped = popped + 1;
        }
        proof {
            assert(lb.subrange(0, CHUNK_AREA as int) =~= lb);
            assert forall|k: ElementId| k != EMPTY implies #[trigger] self.cells@.to_multiset().count(k) == orig.cells@.to_multiset().count(k) by {
                assert(self.cells@.to_multiset().count(k) + lb.to_multiset().count(k) == mid.cells@.to_multiset().count(k));
            }
        }
        self.dirty.pop();
        self.was_dirty.pop();
        self.awake.pop();
        self.keys.remove(i);
        self.slots.remove(i);
        proof {
            self.lemma_drop_model(orig, mid, i as int, b as int);
        }
    }

    /// The bookkeeping behind `drop_chunk`: the map after the move and the truncation
    /// is well formed and models the same world.
    #[verifier::rlimit(80)]
    proof fn lemma_drop_model(&self, orig: ChunkMap, mid: ChunkMap, i: int, b: int)
        requires
            orig.wf(),
            0 <= i < orig.keys@.len(),
            b == orig.slots@[i],
            orig.vacant(orig.keys@[i]),
            self.keys@ == orig.keys@.remove(i),
            mid.keys@ == orig.keys@,
            mid.cells@.len() == orig.cells@.len(),
            mid.temps@.len() == orig.temps@.len(),
            mid.moved@.len() == orig.moved@.len(),
            self.cells@ == mid.cells@.subrange(0, (orig.keys@.len() - 1) * CHUNK_AREA),
            self.temps@ == mid.temps@.subrange(0, (orig.keys@.len() - 1) * CHUNK_AREA),
            self.moved@ == mid.moved@.subrange(0, (orig.keys@.len() - 1) * CHUNK_AREA),
            self.slots@ == mid.slots@.remove(i),
            self.dirty@.len() == orig.keys@.len() - 1,
            self.was_dirty@.len() == orig.keys@.len() - 1,
            self.awake@.len() == orig.keys@.len() - 1,
            self.viewport_margin == orig.viewport_margin,
            b == orig.keys@.len() - 1 ==> mid.slots@ == orig.slots@ && mid.cells@ == orig.cells@ && mid.temps@ == orig.temps@
                && mid.moved@ == orig.moved@,
            b != orig.keys@.len() - 1 ==> {
                let last = orig.keys@.len() - 1;
                let j = holder_of(orig.slots@, last);
                &&& mid.slots@ == orig.slots@.update(j, b as usize)
                &&& forall|p: int| 0 <= p < mid.cells@.len() && (p < b * CHUNK_AREA || p >= b * CHUNK_AREA + CHUNK_AREA) ==> #[trigger] mid.cells@[p]
                    == orig.cells@[p] && mid.temps@[p] == orig.temps@[p] && mid.moved@[p] == orig.moved@[p]
                &&& forall|q: int| 0 <= q < CHUNK_AREA ==> #[trigger] mid.cells@[b * CHUNK_AREA + q] == orig.cells@[last * CHUNK_AREA + q]
                    && mid.temps@[b * CHUNK_AREA + q] == orig.temps@[last * CHUNK_AREA + q] && mid.moved@[b * CHUNK_AREA + q]
                    == orig.moved@[last * CHUNK_AREA + q]
            },
        ensures
            self.wf(),
            forall|x: i32, y: i32| #[trigger] self.cell(x, y) == orig.cell(x, y),
            forall|x: i32, y: i32| #[trigger] self.heat_at(x, y) == orig.heat_at(x, y),
            forall|c: ChunkCoord| c != orig.keys@[i] ==> #[trigger] self.vacant(c) == orig.vacant(c),
    {
        let n = orig.keys@.len() as int;
        let last = n - 1;
        let removed = orig.keys@[i];
        orig.lemma_key_index(i);
        assert(last * CHUNK_AREA + CHUNK_AREA == n * CHUNK_AREA) by (nonlinear_arith)
            requires
                last == n - 1,
        ;
        // Keys stay sorted after a removal.
        assert forall|p: int, q: int| 0 <= p < q < self.keys@.len() implies coord_lt(#[trigger] self.keys@[p], #[trigger] self.keys@[q]) by {
            let op = if p < i { p } else { p + 1 };
            let oq = if q < i { q } else { q + 1 };
            assert(coord_lt(orig.keys@[op], orig.keys@[oq]));
        }
        // The new slots, by old key.
        assert forall|p: int| 0 <= p < n - 1 implies #[trigger] self.slots@[p] == relocated(b, last, 
            orig.slots@[if p < i { p } else { p + 1 }] as int,
        ) by {
            let op = if p < i { p } else { p + 1 };
            if b != last {
                let j = holder_of(orig.slots@, last);
                assert(0 <= j < n && orig.slots@[j] == last);
                if op == j {
                } else {
                    assert(orig.slots@[op] != last);
                }
            } else {
            }
        }
        assert forall|p: int| 0 <= p < n - 1 implies #[trigger] self.slots@[p] < n - 1 by {
            let op = if p < i { p } else { p + 1 };
            assert(op != i);
            assert(orig.slots@[op] != b);
            assert(orig.slots@[op] < n);
        }
        assert forall|p: int, q: int| 0 <= p < n - 1 && 0 <= q < n - 1 && p != q implies #[trigger] self.slots@[p] != #[trigger] self.slots@[q] by {
            let op = if p < i { p } else { p + 1 };
            let oq = if q < i { q } else { q + 1 };
            assert(orig.slots@[op] != orig.slots@[oq]);
            assert(orig.slots@[op] != b && orig.slots@[oq] != b);
        }
        assert forall|t: int| 0 <= t < n - 1 implies 0 <= #[trigger] holder_of(self.slots@, t) < n - 1 && self.slots@[holder_of(self.slots@, t)] == t by {
            let w = if t == b { last } else { t };
            let h = holder_of(orig.slots@, w);
            assert(0 <= h < n && orig.slots@[h] == w);
            assert(h != i);
            let nh = if h < i { h } else { h - 1 };
            assert(self.slots@[nh] == relocated(b, last, orig.slots@[h] as int));
            assert(self.slots@[nh] == t);
        }
        assert forall|pp: int| 0 <= pp < self.cells@.len() && #[trigger] self.cells@[pp] == EMPTY implies self.temps@[pp] == AMBIENT_TEMPERATURE by {
            if b != last && b * CHUNK_AREA <= pp < b * CHUNK_AREA + CHUNK_AREA {
                let q = pp - b * CHUNK_AREA;
                assert(mid.cells@[b * CHUNK_AREA + q] == orig.cells@[last * CHUNK_AREA + q]);
                lemma_block_index(last, q, n);
            } else {
                assert(mid.cells@[pp] == orig.cells@[pp]);
            }
        }
        // A cell of an old block reads the same from where that block now lives.
        assert forall|m: int, o: int| 0 <= m < n && m != i && 0 <= o < CHUNK_AREA implies #[trigger] self.cells@[relocated(b, last, orig.slots@[m] as int) * CHUNK_AREA + o]
            == orig.cells@[orig.slots@[m] * CHUNK_AREA + o] && self.temps@[relocated(b, last, orig.slots@[m] as int) * CHUNK_AREA + o] == orig.temps@[orig.slots@[m] * CHUNK_AREA + o] by {
            let s = orig.slots@[m] as int;
            assert(s < n && s != b);
            lemma_block_index(s, o, n);
            if s == last {
                assert(mid.cells@[b * CHUNK_AREA + o] == orig.cells@[last * CHUNK_AREA + o]);
                lemma_block_index(b, o, n - 1);
            } else {
                lemma_block_index(s, o, n - 1);
                if b != last {
                    if b * CHUNK_AREA <= s * CHUNK_AREA + o < b * CHUNK_AREA + CHUNK_AREA {
                        lemma_block_distinct(s, o, b, s * CHUNK_AREA + o - b * CHUNK_AREA);
                    }
                    assert(mid.cells@[s * CHUNK_AREA + o] == orig.cells@[s * CHUNK_AREA + o]);
                }
            }
        }
        assert forall|k: int, o: int|
            0 <= k < n - 1 && 0 <= o < CHUNK_AREA && !offset_in_plane(self.keys@[k], o) implies #[trigger] self.cells@[self.slots@[k]
                * CHUNK_AREA + o] == EMPTY by {
            let m = if k < i { k } else { k + 1 };
            assert(self.keys@[k] == orig.keys@[m]);
            assert(self.slots@[k] == relocated(b, last, orig.slots@[m] as int));
            assert(self.cells@[relocated(b, last, orig.slots@[m] as int) * CHUNK_AREA + o] == orig.cells@[orig.slots@[m] * CHUNK_AREA + o]);
        }
        assert(self.wf());
        // Each old key, other than the removed one, finds its cells where they were or
        // in the block they moved to.
        assert forall|m: int| 0 <= m < n && m != i implies {
            let nm = if m < i { m } else { m - 1 };
            &&& self.keys@[nm] == orig.keys@[m]
            &&& #[trigger] self.key_index(orig.keys@[m]) == nm
            &&& self.slots@[nm] == relocated(b, last, orig.slots@[m] as int)
        } by {
            let nm = if m < i { m } else { m - 1 };
            self.lemma_key_index(nm);
        }
        assert forall|c: ChunkCoord| #[trigger] self.stored(c) == (orig.stored(c) && c != removed) by {
            if self.stored(c) {
                let p = choose|p: int| 0 <= p < self.keys@.len() && self.keys@[p] == c;
                let op = if p < i { p } else { p + 1 };
                assert(orig.keys@[op] == c);
                if c == removed {
                    orig.lemma_key_unique(op, i);
                }
            }
            if orig.stored(c) && c != removed {
                let m = orig.key_index(c);
                assert(orig.keys@[m] == c);
                let nm = if m < i { m } else { m - 1 };
                assert(self.keys@[nm] == c);
            }
        }
        assert forall|x: i32, y: i32| self.cell(x, y) == orig.cell(x, y) && self.heat_at(x, y) == orig.heat_at(x, y) by {
            let c = chunk_key(x, y);
            lemma_local_index(x, y);
            if c == removed {
                assert(!self.stored(c));
                assert(orig.key_index(c) == i);
                assert(orig.cells@[b * CHUNK_AREA + local_index(x, y)] == EMPTY);
                orig.lemma_position(x, y);
                assert(orig.cells@[orig.position(x, y)] == EMPTY);
            } else if orig.stored(c) {
                let m = orig.key_index(c);
                assert(orig.keys@[m] == c);
                assert(m != i);
                let nm = if m < i { m } else { m - 1 };
                assert(self.keys@[nm] == c);
                self.lemma_key_index(nm);
                assert(self.slots@[nm] == relocated(b, last, orig.slots@[m] as int));
                assert(self.cells@[relocated(b, last, orig.slots@[m] as int) * CHUNK_AREA + local_index(x, y)] == orig.cells@[orig.slots@[m] * CHUNK_AREA + local_index(x, y)]);
            }
        }
        assert forall|c: ChunkCoord| c != removed implies #[trigger] self.vacant(c) == orig.vacant(c) by {
            if orig.stored(c) {
                let m = orig.key_index(c);
                assert(orig.keys@[m] == c);
                assert(m != i);
                let nm = if m < i { m } else { m - 1 };
                assert(self.keys@[nm] == c);
                self.lemma_key_index(nm);
                assert(self.key_index(c) == nm);
                let s = orig.slots@[m] as int;
                assert(self.slots@[nm] == relocated(b, last, s));
                let ns = relocated(b, last, s);
                if self.vacant(c) {
                    assert forall|o: int| 0 <= o < CHUNK_AREA implies #[trigger] orig.cells@[orig.slots@[orig.key_index(c)] * CHUNK_AREA + o] == EMPTY by {
                        assert(self.cells@[relocated(b, last, orig.slots@[m] as int) * CHUNK_AREA + o] == orig.cells@[orig.slots@[m] * CHUNK_AREA + o]);
                        assert(self.cells@[self.slots@[self.key_index(c)] * CHUNK_AREA + o] == EMPTY);
                    }
                }
                if orig.vacant(c) {
                    assert forall|o: int| 0 <= o < CHUNK_AREA implies #[trigger] self.cells@[self.slots@[self.key_index(c)] * CHUNK_AREA + o] == EMPTY by {
                        assert(self.cells@[relocated(b, last, orig.slots@[m] as int) * CHUNK_AREA + o] == orig.cells@[orig.slots@[m] * CHUNK_AREA + o]);
                        assert(orig.cells@[orig.slots@[orig.key_index(c)] * CHUNK_AREA + o] == EMPTY);
                    }
                }
            } else {
                assert(!self.stored(c));
            }
        }
    }

    /// Drops chunks that hold nothing, so a region that empties out stops costing
    /// memory. Allocation is never observable in the world state: reading a missing
    /// chunk and reading an empty one give the same answer.
    pub fn compact(&mut self)
        requires
            old(self).wf(),
        ensures
            final(self).wf(),
            forall|x: i32, y: i32| #[trigger] final(self).cell(x, y) == old(self).cell(x, y),
            forall|x: i32, y: i32| #[trigger] final(self).heat_at(x, y) == old(self).heat_at(x, y),
            forall|k: ElementId| k != EMPTY ==> #[trigger] final(self).census(k) == old(self).census(k),
            forall|c: ChunkCoord| #[trigger] final(self).stored(c) == (old(self).stored(c) && !old(self).vacant(c)),
            forall|c: ChunkCoord| #[trigger] final(self).stored(c) == (old(self).stored(c) && old(self).holds_matter(c)),
            final(self).spec_keys() == old(self).spec_keys().filter(|c: ChunkCoord| old(self).holds_matter(c)),
            final(self).is_sleeping() == old(self).is_sleeping(),
            final(self).spec_viewport() == old(self).spec_viewport(),
            final(self).spec_margin() == old(self).spec_margin(),
    {
        let mut i: usize = 0;
        while i < self.keys.len()
            invariant
                self.wf(),
                i <= self.keys@.len(),
                forall|x: i32, y: i32| #[trigger] self.cell(x, y) == old(self).cell(x, y),
                forall|x: i32, y: i32| #[trigger] self.heat_at(x, y) == old(self).heat_at(x, y),
                forall|k: ElementId| k != EMPTY ==> #[trigger] self.census(k) == old(self).census(k),
                forall|c: ChunkCoord| #[trigger] self.stored(c) ==> old(self).stored(c) && self.vacant(c) == old(self).vacant(c),
                forall|c: ChunkCoord| old(self).stored(c) && !old(self).vacant(c) ==> #[trigger] self.stored(c),
                forall|p: int| 0 <= p < i ==> !self.vacant(#[trigger] self.keys@[p]),
                self.sleeping == old(self).sleeping,
                self.viewport == old(self).viewport,
                self.viewport_margin == old(self).viewport_margin,
            decreases self.keys@.len() - i,
        {
            proof {
                self.lemma_key_index(i as int);
            }
            let b = self.slots[i];
            if self.block_vacant(b) {
                let ghost before = *self;
                let ghost gone = self.keys@[i as int];
                self.drop_chunk(i);
                proof {
                    assert forall|c: ChunkCoord| #[trigger] self.stored(c) == (before.stored(c) && c != gone) by {
                        if self.stored(c) {
                            let p = choose|p: int| 0 <= p < self.keys@.len() && self.keys@[p] == c;
                            let op = if p < i { p } else { p + 1 };
                            assert(before.keys@[op] == c);
                            if c == gone {
                                before.lemma_key_unique(op, i as int);
                            }
                        }
                        if before.stored(c) && c != gone {
                            let m = before.key_index(c);
                            assert(before.keys@[m] == c);
                            let nm = if m < i { m } else { m - 1 };
                            assert(self.keys@[nm] == c);
                        }
                    }
                    assert forall|p: int| 0 <= p < i implies !self.vacant(#[trigger] self.keys@[p]) by {
                        assert(self.keys@[p] == before.keys@[p]);
                        assert(coord_lt(before.keys@[p], before.keys@[i as int]));
                    }
                }
            } else {
                i = i + 1;
            }
        }
        proof {
            assert forall|c: ChunkCoord| #[trigger] self.stored(c) == (old(self).stored(c) && !old(self).vacant(c)) by {
                if self.stored(c) {
                    let p = self.key_index(c);
                    assert(self.keys@[p] == c);
                }
            }
            assert forall|c: ChunkCoord| #[trigger] self.stored(c) == (old(self).stored(c) && old(self).holds_matter(c)) by {
                if old(self).stored(c) {
                    old(self).lemma_vacant(c);
                }
            }
            let pred = |c: ChunkCoord| old(self).holds_matter(c);
            let kept = old(self).keys@.filter(pred);
            lemma_filter_sorted(old(self).keys@, pred);
            assert forall|c: ChunkCoord| self.keys@.contains(c) <==> kept.contains(c) by {
                broadcast use vstd::seq_lib::group_seq_lib_default;

                if self.keys@.contains(c) {
                    let k = choose|k: int| 0 <= k < self.keys@.len() && self.keys@[k] == c;
                    assert(self.stored(c));
                    let m = choose|m: int| 0 <= m < old(self).keys@.len() && old(self).keys@[m] == c;
                    old(self).keys@.lemma_filter_contains(pred, m);
                }
                if kept.contains(c) {
                    old(self).keys@.lemma_filter_contains_rev(pred, c);
                    let k = choose|k: int| 0 <= k < kept.len() && kept[k] == c;
                    old(self).keys@.lemma_filter_pred(pred, k);
                    assert(old(self).stored(c));
                    assert(self.stored(c));
                }
            }
            lemma_sorted_unique(self.keys@, kept);
        }
    }
}

} // verus!
