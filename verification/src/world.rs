//! The simulation state and its public surface.
//!
//! `World` is the real one, backed by sparse chunks on an infinite canvas. `FlatWorld`
//! is a fixed rectangle, kept as the reference implementation the chunked one is
//! measured against.
//!
//! Note what is absent from both: no clock, no file handles, no renderer.

use vstd::prelude::*;
use crate::chunk::{chunk_key, ChunkMap};
use crate::elements::{ElementId, ElementView, EMPTY};
use crate::entities::{self, Behaviour, Entity, EntityKind, EntityType, EntityTypeView, body_spec, fits_spec};
use crate::field::{changes_reported, region_holds, Bounds, CellField, occupied};
use crate::grid::Grid;
use crate::hash::{Hasher, OFFSET_BASIS, fnv_bytes, fnv_step, le_bytes_u32, le_bytes_u64, lemma_fnv_append};
use crate::heat;
use crate::heat::AMBIENT_TEMPERATURE;
use crate::rules::Rules;
use crate::step;

verus! {

/// The bytes one cell contributes to a fingerprint: its position, its element and its
/// temperature. Empty cells contribute nothing.
pub open spec fn cell_record<F: CellField>(f: F, x: i32, y: i32) -> Seq<u8> {
    if occupied(f, x, y) {
        le_bytes_u32(x as u32) + le_bytes_u32(y as u32) + seq![f.cell(x, y).unwrap()] + seq![
            f.heat_at(x, y) as u8,
            ((f.heat_at(x, y) as u16) >> 8u16) as u8,
        ]
    } else {
        Seq::empty()
    }
}

/// The records of row `y`, from column `x` to `max_x`.
pub open spec fn row_records<F: CellField>(f: F, y: i32, x: int, max_x: int) -> Seq<u8>
    decreases max_x - x + 1,
{
    if x > max_x || x > i32::MAX || x < i32::MIN {
        Seq::empty()
    } else {
        cell_record(f, x as i32, y) + row_records(f, y, x + 1, max_x)
    }
}

/// The records of rows `y..=b.max_y`, each row left to right.
pub open spec fn region_records<F: CellField>(f: F, b: Bounds, y: int) -> Seq<u8>
    decreases b.max_y - y + 1,
{
    if y > b.max_y || y < i32::MIN {
        Seq::empty()
    } else {
        row_records(f, y as i32, b.min_x as int, b.max_x as int) + region_records(f, b, y + 1)
    }
}

/// A field's contents in canonical form: every occupied cell of the swept region, in
/// global row order. Empty cells are skipped, so how the material is stored, and which
/// chunks happen to exist, does not enter into it.
pub open spec fn canonical_records<F: CellField>(f: F) -> Seq<u8> {
    match f.region() {
        Some(b) => region_records(f, b, b.min_y as int),
        None => Seq::empty(),
    }
}

/// Two fields hold the same matter: the same occupied cells, with the same contents
/// and temperatures. How, or whether, their empty space is stored does not enter into
/// it.
pub open spec fn same_occupants<F: CellField, G: CellField>(f: F, g: G) -> bool {
    forall|x: i32, y: i32|
        #![trigger f.cell(x, y)]
        #![trigger g.cell(x, y)]
        occupied(f, x, y) == occupied(g, x, y) && (occupied(f, x, y) ==> f.cell(x, y) == g.cell(x, y) && f.heat_at(x, y)
            == g.heat_at(x, y))
}

/// A row with nothing occupied from `x` to `max_x` has no records there.
proof fn lemma_row_vacant<F: CellField>(f: F, y: i32, x: int, max_x: int)
    requires
        forall|i: i32| x <= i <= max_x ==> !#[trigger] occupied(f, i, y),
    ensures
        row_records(f, y, x, max_x) == Seq::<u8>::empty(),
    decreases max_x - x + 1,
{
    if !(x > max_x || x > i32::MAX || x < i32::MIN) {
        assert(!occupied(f, x as i32, y));
        lemma_row_vacant(f, y, x + 1, max_x);
        assert(row_records(f, y, x, max_x) =~= Seq::<u8>::empty());
    }
}

/// Vacant cells at the start of a row's range add nothing.
proof fn lemma_row_skip<F: CellField>(f: F, y: i32, x: int, x2: int, max_x: int)
    requires
        x <= x2,
        i32::MIN <= x,
        forall|i: i32| x <= i < x2 ==> !#[trigger] occupied(f, i, y),
    ensures
        row_records(f, y, x, max_x) == row_records(f, y, x2, max_x),
    decreases x2 - x,
{
    if x < x2 {
        if x > max_x || x > i32::MAX {
            lemma_row_vacant(f, y, x2, max_x);
            lemma_row_vacant_beyond(f, y, x2, max_x);
        } else {
            assert(!occupied(f, x as i32, y));
            lemma_row_skip(f, y, x + 1, x2, max_x);
            assert(row_records(f, y, x, max_x) =~= row_records(f, y, x + 1, max_x));
        }
    }
}

/// A range that starts past its end, or off the plane, is empty.
proof fn lemma_row_vacant_beyond<F: CellField>(f: F, y: i32, x: int, max_x: int)
    requires
        x > max_x || x > i32::MAX || x < i32::MIN,
    ensures
        row_records(f, y, x, max_x) == Seq::<u8>::empty(),
{
}

/// Vacant cells at the end of a row's range add nothing.
proof fn lemma_row_trim<F: CellField>(f: F, y: i32, x: int, max_x: int, max2: int)
    requires
        max_x <= max2,
        max2 <= i32::MAX,
        forall|i: i32| max_x < i <= max2 ==> !#[trigger] occupied(f, i, y),
    ensures
        row_records(f, y, x, max_x) == row_records(f, y, x, max2),
    decreases max2 - x + 1,
{
    if x > max2 || x > i32::MAX || x < i32::MIN {
    } else if x > max_x {
        lemma_row_vacant(f, y, x, max2);
    } else {
        lemma_row_trim(f, y, x + 1, max_x, max2);
    }
}

/// The same matter gives the same records, row by row.
proof fn lemma_row_same<F: CellField, G: CellField>(f: F, g: G, y: i32, x: int, max_x: int)
    requires
        same_occupants(f, g),
    ensures
        row_records(f, y, x, max_x) == row_records(g, y, x, max_x),
    decreases max_x - x + 1,
{
    if !(x > max_x || x > i32::MAX || x < i32::MIN) {
        assert(f.cell(x as i32, y) == f.cell(x as i32, y));
        assert(cell_record(f, x as i32, y) == cell_record(g, x as i32, y));
        lemma_row_same(f, g, y, x + 1, max_x);
    }
}

/// Rows `y..` of a box `inner` inside a box `outer`, when every occupied cell lies in
/// `inner`, give the same records read over either box.
proof fn lemma_rows_widen<F: CellField>(f: F, inner: Bounds, outer: Bounds, y: int)
    requires
        outer.min_x <= inner.min_x,
        inner.max_x <= outer.max_x,
        outer.min_y <= inner.min_y,
        inner.max_y <= outer.max_y,
        inner.min_y <= y,
        forall|i: i32, j: i32| #[trigger] occupied(f, i, j) ==> inner.contains(i as int, j as int),
    ensures
        region_records(f, inner, y) == region_records(f, outer, y),
    decreases outer.max_y - y + 1,
{
    if y > outer.max_y || y < i32::MIN {
    } else {
        let row = y as i32;
        if y <= inner.max_y {
            lemma_row_skip(f, row, outer.min_x as int, inner.min_x as int, outer.max_x as int);
            lemma_row_trim(f, row, inner.min_x as int, inner.max_x as int, outer.max_x as int);
            lemma_rows_widen(f, inner, outer, y + 1);
        } else {
            lemma_row_vacant(f, row, outer.min_x as int, outer.max_x as int);
            lemma_rows_vacant(f, inner, y + 1);
            lemma_rows_widen_tail(f, inner, outer, y);
        }
    }
}

/// Past the last row of a box there are no records.
proof fn lemma_rows_vacant<F: CellField>(f: F, b: Bounds, y: int)
    requires
        y > b.max_y,
    ensures
        region_records(f, b, y) == Seq::<u8>::empty(),
{
}

/// Rows below everything occupied add nothing to the wider box.
proof fn lemma_rows_widen_tail<F: CellField>(f: F, inner: Bounds, outer: Bounds, y: int)
    requires
        y > inner.max_y,
        forall|i: i32, j: i32| #[trigger] occupied(f, i, j) ==> inner.contains(i as int, j as int),
    ensures
        region_records(f, outer, y) == Seq::<u8>::empty(),
    decreases outer.max_y - y + 1,
{
    if !(y > outer.max_y || y < i32::MIN) {
        assert forall|i: i32| outer.min_x <= i <= outer.max_x implies !#[trigger] occupied(f, i, y as i32) by {
            if occupied(f, i, y as i32) {
                assert(inner.contains(i as int, y));
            }
        }
        lemma_row_vacant(f, y as i32, outer.min_x as int, outer.max_x as int);
        lemma_rows_widen_tail(f, inner, outer, y + 1);
        assert(region_records(f, outer, y) =~= Seq::<u8>::empty());
    }
}

/// Rows of a box above everything occupied add nothing.
proof fn lemma_rows_lead<F: CellField>(f: F, b: Bounds, y: int, first: int)
    requires
        y <= first,
        b.min_y <= y,
        forall|i: i32, j: i32| #[trigger] occupied(f, i, j) ==> first <= j,
    ensures
        region_records(f, b, y) == region_records(f, b, first),
    decreases first - y,
{
    if y < first && !(y > b.max_y || y < i32::MIN) {
        assert forall|i: i32| b.min_x <= i <= b.max_x implies !#[trigger] occupied(f, i, y as i32) by {
        }
        lemma_row_vacant(f, y as i32, b.min_x as int, b.max_x as int);
        lemma_rows_lead(f, b, y + 1, first);
        assert(region_records(f, b, y) =~= region_records(f, b, y + 1));
    } else if y < first {
        lemma_rows_past(f, b, y, first);
    }
}

/// Past the last row, or off the plane, there are no records.
proof fn lemma_rows_past<F: CellField>(f: F, b: Bounds, y: int, first: int)
    requires
        y <= first,
        y > b.max_y || y < i32::MIN,
        b.min_y <= y,
    ensures
        region_records(f, b, y) == region_records(f, b, first),
{
}

/// The same matter gives the same records over any box.
proof fn lemma_rows_same<F: CellField, G: CellField>(f: F, g: G, b: Bounds, y: int)
    requires
        same_occupants(f, g),
    ensures
        region_records(f, b, y) == region_records(g, b, y),
    decreases b.max_y - y + 1,
{
    if !(y > b.max_y || y < i32::MIN) {
        lemma_row_same(f, g, y as i32, b.min_x as int, b.max_x as int);
        lemma_rows_same(f, g, b, y + 1);
    }
}

/// A field's canonical records, read over any box holding its region.
proof fn lemma_canonical_over<F: CellField>(f: F, outer: Bounds)
    requires
        f.field_inv(),
        f.region() is Some,
        outer.min_x <= f.region().unwrap().min_x,
        f.region().unwrap().max_x <= outer.max_x,
        outer.min_y <= f.region().unwrap().min_y,
        f.region().unwrap().max_y <= outer.max_y,
    ensures
        canonical_records(f) == region_records(f, outer, outer.min_y as int),
{
    let b = f.region().unwrap();
    assert forall|i: i32, j: i32| #[trigger] occupied(f, i, j) implies b.contains(i as int, j as int) by {
        f.lemma_field(i, j);
    }
    lemma_rows_widen(f, b, outer, b.min_y as int);
    lemma_rows_lead(f, outer, outer.min_y as int, b.min_y as int);
}

/// With nothing occupied, a box has no records.
proof fn lemma_rows_empty<F: CellField>(f: F, b: Bounds, y: int)
    requires
        forall|i: i32, j: i32| !#[trigger] occupied(f, i, j),
    ensures
        region_records(f, b, y) == Seq::<u8>::empty(),
    decreases b.max_y - y + 1,
{
    if !(y > b.max_y || y < i32::MIN) {
        lemma_row_vacant(f, y as i32, b.min_x as int, b.max_x as int);
        lemma_rows_empty(f, b, y + 1);
        assert(region_records(f, b, y) =~= Seq::<u8>::empty());
    }
}

/// Storage is invisible to the canonical form: two fields holding the same matter,
/// whatever their kinds and however much empty space each happens to store, have the
/// same canonical records.
pub proof fn lemma_storage_independent<F: CellField, G: CellField>(f: F, g: G)
    requires
        f.field_inv(),
        g.field_inv(),
        same_occupants(f, g),
    ensures
        canonical_records(f) == canonical_records(g),
{
    match (f.region(), g.region()) {
        (Some(bf), Some(bg)) => {
            let outer = Bounds {
                min_x: if bf.min_x <= bg.min_x { bf.min_x } else { bg.min_x },
                min_y: if bf.min_y <= bg.min_y { bf.min_y } else { bg.min_y },
                max_x: if bf.max_x >= bg.max_x { bf.max_x } else { bg.max_x },
                max_y: if bf.max_y >= bg.max_y { bf.max_y } else { bg.max_y },
            };
            lemma_canonical_over(f, outer);
            lemma_canonical_over(g, outer);
            lemma_rows_same(f, g, outer, outer.min_y as int);
        },
        (Some(bf), None) => {
            assert forall|i: i32, j: i32| !#[trigger] occupied(f, i, j) by {
                g.lemma_field(i, j);
                assert(g.cell(i, j) == g.cell(i, j));
            }
            lemma_rows_empty(f, bf, bf.min_y as int);
        },
        (None, Some(bg)) => {
            assert forall|i: i32, j: i32| !#[trigger] occupied(g, i, j) by {
                f.lemma_field(i, j);
                assert(f.cell(i, j) == f.cell(i, j));
            }
            lemma_rows_empty(g, bg, bg.min_y as int);
        },
        (None, None) => {},
    }
}

/// Whether the cell holds money.
pub open spec fn currency_at<F: CellField>(f: F, els: Seq<Option<ElementView>>, x: i32, y: i32) -> bool {
    match f.cell(x, y) {
        Some(id) => (id as int) < els.len() && els[id as int] is Some && els[id as int].unwrap().currency,
        None => false,
    }
}

/// Money cells of row `y` from column `x` to `x1`, left to right.
pub open spec fn row_vault<F: CellField>(f: F, els: Seq<Option<ElementView>>, y: i32, x: int, x1: int) -> Seq<(i32, i32)>
    decreases x1 - x + 1,
{
    if x > x1 || x > i32::MAX || x < i32::MIN {
        Seq::empty()
    } else {
        (if currency_at(f, els, x as i32, y) {
            seq![(x as i32, y)]
        } else {
            Seq::empty()
        }) + row_vault(f, els, y, x + 1, x1)
    }
}

/// Money cells of rows `y..=y1`, top row down.
pub open spec fn area_vault<F: CellField>(f: F, els: Seq<Option<ElementView>>, x0: int, x1: int, y: int, y1: int) -> Seq<(i32, i32)>
    decreases y1 - y + 1,
{
    if y > y1 || y > i32::MAX || y < i32::MIN {
        Seq::empty()
    } else {
        row_vault(f, els, y as i32, x0, x1) + area_vault(f, els, x0, x1, y + 1, y1)
    }
}

/// Whether `e` is a vault: its type exists and stores.
pub open spec fn is_vault(types: Seq<Option<EntityTypeView>>, e: Entity) -> bool {
    (e.kind as int) < types.len() && types[e.kind as int] is Some && types[e.kind as int].unwrap().behaviour == Behaviour::Store
}

/// Money cells inside one machine, if it is a vault.
pub open spec fn entity_vault<F: CellField>(f: F, els: Seq<Option<ElementView>>, types: Seq<Option<EntityTypeView>>, e: Entity) -> Seq<(i32, i32)> {
    if is_vault(types, e) && fits_spec(e) {
        area_vault(f, els, body_spec(e).0, body_spec(e).2, body_spec(e).1, body_spec(e).3)
    } else {
        Seq::empty()
    }
}

/// Money cells inside vaults `i..`, in placement order: the balance, cell by cell. A
/// cell inside two overlapping vaults is counted in each.
pub open spec fn vaults_from<F: CellField>(f: F, els: Seq<Option<ElementView>>, types: Seq<Option<EntityTypeView>>, es: Seq<Entity>, i: int) -> Seq<(i32, i32)>
    decreases es.len() - i,
{
    if i < 0 || i >= es.len() {
        Seq::empty()
    } else {
        entity_vault(f, els, types, es[i]) + vaults_from(f, els, types, es, i + 1)
    }
}

/// Whether empty space counts as money in this table: never, in a table read from
/// data, which cannot define the empty id.
pub open spec fn empty_is_money(els: Seq<Option<ElementView>>) -> bool {
    0 < els.len() && els[0] is Some && els[0].unwrap().currency
}

/// Keeps the cells outside `t`.
pub open spec fn outside(t: Set<(i32, i32)>) -> spec_fn((i32, i32)) -> bool {
    |c: (i32, i32)| !t.contains(c)
}

/// When the cells of `t` stop being money and no others change, a row's money cells
/// are the ones it had, in order, less those of `t`.
proof fn lemma_row_vault_outside<F: CellField>(f: F, g: F, els: Seq<Option<ElementView>>, t: Set<(i32, i32)>, y: i32, x: int, x1: int)
    requires
        forall|a: i32, b: i32| #[trigger] currency_at(g, els, a, b) == (currency_at(f, els, a, b) && !t.contains((a, b))),
    ensures
        row_vault(g, els, y, x, x1) == row_vault(f, els, y, x, x1).filter(outside(t)),
    decreases x1 - x + 1,
{
    broadcast use vstd::seq_lib::group_seq_lib_default;

    if x > x1 || x > i32::MAX || x < i32::MIN {
        assert(Seq::<(i32, i32)>::empty().filter(outside(t)) =~= Seq::<(i32, i32)>::empty());
    } else {
        lemma_row_vault_outside(f, g, els, t, y, x + 1, x1);
        let c = (x as i32, y);
        let head = if currency_at(f, els, x as i32, y) {
            seq![c]
        } else {
            Seq::<(i32, i32)>::empty()
        };
        Seq::filter_distributes_over_add(head, row_vault(f, els, y, x + 1, x1), outside(t));
        assert(currency_at(g, els, x as i32, y) == (currency_at(f, els, x as i32, y) && !t.contains(c)));
        if currency_at(f, els, x as i32, y) {
            assert(seq![c] =~= Seq::<(i32, i32)>::empty().push(c));
            Seq::<(i32, i32)>::empty().lemma_filter_push(c, outside(t));
            assert(Seq::<(i32, i32)>::empty().filter(outside(t)) =~= Seq::<(i32, i32)>::empty());
        } else {
            assert(Seq::<(i32, i32)>::empty().filter(outside(t)) =~= Seq::<(i32, i32)>::empty());
        }
    }
}

/// The same, for rows `y..=y1`.
proof fn lemma_area_vault_outside<F: CellField>(f: F, g: F, els: Seq<Option<ElementView>>, t: Set<(i32, i32)>, x0: int, x1: int, y: int, y1: int)
    requires
        forall|a: i32, b: i32| #[trigger] currency_at(g, els, a, b) == (currency_at(f, els, a, b) && !t.contains((a, b))),
    ensures
        area_vault(g, els, x0, x1, y, y1) == area_vault(f, els, x0, x1, y, y1).filter(outside(t)),
    decreases y1 - y + 1,
{
    broadcast use vstd::seq_lib::group_seq_lib_default;

    if y > y1 || y > i32::MAX || y < i32::MIN {
        assert(Seq::<(i32, i32)>::empty().filter(outside(t)) =~= Seq::<(i32, i32)>::empty());
    } else {
        lemma_row_vault_outside(f, g, els, t, y as i32, x0, x1);
        lemma_area_vault_outside(f, g, els, t, x0, x1, y + 1, y1);
        Seq::filter_distributes_over_add(row_vault(f, els, y as i32, x0, x1), area_vault(f, els, x0, x1, y + 1, y1), outside(t));
    }
}

/// The same, for the vaults among machines `i..`.
proof fn lemma_vaults_outside<F: CellField>(f: F, g: F, els: Seq<Option<ElementView>>, types: Seq<Option<EntityTypeView>>, es: Seq<Entity>, t: Set<(i32, i32)>, i: int)
    requires
        forall|a: i32, b: i32| #[trigger] currency_at(g, els, a, b) == (currency_at(f, els, a, b) && !t.contains((a, b))),
    ensures
        vaults_from(g, els, types, es, i) == vaults_from(f, els, types, es, i).filter(outside(t)),
    decreases es.len() - i,
{
    broadcast use vstd::seq_lib::group_seq_lib_default;

    if i < 0 || i >= es.len() {
        assert(Seq::<(i32, i32)>::empty().filter(outside(t)) =~= Seq::<(i32, i32)>::empty());
    } else {
        let e = es[i];
        if is_vault(types, e) && fits_spec(e) {
            lemma_area_vault_outside(f, g, els, t, body_spec(e).0, body_spec(e).2, body_spec(e).1, body_spec(e).3);
        } else {
            assert(Seq::<(i32, i32)>::empty().filter(outside(t)) =~= Seq::<(i32, i32)>::empty());
        }
        lemma_vaults_outside(f, g, els, types, es, t, i + 1);
        Seq::filter_distributes_over_add(entity_vault(f, els, types, e), vaults_from(f, els, types, es, i + 1), outside(t));
    }
}

/// Keeping what a predicate holds of everywhere keeps everything; keeping what it
/// holds of nowhere keeps nothing.
proof fn lemma_filter_whole(s: Seq<(i32, i32)>, pred: spec_fn((i32, i32)) -> bool)
    ensures
        (forall|k: int| 0 <= k < s.len() ==> pred(#[trigger] s[k])) ==> s.filter(pred) == s,
        (forall|k: int| 0 <= k < s.len() ==> !pred(#[trigger] s[k])) ==> s.filter(pred).len() == 0,
    decreases s.len(),
{
    broadcast use vstd::seq_lib::group_seq_lib_default;

    if s.len() == 0 {
        assert(s.filter(pred) =~= s);
    } else {
        let front = s.drop_last();
        lemma_filter_whole(front, pred);
        assert(s =~= front.push(s.last()));
        front.lemma_filter_push(s.last(), pred);
        if forall|k: int| 0 <= k < s.len() ==> pred(#[trigger] s[k]) {
            assert forall|k: int| 0 <= k < front.len() implies pred(#[trigger] front[k]) by {
                assert(front[k] == s[k]);
            }
            assert(pred(s[s.len() - 1]));
        }
        if forall|k: int| 0 <= k < s.len() ==> !pred(#[trigger] s[k]) {
            assert forall|k: int| 0 <= k < front.len() implies !pred(#[trigger] front[k]) by {
                assert(front[k] == s[k]);
            }
            assert(!pred(s[s.len() - 1]));
        }
    }
}

/// Where no cell repeats, leaving out the first `r` cells leaves the rest.
proof fn lemma_outside_prefix(s: Seq<(i32, i32)>, r: int)
    requires
        0 <= r <= s.len(),
        s.no_duplicates(),
    ensures
        s.filter(outside(s.subrange(0, r).to_set())) == s.subrange(r, s.len() as int),
{
    broadcast use vstd::seq_lib::group_seq_lib_default;

    let t = s.subrange(0, r).to_set();
    let front = s.subrange(0, r);
    let back = s.subrange(r, s.len() as int);
    assert(s =~= front + back);
    Seq::filter_distributes_over_add(front, back, outside(t));
    assert forall|k: int| 0 <= k < front.len() implies !outside(t)(#[trigger] front[k]) by {
        assert(front.contains(front[k]));
    }
    assert forall|k: int| 0 <= k < back.len() implies outside(t)(#[trigger] back[k]) by {
        if t.contains(back[k]) {
            assert(front.contains(back[k]));
            let j = choose|j: int| 0 <= j < front.len() && front[j] == back[k];
            assert(s[j] == s[r + k]);
        }
    }
    lemma_filter_whole(front, outside(t));
    lemma_filter_whole(back, outside(t));
    assert(front.filter(outside(t)) =~= Seq::<(i32, i32)>::empty());
}

/// Every cell that could move lies in or next to a chunk where a change has been
/// reported since the tick now running began: the bookkeeping that lets a sleeping
/// world skip the rest without being seen to.
pub open spec fn faithful(f: ChunkMap, els: Seq<Option<ElementView>>) -> bool {
    forall|x: i32, y: i32| !#[trigger] step::settled(step::fresh_sweep(heat::model_of(f)), els, x, y) ==> f.near_activity(chunk_key(x, y))
}

/// A world whose every chunk has reported a change since the tick began, as one just
/// built, is faithful.
pub proof fn lemma_all_active_faithful(f: ChunkMap, els: Seq<Option<ElementView>>)
    requires
        f.all_active(),
    ensures
        faithful(f, els),
{
    assert forall|x: i32, y: i32| !#[trigger] step::settled(step::fresh_sweep(heat::model_of(f)), els, x, y) implies f.near_activity(
        chunk_key(x, y),
    ) by {
        f.lemma_matter_stored(x, y);
        let c = chunk_key(x, y);
        assert(f.chunk_dirty(c) && crate::chunk::touching(c, c));
    }
}

/// Running `a` ticks and then `b` more is running `a + b`.
pub proof fn lemma_run_split(s: WorldState, rules: Rules, seed: u64, tick: int, a: nat, b: nat)
    ensures
        world_run(world_run(s, rules, seed, tick, a), rules, seed, tick + a, b) == world_run(s, rules, seed, tick, a + b),
    decreases b,
{
    if b > 0 {
        lemma_run_split(s, rules, seed, tick, a, (b - 1) as nat);
        assert((a + b - 1) as nat == (a + (b - 1)) as nat);
    }
}

/// A world with no machines and no reactions, everywhere at ambient temperature, where
/// nothing present changes state at ambient temperature: one in which only movement
/// happens.
pub open spec fn still_world(w: World) -> bool {
    &&& w.spec_entities().len() == 0
    &&& w.spec_rules().reactions@.len() == 0
    &&& heat::cold_model(heat::model_of(w.spec_field()))
    &&& heat::calm_model(heat::model_of(w.spec_field()), w.spec_rules().elements@)
}

/// A flat world, a nonempty rectangle of the plane, with no machines and no reactions,
/// everywhere at ambient temperature, where nothing present changes state at ambient
/// temperature: one in which only movement happens.
pub open spec fn still_flat(w: FlatWorld) -> bool {
    &&& w.spec_entities().len() == 0
    &&& w.spec_rules().reactions@.len() == 0
    &&& 1 <= w.spec_field().spec_width() <= i32::MAX
    &&& 1 <= w.spec_field().spec_height() <= i32::MAX
    &&& heat::cold_model(heat::model_of(w.spec_field()))
    &&& heat::calm_model(heat::model_of(w.spec_field()), w.spec_rules().elements@)
}

/// Grids that count every id alike hold the same ids, so one where nothing changes
/// state at ambient temperature makes another so.
proof fn lemma_flat_calm_by_census(a: Grid, b: Grid, els: Seq<Option<ElementView>>)
    requires
        a.wf(),
        b.wf(),
        1 <= a.spec_width() <= i32::MAX,
        1 <= a.spec_height() <= i32::MAX,
        b.spec_width() == a.spec_width(),
        b.spec_height() == a.spec_height(),
        heat::calm_model(heat::model_of(a), els),
        forall|k: ElementId| #[trigger] b.census(k) == a.census(k),
    ensures
        heat::calm_model(heat::model_of(b), els),
{
    let mb = heat::model_of(b);
    let ma = heat::model_of(a);
    assert forall|x: i32, y: i32| heat::holds_matter(mb, x, y) && #[trigger] heat::defined_at(mb, els, x, y) is Some implies heat::transition_target(
        heat::defined_at(mb, els, x, y).unwrap(),
        AMBIENT_TEMPERATURE as int,
    ) == EMPTY by {
        let k = b.cell(x, y).unwrap();
        crate::grid::lemma_census_present(b, k);
        crate::grid::lemma_census_present(a, k);
        let (i, j) = choose|i: i32, j: i32| #[trigger] a.cell(i, j) == Some(k);
        assert(heat::defined_at(ma, els, i, j) == heat::defined_at(mb, els, x, y));
        assert(heat::holds_matter(ma, i, j));
    }
}

/// A still flat world's tick: the machine pass leaves it as it is, movement only
/// rearranges it, and the heat pass leaves it as it is, so it stays still and counts
/// every id alike.
proof fn lemma_flat_still_step(f0: Grid, f1: Grid, f2: Grid, f3: Grid, moved: heat::HeatModel, els: Seq<Option<ElementView>>)
    requires
        f0.wf(),
        f1.wf(),
        f2.wf(),
        f3.wf(),
        1 <= f0.spec_width() <= i32::MAX,
        1 <= f0.spec_height() <= i32::MAX,
        heat::cold_model(heat::model_of(f0)),
        heat::calm_model(heat::model_of(f0), els),
        forall|x: i32, y: i32| #[trigger] f1.cell(x, y) == f0.cell(x, y) && f1.heat_at(x, y) == f0.heat_at(x, y),
        f1.region_spec() == f0.region_spec(),
        f2.region_spec() == f0.region_spec(),
        f3.region_spec() == f0.region_spec(),
        forall|k: ElementId| #[trigger] f2.census(k) == f1.census(k),
        crate::field::cold_kept(f1, f2),
        heat::agrees(f2, moved),
        heat::agrees(f3, heat::heat_step_spec(moved, els, f2.region())),
    ensures
        f3.spec_width() == f0.spec_width(),
        f3.spec_height() == f0.spec_height(),
        heat::cold_model(heat::model_of(f3)),
        heat::calm_model(heat::model_of(f3), els),
        forall|k: ElementId| #[trigger] f3.census(k) == f0.census(k),
{
    crate::grid::lemma_same_cells_census(f0, f1);
    assert forall|x: i32, y: i32| #[trigger] f1.heat_at(x, y) == f0.heat_at(x, y) by {
        assert(f1.cell(x, y) == f0.cell(x, y));
    }
    assert(heat::model_of(f1).heat =~= heat::model_of(f0).heat);
    assert(heat::model_of(f1).cell =~= heat::model_of(f0).cell);
    assert(f2.spec_width() == f0.spec_width() && f2.spec_height() == f0.spec_height());
    lemma_flat_calm_by_census(f1, f2, els);
    assert forall|x: i32, y: i32| #[trigger] f1.heat_at(x, y) == AMBIENT_TEMPERATURE by {
        assert((heat::model_of(f1).heat)(x, y) == AMBIENT_TEMPERATURE);
    }
    assert(heat::cold_model(moved)) by {
        assert forall|x: i32, y: i32| #[trigger] (moved.heat)(x, y) == AMBIENT_TEMPERATURE by {
            assert(f2.heat_at(x, y) == (moved.heat)(x, y));
        }
    }
    assert(heat::calm_model(moved, els)) by {
        assert forall|x: i32, y: i32| heat::holds_matter(moved, x, y) && #[trigger] heat::defined_at(moved, els, x, y) is Some implies heat::transition_target(
            heat::defined_at(moved, els, x, y).unwrap(),
            AMBIENT_TEMPERATURE as int,
        ) == EMPTY by {
            assert(f2.cell(x, y) == (moved.cell)(x, y));
            assert(heat::defined_at(heat::model_of(f2), els, x, y) == heat::defined_at(moved, els, x, y));
        }
    }
    heat::lemma_cold_calm_idle(moved, els, f2.region());
    assert forall|x: i32, y: i32| #[trigger] f3.cell(x, y) == f2.cell(x, y) && f3.heat_at(x, y) == f2.heat_at(x, y) by {
        assert((moved.cell)(x, y) == f2.cell(x, y));
    }
    crate::grid::lemma_same_cells_census(f2, f3);
    assert(heat::model_of(f3).heat =~= heat::model_of(f2).heat);
    assert(heat::model_of(f3).cell =~= heat::model_of(f2).cell);
}

/// Two fields that hold the same cells count every element alike.
proof fn lemma_same_cells_census(a: ChunkMap, b: ChunkMap)
    requires
        a.wf(),
        b.wf(),
        forall|x: i32, y: i32| #[trigger] a.cell(x, y) == b.cell(x, y),
    ensures
        forall|k: ElementId| k != EMPTY ==> #[trigger] b.census(k) == a.census(k),
{
    assert forall|k: ElementId| k != EMPTY implies #[trigger] b.census(k) == a.census(k) by {
        a.lemma_census(k);
        b.lemma_census(k);
        assert(a.cells_holding(k) =~= b.cells_holding(k));
    }
}

/// Fields that count every element alike hold the same elements, so one where nothing
/// changes state at ambient temperature makes another so.
proof fn lemma_calm_by_census(a: ChunkMap, b: ChunkMap, els: Seq<Option<ElementView>>)
    requires
        a.wf(),
        b.wf(),
        heat::calm_model(heat::model_of(a), els),
        forall|k: ElementId| k != EMPTY ==> #[trigger] b.census(k) == a.census(k),
    ensures
        heat::calm_model(heat::model_of(b), els),
{
    let mb = heat::model_of(b);
    let ma = heat::model_of(a);
    assert forall|x: i32, y: i32| heat::holds_matter(mb, x, y) && #[trigger] heat::defined_at(mb, els, x, y) is Some implies heat::transition_target(
        heat::defined_at(mb, els, x, y).unwrap(),
        AMBIENT_TEMPERATURE as int,
    ) == EMPTY by {
        let k = b.cell(x, y).unwrap();
        b.lemma_census(k);
        a.lemma_census(k);
        assert(b.cells_holding(k).contains((x, y)));
        vstd::set::axiom_set_contains_len(b.cells_holding(k), (x, y));
        assert(a.cells_holding(k).len() > 0);
        vstd::set::axiom_set_choose_len(a.cells_holding(k));
        let (i, j) = a.cells_holding(k).choose();
        assert(a.cell(i, j) == Some(k));
        assert(heat::defined_at(ma, els, i, j) == heat::defined_at(mb, els, x, y));
        assert(heat::holds_matter(ma, i, j));
    }
}

/// Reported activity within one cell of a cell counts as activity near its chunk.
proof fn lemma_activity_near(f: ChunkMap, x: i32, y: i32, i: i32, j: i32)
    requires
        step::near(x as int, y as int, i as int, j as int),
        f.active_at(i, j),
    ensures
        f.near_activity(chunk_key(x, y)),
{
    crate::chunk::lemma_near_cells_touch(x, y, i, j);
    assert(f.chunk_dirty(chunk_key(i, j)) && crate::chunk::touching(chunk_key(x, y), chunk_key(i, j)));
}

/// Changes that were all reported keep a world faithful: a cell that can move now
/// either has a reported change next to it, or could already move before, next to
/// activity that is still there.
pub proof fn lemma_reported_faithful(f0: ChunkMap, f1: ChunkMap, els: Seq<Option<ElementView>>)
    requires
        f0.wf(),
        faithful(f0, els),
        changes_reported(f0, f1),
    ensures
        faithful(f1, els),
{
    crate::chunk::ChunkMap::lemma_activity_kept(f0, f1);
    assert forall|x: i32, y: i32| !#[trigger] step::settled(step::fresh_sweep(heat::model_of(f1)), els, x, y) implies f1.near_activity(
        chunk_key(x, y),
    ) by {
        if exists|i: i32, j: i32| step::near(x as int, y as int, i as int, j as int) && #[trigger] f1.cell(i, j) != f0.cell(i, j) {
            let (i, j) = choose|i: i32, j: i32| step::near(x as int, y as int, i as int, j as int) && #[trigger] f1.cell(i, j) != f0.cell(i, j);
            lemma_activity_near(f1, x, y, i, j);
        } else {
            let a = step::fresh_sweep(heat::model_of(f1));
            let b = step::fresh_sweep(heat::model_of(f0));
            assert forall|i: i32, j: i32| step::near(x as int, y as int, i as int, j as int) implies #[trigger] (a.cell)(i, j) == (b.cell)(i, j)
                && (a.moved)(i, j) == (b.moved)(i, j) by {}
            step::lemma_settled_local(a, b, els, x, y);
            assert(f0.near_activity(chunk_key(x, y)));
        }
    }
}

/// When the machines have acted on a faithful world, every cell that could move lies
/// where the sweep wakes.
proof fn lemma_machines_restless(f0: ChunkMap, f1: ChunkMap, els: Seq<Option<ElementView>>)
    requires
        f0.wf(),
        faithful(f0, els),
        changes_reported(f0, f1),
    ensures
        step::restless_wake(f1, heat::model_of(f1), els),
{
    lemma_reported_faithful(f0, f1, els);
    assert forall|x: i32, y: i32| !#[trigger] step::settled(step::fresh_sweep(heat::model_of(f1)), els, x, y) implies f1.wakes_at(x, y) by {
        assert(f1.near_activity(chunk_key(x, y)));
    }
}

/// After a tick run as if nothing slept, every cell that could move lies next to a
/// change reported during it: a cell whose surroundings changed is next to that change,
/// and one whose surroundings did not could already move at the start, so the sweep
/// changed something next to it.
proof fn lemma_tick_faithful(f1: ChunkMap, f2: ChunkMap, f3: ChunkMap, els: Seq<Option<ElementView>>, seed: u64, tick: u64)
    requires
        f1.wf(),
        forall|i: i32, j: i32| #[trigger] f2.cell(i, j) != f1.cell(i, j) ==> f2.active_at(i, j),
        forall|i: i32, j: i32|
            #[trigger] (step::swept_spec(heat::model_of(f1), f1.region(), els, seed, tick).cell)(i, j) != (heat::model_of(f1).cell)(i, j)
                ==> f2.active_at(i, j),
        changes_reported(f2, f3),
    ensures
        faithful(f3, els),
{
    assert forall|x: i32, y: i32| !#[trigger] step::settled(step::fresh_sweep(heat::model_of(f3)), els, x, y) implies f3.near_activity(
        chunk_key(x, y),
    ) by {
        if exists|i: i32, j: i32| step::near(x as int, y as int, i as int, j as int) && #[trigger] f3.cell(i, j) != f1.cell(i, j) {
            let (i, j) = choose|i: i32, j: i32| step::near(x as int, y as int, i as int, j as int) && #[trigger] f3.cell(i, j) != f1.cell(i, j);
            if f2.cell(i, j) != f1.cell(i, j) {
                assert(f2.active_at(i, j));
            }
            lemma_activity_near(f3, x, y, i, j);
        } else {
            let a = step::fresh_sweep(heat::model_of(f3));
            let b = step::fresh_sweep(heat::model_of(f1));
            assert forall|i: i32, j: i32| step::near(x as int, y as int, i as int, j as int) implies #[trigger] (a.cell)(i, j) == (b.cell)(i, j)
                && (a.moved)(i, j) == (b.moved)(i, j) by {}
            step::lemma_settled_local(a, b, els, x, y);
            assert(!step::settled(b, els, x, y));
            assert(f1.cell(x, y) is Some && f1.cell(x, y) != Some(EMPTY));
            f1.lemma_field(x, y);
            let bounds = f1.region().unwrap();
            step::lemma_sweep_progress(heat::model_of(f1), els, seed, tick, bounds, x, y);
            let swept = step::swept_spec(heat::model_of(f1), f1.region(), els, seed, tick);
            let (i, j) = choose|i: i32, j: i32|
                step::near(x as int, y as int, i as int, j as int) && #[trigger] (step::sweep_rows(
                    step::fresh_sweep(heat::model_of(f1)),
                    els,
                    seed,
                    tick,
                    step::full_rows(Some(bounds)),
                    bounds,
                    bounds.max_y as int,
                ).cell)(i, j) != (heat::model_of(f1).cell)(i, j);
            assert((swept.cell)(i, j) != (heat::model_of(f1).cell)(i, j));
            assert(f2.active_at(i, j));
            lemma_activity_near(f3, x, y, i, j);
        }
    }
}

/// The first machine, from `i` on, covering a tile.
pub open spec fn first_covering(es: Seq<Entity>, tile_x: i32, tile_y: i32, i: int) -> Option<usize>
    decreases es.len() - i,
{
    if i < 0 || i >= es.len() {
        None
    } else if es[i].tile_x <= tile_x < es[i].tile_x + es[i].width_tiles && es[i].tile_y <= tile_y < es[i].tile_y
        + es[i].height_tiles {
        Some(i as usize)
    } else {
        first_covering(es, tile_x, tile_y, i + 1)
    }
}

/// How many of the first `n` machines are of `kind`.
pub open spec fn count_kind(es: Seq<Entity>, kind: EntityKind, n: int) -> nat
    decreases n,
{
    if n <= 0 || n > es.len() {
        0
    } else {
        count_kind(es, kind, n - 1) + if es[n - 1].kind == kind {
            1nat
        } else {
            0nat
        }
    }
}

/// A machine as placed: whatever the instance left as zero filled in from its type.
pub open spec fn settled(e: Entity, t: Option<EntityTypeView>) -> Entity {
    match t {
        Some(d) => Entity {
            width_tiles: if e.width_tiles == 0 { d.width_tiles } else { e.width_tiles },
            height_tiles: if e.height_tiles == 0 { d.height_tiles } else { e.height_tiles },
            rate: if e.rate == 0 { d.rate } else { e.rate },
            ..e
        },
        None => e,
    }
}

/// A cell after a machine is placed: a belt that fits in the plane turns the cells of its
/// body into its chassis; nothing else changes the field.
pub open spec fn placed_cell(before: Option<ElementId>, entity: Entity, t: Option<EntityTypeView>, x: i32, y: i32) -> Option<ElementId> {
    match t {
        Some(d) => if d.behaviour == Behaviour::Belt && fits_spec(settled(entity, t)) && entities::in_area(
            body_spec(settled(entity, t)),
            x as int,
            y as int,
        ) && before is Some {
            Some(d.chassis)
        } else {
            before
        },
        None => before,
    }
}

/// Hashes the contents of a field, keyed by absolute position; see `canonical_records`.
fn content_hash_into<F: CellField>(hasher: &mut Hasher, field: &F)
    requires
        field.field_inv(),
    ensures
        final(hasher)@ == fnv_bytes(old(hasher)@, canonical_records(*field)),
{
    let bounds = match field.bounds() {
        Some(b) => b,
        None => {
            return;
        },
    };
    let ghost start = hasher@;
    let ghost total = region_records(*field, bounds, bounds.min_y as int);
    let ghost mut done: Seq<u8> = Seq::empty();
    let mut y: i64 = bounds.min_y as i64;
    proof {
        assert(done + region_records(*field, bounds, y as int) =~= total);
    }
    while y <= bounds.max_y as i64
        invariant
            field.field_inv(),
            field.region() == Some(bounds),
            total == region_records(*field, bounds, bounds.min_y as int),
            bounds.min_y <= y,
            y <= bounds.max_y as i64 + 1 || y == bounds.min_y,
            hasher@ == fnv_bytes(start, done),
            done + region_records(*field, bounds, y as int) == total,
        decreases bounds.max_y - y + 1,
    {
        let row: i32 = y as i32;
        let mut x: i64 = bounds.min_x as i64;
        proof {
            assert(region_records(*field, bounds, y as int) == row_records(*field, row, bounds.min_x as int, bounds.max_x as int)
                + region_records(*field, bounds, y + 1));
            assert(done + row_records(*field, row, x as int, bounds.max_x as int) + region_records(*field, bounds, y + 1) =~= total);
        }
        while x <= bounds.max_x as i64
            invariant
                field.field_inv(),
                bounds.min_y <= y <= bounds.max_y,
                row == y,
                bounds.min_x <= x,
                x <= bounds.max_x as i64 + 1 || x == bounds.min_x,
                hasher@ == fnv_bytes(start, done),
                done + row_records(*field, row, x as int, bounds.max_x as int) + region_records(*field, bounds, y + 1) == total,
            decreases bounds.max_x - x + 1,
        {
            let column: i32 = x as i32;
            let ghost record = cell_record(*field, column, row);
            proof {
                assert(row_records(*field, row, x as int, bounds.max_x as int) == record + row_records(
                    *field,
                    row,
                    x + 1,
                    bounds.max_x as int,
                ));
            }
            write_record(hasher, field, column, row);
            proof {
                lemma_fnv_append(start, done, record);
            }
            proof {
                done = done + record;
                assert(done + row_records(*field, row, x + 1, bounds.max_x as int) + region_records(*field, bounds, y + 1) =~= total);
            }
            x = x + 1;
        }
        proof {
            assert(row_records(*field, row, x as int, bounds.max_x as int) =~= Seq::<u8>::empty());
            assert(done + region_records(*field, bounds, y + 1) =~= total);
        }
        y = y + 1;
    }
    proof {
        assert(region_records(*field, bounds, y as int) =~= Seq::<u8>::empty());
        assert(done =~= total);
    }
}

/// Hashes one cell's record; see `cell_record`.
fn write_record<F: CellField>(hasher: &mut Hasher, field: &F, x: i32, y: i32)
    requires
        field.field_inv(),
    ensures
        final(hasher)@ == fnv_bytes(old(hasher)@, cell_record(*field, x, y)),
{
    let id = match field.get(x, y) {
        Some(id) => id,
        None => EMPTY,
    };
    if id == EMPTY {
        assert(cell_record(*field, x, y) =~= Seq::<u8>::empty());
        return;
    }
    let ghost h0 = hasher@;
    let temperature = field.temperature(x, y);
    hasher.write_u32(x as u32);
    hasher.write_u32(y as u32);
    hasher.write_u8(id);
    hasher.write_i16(temperature);
    proof {
        let a = le_bytes_u32(x as u32);
        let b = le_bytes_u32(y as u32);
        let c = seq![id];
        let d = seq![temperature as u8, ((temperature as u16) >> 8u16) as u8];
        lemma_fnv_append(h0, a, b);
        assert(fnv_bytes(fnv_bytes(h0, a + b), c) == fnv_step(fnv_bytes(h0, a + b), id)) by {
            reveal_with_fuel(fnv_bytes, 2);
            assert(c.drop_last() =~= Seq::<u8>::empty());
        }
        lemma_fnv_append(h0, a + b, c);
        assert(fnv_bytes(fnv_bytes(h0, a + b + c), d) == fnv_step(
            fnv_step(fnv_bytes(h0, a + b + c), temperature as u8),
            ((temperature as u16) >> 8u16) as u8,
        )) by {
            reveal_with_fuel(fnv_bytes, 3);
            assert(d.drop_last() =~= seq![temperature as u8]);
            assert(d.drop_last().drop_last() =~= Seq::<u8>::empty());
        }
        lemma_fnv_append(h0, a + b + c, d);
        assert(cell_record(*field, x, y) == a + b + c + d);
    }
}

/// Hashes cell contents alone: no tick, no seed.
fn content_hash<F: CellField>(field: &F) -> (r: u64)
    requires
        field.field_inv(),
    ensures
        r == fnv_bytes(OFFSET_BASIS, canonical_records(*field)),
{
    let mut hasher = Hasher::new();
    content_hash_into(&mut hasher, field);
    hasher.finish()
}

/// The contents together with the tick and the seed: the shape a signed checkpoint
/// takes.
fn canonical_hash<F: CellField>(field: &F, tick: u64, seed: u64) -> (r: u64)
    requires
        field.field_inv(),
    ensures
        r == fnv_bytes(OFFSET_BASIS, le_bytes_u64(tick) + le_bytes_u64(seed) + canonical_records(*field)),
{
    let mut hasher = Hasher::new();
    hasher.write_u64(tick);
    hasher.write_u64(seed);
    content_hash_into(&mut hasher, field);
    proof {
        lemma_fnv_append(OFFSET_BASIS, le_bytes_u64(tick), le_bytes_u64(seed));
        lemma_fnv_append(OFFSET_BASIS, le_bytes_u64(tick) + le_bytes_u64(seed), canonical_records(*field));
    }
    hasher.finish()
}

/// Fills a belt's own footprint with its declared chassis element, at the moment it is
/// placed, so gravity treats a belt's body as ordinary solid ground.
fn fill_structure<F: CellField>(field: &mut F, entity: &Entity, definition: &EntityType)
    requires
        old(field).field_inv(),
    ensures
        final(field).field_inv(),
        forall|x: i32, y: i32| #[trigger] final(field).cell(x, y) == (if definition.behaviour == Behaviour::Belt && fits_spec(
            *entity,
        ) && entities::in_area(body_spec(*entity), x as int, y as int) && old(field).cell(x, y) is Some {
            Some(definition.chassis)
        } else {
            old(field).cell(x, y)
        }),
        definition.behaviour != Behaviour::Belt ==> *final(field) == *old(field),
{
    if definition.behaviour != Behaviour::Belt || !entity.fits() {
        return;
    }
    let (x0, y0, x1, y1) = entity.body();
    let mut y: i32 = y0;
    while y <= y1
        invariant
            y0 <= y <= y1 + 1,
            fits_spec(*entity),
            definition.behaviour == Behaviour::Belt,
            (x0 as int, y0 as int, x1 as int, y1 as int) == body_spec(*entity),
            field.field_inv(),
            forall|i: i32, j: i32| #[trigger] field.cell(i, j) == (if x0 <= i <= x1 && y0 <= j < y && old(field).cell(i, j) is Some {
                Some(definition.chassis)
            } else {
                old(field).cell(i, j)
            }),
        decreases y1 - y + 1,
    {
        let mut x: i32 = x0;
        while x <= x1
            invariant
                x0 <= x <= x1 + 1,
                y0 <= y <= y1,
                fits_spec(*entity),
                (x0 as int, y0 as int, x1 as int, y1 as int) == body_spec(*entity),
                field.field_inv(),
                forall|i: i32, j: i32| #[trigger] field.cell(i, j) == (if x0 <= i <= x1 && (y0 <= j < y || (j == y && i < x))
                    && old(field).cell(i, j) is Some {
                    Some(definition.chassis)
                } else {
                    old(field).cell(i, j)
                }),
            decreases x1 - x + 1,
        {
            let ghost before = *field;
            field.set(x, y, definition.chassis);
            proof {
                assert forall|i: i32, j: i32| #[trigger] field.cell(i, j) == (if x0 <= i <= x1 && (y0 <= j < y || (j == y && i
                    < x + 1)) && old(field).cell(i, j) is Some {
                    Some(definition.chassis)
                } else {
                    old(field).cell(i, j)
                }) by {
                    if !(i == x && j == y) {
                        assert(field.cell(i, j) == before.cell(i, j));
                    }
                }
            }
            x = x + 1;
        }
        y = y + 1;
    }
}

/// The money cells inside vaults, in placement order, top row down.
fn vault_cells<F: CellField>(field: &F, rules: &Rules, es: &Vec<Entity>) -> (r: Vec<(i32, i32)>)
    requires
        field.field_inv(),
    ensures
        r@ == vaults_from(*field, rules.elements@, rules.entities@, es@, 0),
{
    let ghost total = vaults_from(*field, rules.elements@, rules.entities@, es@, 0);
    let mut out: Vec<(i32, i32)> = Vec::new();
    let mut i: usize = 0;
    proof {
        assert(out@ + vaults_from(*field, rules.elements@, rules.entities@, es@, 0) =~= total);
    }
    while i < es.len()
        invariant
            i <= es@.len(),
            field.field_inv(),
            out@ + vaults_from(*field, rules.elements@, rules.entities@, es@, i as int) == total,
        decreases es@.len() - i,
    {
        let entity = es[i];
        let ghost part = entity_vault(*field, rules.elements@, rules.entities@, entity);
        proof {
            assert(vaults_from(*field, rules.elements@, rules.entities@, es@, i as int) == part + vaults_from(
                *field,
                rules.elements@,
                rules.entities@,
                es@,
                i + 1,
            ));
        }
        let ghost before = out@;
        let vault = match rules.entities.get(entity.kind) {
            Some(definition) => definition.behaviour == Behaviour::Store,
            None => false,
        };
        if vault && entity.fits() {
            let (x0, y0, x1, y1) = entity.body();
            let mut y: i32 = y0;
            proof {
                assert(out@ + area_vault(*field, rules.elements@, x0 as int, x1 as int, y as int, y1 as int) =~= before + part);
            }
            while y <= y1
                invariant
                    y0 <= y <= y1 + 1,
                    fits_spec(entity),
                    (x0 as int, y0 as int, x1 as int, y1 as int) == body_spec(entity),
                    field.field_inv(),
                    out@ + area_vault(*field, rules.elements@, x0 as int, x1 as int, y as int, y1 as int) == before + part,
                decreases y1 - y + 1,
            {
                let mut x: i32 = x0;
                proof {
                    assert(area_vault(*field, rules.elements@, x0 as int, x1 as int, y as int, y1 as int) == row_vault(
                        *field,
                        rules.elements@,
                        y,
                        x0 as int,
                        x1 as int,
                    ) + area_vault(*field, rules.elements@, x0 as int, x1 as int, y + 1, y1 as int));
                    assert(out@ + row_vault(*field, rules.elements@, y, x as int, x1 as int) + area_vault(
                        *field,
                        rules.elements@,
                        x0 as int,
                        x1 as int,
                        y + 1,
                        y1 as int,
                    ) =~= before + part);
                }
                while x <= x1
                    invariant
                        x0 <= x <= x1 + 1,
                        y0 <= y <= y1,
                        fits_spec(entity),
                        (x0 as int, y0 as int, x1 as int, y1 as int) == body_spec(entity),
                        field.field_inv(),
                        out@ + row_vault(*field, rules.elements@, y, x as int, x1 as int) + area_vault(
                            *field,
                            rules.elements@,
                            x0 as int,
                            x1 as int,
                            y + 1,
                            y1 as int,
                        ) == before + part,
                    decreases x1 - x + 1,
                {
                    let held = match field.get(x, y) {
                        Some(id) => match rules.elements.get(id) {
                            Some(element) => element.currency,
                            None => false,
                        },
                        None => false,
                    };
                    let ghost prior = out@;
                    if held {
                        out.push((x, y));
                    }
                    proof {
                        let piece = if held { seq![(x, y)] } else { Seq::<(i32, i32)>::empty() };
                        assert(held == currency_at(*field, rules.elements@, x, y));
                        assert(out@ =~= prior + piece);
                        assert(row_vault(*field, rules.elements@, y, x as int, x1 as int) == piece + row_vault(
                            *field,
                            rules.elements@,
                            y,
                            x + 1,
                            x1 as int,
                        ));
                        assert(out@ + row_vault(*field, rules.elements@, y, x + 1, x1 as int) + area_vault(
                            *field,
                            rules.elements@,
                            x0 as int,
                            x1 as int,
                            y + 1,
                            y1 as int,
                        ) =~= before + part);
                    }
                    x = x + 1;
                }
                proof {
                    assert(row_vault(*field, rules.elements@, y, x as int, x1 as int) =~= Seq::<(i32, i32)>::empty());
                    assert(out@ + area_vault(*field, rules.elements@, x0 as int, x1 as int, y + 1, y1 as int) =~= before
                        + part);
                }
                y = y + 1;
            }
            proof {
                assert(area_vault(*field, rules.elements@, x0 as int, x1 as int, y as int, y1 as int) =~= Seq::<
                    (i32, i32),
                >::empty());
                assert(out@ =~= before + part);
            }
        } else {
            proof {
                assert(part =~= Seq::<(i32, i32)>::empty());
                assert(out@ =~= before + part);
            }
        }
        proof {
            assert(out@ + vaults_from(*field, rules.elements@, rules.entities@, es@, i + 1) =~= total);
        }
        i = i + 1;
    }
    proof {
        assert(vaults_from(*field, rules.elements@, rules.entities@, es@, i as int) =~= Seq::<(i32, i32)>::empty());
        assert(out@ =~= total);
    }
    out
}


/// Takes the first `amount` cells of `taking` out of the world.
fn take_cells<F: CellField>(field: &mut F, taking: &Vec<(i32, i32)>, amount: usize)
    requires
        old(field).field_inv(),
        amount <= taking@.len(),
    ensures
        final(field).field_inv(),
        forall|k: int| 0 <= k < amount ==> #[trigger] final(field).cell(taking@[k].0, taking@[k].1) == (if old(field).cell(
            taking@[k].0,
            taking@[k].1,
        ) is Some {
            Some(EMPTY)
        } else {
            None
        }),
        forall|x: i32, y: i32|
            !taking@.subrange(0, amount as int).contains((x, y)) ==> #[trigger] final(field).cell(x, y) == old(field).cell(x, y),
        changes_reported(*old(field), *final(field)),
{
    let mut k: usize = 0;
    while k < amount
        invariant
            k <= amount <= taking@.len(),
            field.field_inv(),
            forall|j: int| 0 <= j < k ==> #[trigger] field.cell(taking@[j].0, taking@[j].1) == (if old(field).cell(
                taking@[j].0,
                taking@[j].1,
            ) is Some {
                Some(EMPTY)
            } else {
                None
            }),
            forall|x: i32, y: i32|
                !taking@.subrange(0, k as int).contains((x, y)) ==> #[trigger] field.cell(x, y) == old(field).cell(x, y),
            changes_reported(*old(field), *field),
        decreases amount - k,
    {
        let (x, y) = taking[k];
        let ghost before = *field;
        field.set(x, y, EMPTY);
        let ghost written = *field;
        // Removing a cell is not a move, so the pile above it has to be told to come
        // down.
        field.mark_active(x, y);
        proof {
            assert forall|a: i32, b: i32| #[trigger] field.cell(a, b) != old(field).cell(a, b) implies field.active_at(a, b) by {
                if !(a == x && b == y) {
                    assert(written.cell(a, b) == before.cell(a, b));
                    assert(before.active_at(a, b));
                    assert(written.active_at(a, b));
                }
            }
            assert forall|a: i32, b: i32| #[trigger] old(field).active_at(a, b) implies field.active_at(a, b) by {
                assert(before.active_at(a, b));
                assert(written.active_at(a, b));
            }
        }
        proof {
            assert forall|j: int| 0 <= j < k + 1 implies #[trigger] field.cell(taking@[j].0, taking@[j].1) == (if old(
                field,
            ).cell(taking@[j].0, taking@[j].1) is Some {
                Some(EMPTY)
            } else {
                None
            }) by {
                if j < k && !(taking@[j].0 == x && taking@[j].1 == y) {
                    assert(field.cell(taking@[j].0, taking@[j].1) == before.cell(taking@[j].0, taking@[j].1));
                }
                if !taking@.subrange(0, k as int).contains((x, y)) {
                    assert(before.cell(x, y) == old(field).cell(x, y));
                } else {
                    let w = choose|w: int| 0 <= w < k && taking@.subrange(0, k as int)[w] == (x, y);
                    assert(taking@[w] == (x, y));
                    assert(before.cell(x, y) is Some == old(field).cell(x, y) is Some);
                }
            }
            assert forall|a: i32, b: i32| !taking@.subrange(0, k + 1).contains((a, b)) implies #[trigger] field.cell(a, b)
                == old(field).cell(a, b) by {
                assert(taking@.subrange(0, k + 1)[k as int] == (x, y));
                if taking@.subrange(0, k as int).contains((a, b)) {
                    let w = choose|w: int| 0 <= w < k && taking@.subrange(0, k as int)[w] == (a, b);
                    assert(taking@.subrange(0, k + 1)[w] == (a, b));
                }
                assert(field.cell(a, b) == before.cell(a, b));
            }
        }
        k = k + 1;
    }
}

/// The simulated world: sparse chunks, unbounded extent.
#[derive(Clone, Debug)]
pub struct World {
    field: ChunkMap,
    rules: Rules,
    entities: Vec<Entity>,
    seed: u64,
    tick: u64,
    collected: u64,
}

impl World {
    pub closed spec fn spec_field(&self) -> ChunkMap {
        self.field
    }

    pub closed spec fn spec_rules(&self) -> Rules {
        self.rules
    }

    pub closed spec fn spec_entities(&self) -> Seq<Entity> {
        self.entities@
    }

    pub closed spec fn spec_tick(&self) -> u64 {
        self.tick
    }

    pub closed spec fn spec_seed(&self) -> u64 {
        self.seed
    }

    pub closed spec fn spec_collected(&self) -> u64 {
        self.collected
    }

    pub open spec fn wf(&self) -> bool {
        self.spec_field().field_inv()
    }

    /// The part of the world that the next tick reads and writes.
    pub open spec fn state(&self) -> WorldState {
        WorldState { model: heat::model_of(self.spec_field()), entities: self.spec_entities(), collected: self.spec_collected() as int }
    }

    /// The money cells inside vaults, in placement order: the balance, cell by cell.
    pub open spec fn vault_spec(&self) -> Seq<(i32, i32)> {
        vaults_from(self.spec_field(), self.spec_rules().elements@, self.spec_rules().entities@, self.spec_entities(), 0)
    }

    pub fn new(seed: u64, rules: Rules) -> (r: World)
        ensures
            r.wf(),
            r.spec_seed() == seed,
            r.spec_tick() == 0,
            r.spec_collected() == 0,
            r.spec_entities().len() == 0,
            r.spec_rules() == rules,
            forall|x: i32, y: i32| #[trigger] r.spec_field().cell(x, y) == Some(EMPTY),
            !r.spec_field().is_sleeping(),
            r.spec_field().blocks() == 0,
            r.spec_field().region() is None,
            r.spec_field().spec_viewport() is None,
            r.spec_field().all_active(),
            faithful(r.spec_field(), rules.elements@),
    {
        let field = ChunkMap::new();
        proof {
            lemma_all_active_faithful(field, rules.elements@);
        }
        World { field, rules, entities: Vec::new(), seed, tick: 0, collected: 0 }
    }

    /// Places a machine. A footprint or rate of zero means "as the type says", and this
    /// is where that is resolved; a belt's footprint becomes its solid chassis.
    pub fn place(&mut self, entity: Entity)
        requires
            old(self).wf(),
        ensures
            final(self).wf(),
            final(self).spec_entities() == old(self).spec_entities().push(
                settled(entity, if (entity.kind as int) < old(self).spec_rules().entities@.len() {
                    old(self).spec_rules().entities@[entity.kind as int]
                } else {
                    None
                }),
            ),
            final(self).spec_tick() == old(self).spec_tick(),
            final(self).spec_seed() == old(self).spec_seed(),
            final(self).spec_rules() == old(self).spec_rules(),
            final(self).spec_collected() == old(self).spec_collected(),
            forall|x: i32, y: i32| #[trigger] final(self).spec_field().cell(x, y) == placed_cell(
                old(self).spec_field().cell(x, y),
                entity,
                if (entity.kind as int) < old(self).spec_rules().entities@.len() {
                    old(self).spec_rules().entities@[entity.kind as int]
                } else {
                    None
                },
                x,
                y,
            ),
            match (if (entity.kind as int) < old(self).spec_rules().entities@.len() {
                old(self).spec_rules().entities@[entity.kind as int]
            } else {
                None
            }) {
                Some(d) => d.behaviour != Behaviour::Belt,
                None => true,
            } ==> final(self).spec_field() == old(self).spec_field(),
    {
        let mut entity = entity;
        match self.rules.entities.get(entity.kind) {
            Some(definition) => {
                entity.defaults_from(definition);
                fill_structure(&mut self.field, &entity, definition);
            },
            None => {},
        }
        self.entities.push(entity);
    }

    /// Places a machine only where no machine already covers its tile: one machine per
    /// tile. Reports whether it was placed; a refused placement changes nothing.
    pub fn place_if_free(&mut self, entity: Entity) -> (r: bool)
        requires
            old(self).wf(),
        ensures
            final(self).wf(),
            r == (first_covering(old(self).spec_entities(), entity.tile_x, entity.tile_y, 0) is None),
            !r ==> *final(self) == *old(self),
            r ==> final(self).spec_entities() == old(self).spec_entities().push(
                settled(entity, if (entity.kind as int) < old(self).spec_rules().entities@.len() {
                    old(self).spec_rules().entities@[entity.kind as int]
                } else {
                    None
                }),
            ),
            final(self).spec_tick() == old(self).spec_tick(),
            final(self).spec_seed() == old(self).spec_seed(),
            final(self).spec_rules() == old(self).spec_rules(),
            final(self).spec_collected() == old(self).spec_collected(),
            r ==> forall|x: i32, y: i32| #[trigger] final(self).spec_field().cell(x, y) == placed_cell(
                old(self).spec_field().cell(x, y),
                entity,
                if (entity.kind as int) < old(self).spec_rules().entities@.len() {
                    old(self).spec_rules().entities@[entity.kind as int]
                } else {
                    None
                },
                x,
                y,
            ),
    {
        if self.entity_at(entity.tile_x, entity.tile_y).is_some() {
            return false;
        }
        self.place(entity);
        true
    }

    pub fn entities(&self) -> (r: &[Entity])
        ensures
            r@ == self.spec_entities(),
    {
        self.entities.as_slice()
    }

    /// The machine covering this tile, if any.
    pub fn entity_at(&self, tile_x: i32, tile_y: i32) -> (r: Option<usize>)
        ensures
            r == first_covering(self.spec_entities(), tile_x, tile_y, 0),
    {
        let mut i: usize = 0;
        while i < self.entities.len()
            invariant
                i <= self.entities@.len(),
                first_covering(self.entities@, tile_x, tile_y, 0) == first_covering(self.entities@, tile_x, tile_y, i as int),
            decreases self.entities@.len() - i,
        {
            if self.entities[i].covers(tile_x, tile_y) {
                return Some(i);
            }
            i = i + 1;
        }
        None
    }

    /// Removes a machine, freeing its slot completely. Placement is never a purchase
    /// that can be wasted.
    pub fn remove(&mut self, index: usize) -> (r: bool)
        ensures
            r == (index < old(self).spec_entities().len()),
            r ==> final(self).spec_entities() == old(self).spec_entities().remove(index as int),
            !r ==> final(self).spec_entities() == old(self).spec_entities(),
            final(self).spec_field() == old(self).spec_field(),
            final(self).spec_rules() == old(self).spec_rules(),
            final(self).spec_tick() == old(self).spec_tick(),
            final(self).spec_seed() == old(self).spec_seed(),
            final(self).spec_collected() == old(self).spec_collected(),
    {
        if index >= self.entities.len() {
            return false;
        }
        self.entities.remove(index);
        true
    }

    /// How many machines of a kind are placed, for a cap to be enforced against.
    pub fn count_of_kind(&self, kind: EntityKind) -> (r: usize)
        ensures
            r == count_kind(self.spec_entities(), kind, self.spec_entities().len() as int),
    {
        let mut count: usize = 0;
        let mut i: usize = 0;
        while i < self.entities.len()
            invariant
                i <= self.entities@.len(),
                count == count_kind(self.entities@, kind, i as int),
                count <= i,
            decreases self.entities@.len() - i,
        {
            if self.entities[i].kind == kind {
                count = count + 1;
            }
            i = i + 1;
        }
        count
    }

    /// The balance: currency cells sitting inside a vault. Gold anywhere else is still
    /// gold and still conserved; it is simply not money.
    pub fn stored(&self) -> (r: u64)
        requires
            self.wf(),
        ensures
            r == self.vault_spec().len(),
    {
        let cells = vault_cells(&self.field, &self.rules, &self.entities);
        cells.len() as u64
    }

    /// Takes `amount` nuggets out of the vaults holding them, and reports how many it
    /// took.
    ///
    /// All or nothing: a partial charge is not a purchase. Nuggets come off the top of
    /// each pile, in placement order.
    pub fn spend(&mut self, amount: u64) -> (r: u64)
        requires
            old(self).wf(),
        ensures
            final(self).wf(),
            r == (if amount == 0 || old(self).vault_spec().len() < amount {
                0
            } else {
                amount
            }),
            r == 0 ==> *final(self) == *old(self),
            r != 0 ==> forall|k: int| 0 <= k < amount ==> #[trigger] final(self).spec_field().cell(
                old(self).vault_spec()[k].0,
                old(self).vault_spec()[k].1,
            ) == Some(EMPTY),
            forall|x: i32, y: i32|
                !old(self).vault_spec().subrange(0, r as int).contains((x, y)) ==> #[trigger] final(self).spec_field().cell(
                    x,
                    y,
                ) == old(self).spec_field().cell(x, y),
            final(self).spec_entities() == old(self).spec_entities(),
            final(self).spec_rules() == old(self).spec_rules(),
            final(self).spec_tick() == old(self).spec_tick(),
            final(self).spec_seed() == old(self).spec_seed(),
            final(self).spec_collected() == old(self).spec_collected(),
            !empty_is_money(old(self).spec_rules().elements@) ==> final(self).vault_spec() == old(self).vault_spec().filter(
                outside(old(self).vault_spec().subrange(0, r as int).to_set()),
            ),
            !empty_is_money(old(self).spec_rules().elements@) && old(self).vault_spec().no_duplicates() ==> final(self).vault_spec().len()
                == old(self).vault_spec().len() - r,
            faithful(old(self).spec_field(), old(self).spec_rules().elements@) ==> faithful(final(self).spec_field(), final(self).spec_rules().elements@),
    {
        let taking = vault_cells(&self.field, &self.rules, &self.entities);
        if amount == 0 || (taking.len() as u64) < amount {
            proof {
                let s = self.vault_spec();
                assert(s.subrange(0, 0) =~= Seq::<(i32, i32)>::empty());
                assert forall|k: int| 0 <= k < s.len() implies outside(s.subrange(0, 0).to_set())(#[trigger] s[k]) by {
                    assert(!s.subrange(0, 0).contains(s[k]));
                }
                lemma_filter_whole(s, outside(s.subrange(0, 0).to_set()));
            }
            return 0;
        }
        proof {
            self.field.lemma_everywhere();
        }
        let ghost before = self.field;
        take_cells(&mut self.field, &taking, amount as usize);
        proof {
            if faithful(before, self.rules.elements@) {
                lemma_reported_faithful(before, self.field, self.rules.elements@);
            }
        }
        proof {
            let els = self.rules.elements@;
            let t = taking@.subrange(0, amount as int).to_set();
            if !empty_is_money(els) {
                assert forall|a: i32, b: i32| #[trigger] currency_at(self.field, els, a, b) == (currency_at(before, els, a, b)
                    && !t.contains((a, b))) by {
                    if taking@.subrange(0, amount as int).contains((a, b)) {
                        let k = choose|k: int| 0 <= k < amount && taking@.subrange(0, amount as int)[k] == (a, b);
                        assert(taking@[k] == (a, b));
                        assert(before.cell(a, b) is Some);
                        assert(self.field.cell(taking@[k].0, taking@[k].1) == Some(EMPTY));
                        assert(self.field.cell(a, b) == Some(EMPTY));
                    }
                }
                lemma_vaults_outside(before, self.field, els, self.rules.entities@, self.entities@, t, 0);
                if old(self).vault_spec().no_duplicates() {
                    lemma_outside_prefix(old(self).vault_spec(), amount as int);
                }
            }
        }
        amount
    }

    pub fn clear_entities(&mut self)
        ensures
            final(self).spec_entities().len() == 0,
            final(self).spec_field() == old(self).spec_field(),
            final(self).spec_rules() == old(self).spec_rules(),
            final(self).spec_tick() == old(self).spec_tick(),
            final(self).spec_seed() == old(self).spec_seed(),
            final(self).spec_collected() == old(self).spec_collected(),
    {
        self.entities.clear();
    }

    /// Advances exactly one tick: machines act first, then everything moves, reacts,
    /// and conducts heat. With sleeping on, a tick is the tick it would be with sleeping
    /// off whenever every cell that could move once the machines have acted lies in a
    /// chunk that wakes: next to activity, or in the widened viewport. A faithful world,
    /// one whose every cell that could move lies next to reported activity, always ticks
    /// so, and stays faithful: sleeping and the viewport never change it.
    pub fn step(&mut self)
        requires
            old(self).wf(),
            old(self).spec_tick() < u64::MAX,
        ensures
            final(self).wf(),
            final(self).spec_tick() == old(self).spec_tick() + 1,
            final(self).spec_seed() == old(self).spec_seed(),
            final(self).spec_rules() == old(self).spec_rules(),
            final(self).spec_entities().len() == old(self).spec_entities().len(),
            final(self).spec_collected() >= old(self).spec_collected(),
            ({
                let machines = entities::tick_spec(
                    heat::model_of(old(self).spec_field()),
                    old(self).spec_entities(),
                    old(self).spec_rules().entities@,
                    old(self).spec_rules().elements@,
                    old(self).spec_seed(),
                    old(self).spec_tick(),
                );
                &&& final(self).spec_entities() == machines.entities
                &&& final(self).spec_collected() == (if old(self).spec_collected() + machines.minted > u64::MAX {
                    u64::MAX as int
                } else {
                    old(self).spec_collected() + machines.minted
                })
            }),
            final(self).spec_field().is_sleeping() == old(self).spec_field().is_sleeping(),
            !old(self).spec_field().is_sleeping() ==> final(self).state() == world_step_spec(
                old(self).state(),
                old(self).spec_rules(),
                old(self).spec_seed(),
                old(self).spec_tick(),
            ),
            old(self).spec_field().wakes_all() ==> final(self).state() == world_step_spec(
                old(self).state(),
                old(self).spec_rules(),
                old(self).spec_seed(),
                old(self).spec_tick(),
            ),
            step::restless_wake(
                old(self).spec_field(),
                entities::tick_spec(
                    heat::model_of(old(self).spec_field()),
                    old(self).spec_entities(),
                    old(self).spec_rules().entities@,
                    old(self).spec_rules().elements@,
                    old(self).spec_seed(),
                    old(self).spec_tick(),
                ).model,
                old(self).spec_rules().elements@,
            ) ==> final(self).state() == world_step_spec(old(self).state(), old(self).spec_rules(), old(self).spec_seed(), old(self).spec_tick()),
            faithful(old(self).spec_field(), old(self).spec_rules().elements@) ==> final(self).state() == world_step_spec(
                old(self).state(),
                old(self).spec_rules(),
                old(self).spec_seed(),
                old(self).spec_tick(),
            ),
            faithful(old(self).spec_field(), old(self).spec_rules().elements@) ==> faithful(final(self).spec_field(), final(self).spec_rules().elements@),
            still_world(*old(self)) ==> still_world(*final(self)),
            still_world(*old(self)) ==> forall|k: ElementId| k != EMPTY ==> #[trigger] final(self).spec_field().census(k) == old(self).spec_field().census(k),
    {
        let ghost f0 = self.field;
        let minted = entities::tick(
            &mut self.field,
            &mut self.entities,
            &self.rules.entities,
            &self.rules.elements,
            self.seed,
            self.tick,
        );
        self.collected = if self.collected > u64::MAX - minted {
            u64::MAX
        } else {
            self.collected + minted
        };
        let ghost f1 = self.field;
        step::step(&mut self.field, &self.rules.elements, &self.rules.reactions, self.seed, self.tick);
        let ghost f2 = self.field;
        heat::step(&mut self.field, &self.rules.elements);
        self.tick = self.tick + 1;
        proof {
            let machines0 = entities::tick_spec(
                heat::model_of(f0),
                old(self).spec_entities(),
                old(self).spec_rules().entities@,
                old(self).spec_rules().elements@,
                old(self).spec_seed(),
                old(self).spec_tick(),
            );
            let restless = step::restless_wake(f0, machines0.model, old(self).spec_rules().elements@);
            if still_world(*old(self)) {
                let els = old(self).spec_rules().elements@;
                entities::lemma_tick_without_machines(heat::model_of(f0), old(self).spec_rules().entities@, els, old(self).spec_seed(), old(self).spec_tick());
                assert(old(self).spec_entities() =~= Seq::<Entity>::empty());
                assert forall|x: i32, y: i32| #[trigger] f1.cell(x, y) == f0.cell(x, y) && f1.heat_at(x, y) == f0.heat_at(x, y) by {}
                lemma_same_cells_census(f0, f1);
                assert(heat::model_of(f1).heat =~= heat::model_of(f0).heat);
                assert(heat::model_of(f1).cell =~= heat::model_of(f0).cell);
                lemma_calm_by_census(f1, f2, els);
                let h2 = heat::model_of(f2);
                assert(heat::cold_model(h2)) by {
                    assert forall|x: i32, y: i32| #[trigger] f1.heat_at(x, y) == AMBIENT_TEMPERATURE by {
                        assert((heat::model_of(f1).heat)(x, y) == AMBIENT_TEMPERATURE);
                    }
                }
                heat::lemma_cold_calm_idle(h2, els, f2.region());
                assert forall|x: i32, y: i32| #[trigger] self.field.cell(x, y) == f2.cell(x, y) && self.field.heat_at(x, y) == f2.heat_at(x, y) by {
                    assert((h2.cell)(x, y) == f2.cell(x, y));
                }
                lemma_same_cells_census(f2, self.field);
                assert(heat::model_of(self.field).heat =~= h2.heat);
                assert(heat::model_of(self.field).cell =~= h2.cell);
            }
            let kept_books = faithful(f0, old(self).spec_rules().elements@);
            if kept_books {
                lemma_machines_restless(f0, f1, old(self).spec_rules().elements@);
                lemma_tick_faithful(f1, f2, self.field, old(self).spec_rules().elements@, old(self).spec_seed(), old(self).spec_tick());
            }
            if f0.wakes_all() || restless || kept_books {
                let machines = entities::tick_spec(
                    heat::model_of(f0),
                    old(self).spec_entities(),
                    old(self).spec_rules().entities@,
                    old(self).spec_rules().elements@,
                    old(self).spec_seed(),
                    old(self).spec_tick(),
                );
                let rules = old(self).spec_rules();
                assert(heat::model_of(f1).cell =~= machines.model.cell);
                assert(heat::model_of(f1).heat =~= machines.model.heat);
                assert(heat::model_of(f1) == machines.model);
                if restless {
                    assert forall|x: i32, y: i32| !#[trigger] step::settled(step::fresh_sweep(heat::model_of(f1)), rules.elements@, x, y)
                        implies f1.wakes_at(x, y) by {
                        assert(f0.wakes_at(x, y));
                    }
                }
                lemma_region_holds_all(f1);
                let region = matter_region(machines.model);
                step::lemma_tick_extent(machines.model, f1.region(), region, rules.elements@, rules.reactions@, old(self).spec_seed(), old(self).spec_tick());
                let moved = step::step_model_spec(machines.model, region, step::full_rows(region), rules.elements@, rules.reactions@, old(self).spec_seed(), old(self).spec_tick());
                assert(heat::model_of(f2).cell =~= moved.cell);
                assert(heat::model_of(f2).heat =~= moved.heat);
                assert(heat::model_of(f2) == moved);
                lemma_region_holds_all(f2);
                heat::lemma_heat_extent(moved, rules.elements@, f2.region(), matter_region(moved));
                let next = world_step_spec(old(self).state(), rules, old(self).spec_seed(), old(self).spec_tick());
                assert(heat::model_of(self.field).cell =~= next.model.cell);
                assert(heat::model_of(self.field).heat =~= next.model.heat);
            }
        }
    }

    pub fn step_many(&mut self, ticks: u64)
        requires
            old(self).wf(),
            old(self).spec_tick() + ticks <= u64::MAX,
        ensures
            final(self).wf(),
            final(self).spec_tick() == old(self).spec_tick() + ticks,
            final(self).spec_seed() == old(self).spec_seed(),
            final(self).spec_rules() == old(self).spec_rules(),
            final(self).spec_field().is_sleeping() == old(self).spec_field().is_sleeping(),
            !old(self).spec_field().is_sleeping() ==> final(self).state() == world_run(
                old(self).state(),
                old(self).spec_rules(),
                old(self).spec_seed(),
                old(self).spec_tick() as int,
                ticks as nat,
            ),
            faithful(old(self).spec_field(), old(self).spec_rules().elements@) ==> final(self).state() == world_run(
                old(self).state(),
                old(self).spec_rules(),
                old(self).spec_seed(),
                old(self).spec_tick() as int,
                ticks as nat,
            ),
            faithful(old(self).spec_field(), old(self).spec_rules().elements@) ==> faithful(final(self).spec_field(), final(self).spec_rules().elements@),
            still_world(*old(self)) ==> still_world(*final(self)),
            still_world(*old(self)) ==> forall|k: ElementId| k != EMPTY ==> #[trigger] final(self).spec_field().census(k) == old(self).spec_field().census(k),
    {
        let mut done: u64 = 0;
        while done < ticks
            invariant
                done <= ticks,
                self.wf(),
                self.spec_tick() == old(self).spec_tick() + done,
                old(self).spec_tick() + ticks <= u64::MAX,
                self.spec_seed() == old(self).spec_seed(),
                self.spec_rules() == old(self).spec_rules(),
                self.spec_field().is_sleeping() == old(self).spec_field().is_sleeping(),
                !old(self).spec_field().is_sleeping() ==> self.state() == world_run(
                    old(self).state(),
                    old(self).spec_rules(),
                    old(self).spec_seed(),
                    old(self).spec_tick() as int,
                    done as nat,
                ),
                faithful(old(self).spec_field(), old(self).spec_rules().elements@) ==> faithful(self.spec_field(), self.spec_rules().elements@)
                    && self.state() == world_run(
                    old(self).state(),
                    old(self).spec_rules(),
                    old(self).spec_seed(),
                    old(self).spec_tick() as int,
                    done as nat,
                ),
                still_world(*old(self)) ==> still_world(*self) && forall|k: ElementId| k != EMPTY ==> #[trigger] self.spec_field().census(k)
                    == old(self).spec_field().census(k),
            decreases ticks - done,
        {
            self.step();
            done = done + 1;
        }
    }

    pub fn tick(&self) -> (r: u64)
        ensures
            r == self.spec_tick(),
    {
        self.tick
    }

    pub fn seed(&self) -> (r: u64)
        ensures
            r == self.spec_seed(),
    {
        self.seed
    }

    pub fn rules(&self) -> (r: &Rules)
        ensures
            *r == self.spec_rules(),
    {
        &self.rules
    }

    pub fn field(&self) -> (r: &ChunkMap)
        ensures
            *r == self.spec_field(),
    {
        &self.field
    }

    pub fn field_mut(&mut self) -> (r: &mut ChunkMap)
        ensures
            *r == old(self).spec_field(),
            final(self).spec_field() == *final(r),
            final(self).spec_rules() == old(self).spec_rules(),
            final(self).spec_entities() == old(self).spec_entities(),
            final(self).spec_tick() == old(self).spec_tick(),
            final(self).spec_seed() == old(self).spec_seed(),
            final(self).spec_collected() == old(self).spec_collected(),
    {
        &mut self.field
    }

    /// Enables viewport-gated sleeping. Off by default.
    pub fn set_sleeping(&mut self, enabled: bool)
        requires
            old(self).wf(),
        ensures
            final(self).wf(),
            final(self).spec_field().is_sleeping() == enabled,
            forall|x: i32, y: i32| #[trigger] final(self).spec_field().cell(x, y) == old(self).spec_field().cell(x, y),
            final(self).spec_rules() == old(self).spec_rules(),
            final(self).spec_entities() == old(self).spec_entities(),
            final(self).spec_tick() == old(self).spec_tick(),
            final(self).spec_seed() == old(self).spec_seed(),
            final(self).spec_collected() == old(self).spec_collected(),
            faithful(old(self).spec_field(), old(self).spec_rules().elements@) ==> faithful(final(self).spec_field(), final(self).spec_rules().elements@),
    {
        self.field.set_sleeping(enabled);
        proof {
            let (a, b) = (old(self).spec_field(), self.field);
            assert forall|i: i32, j: i32| #[trigger] b.heat_at(i, j) == a.heat_at(i, j) by {
                assert(b.cell(i, j) == a.cell(i, j));
            }
            assert(heat::model_of(a).cell =~= heat::model_of(b).cell);
            assert(heat::model_of(a).heat =~= heat::model_of(b).heat);
            assert forall|c: crate::chunk::ChunkCoord| #[trigger] a.near_activity(c) implies b.near_activity(c) by {
                let d = choose|d: crate::chunk::ChunkCoord| #[trigger] a.chunk_dirty(d) && crate::chunk::touching(c, d);
                assert(b.chunk_dirty(d));
            }
        }
    }

    /// Where the player is looking, in cells, plus how many chunks beyond it to keep
    /// awake.
    pub fn set_viewport(&mut self, viewport: Option<Bounds>, margin_chunks: i32)
        requires
            old(self).wf(),
        ensures
            final(self).wf(),
            final(self).spec_field().spec_viewport() == viewport,
            final(self).spec_field().spec_margin() == (if margin_chunks > 0 { margin_chunks } else { 0 }),
            forall|x: i32, y: i32| #[trigger] final(self).spec_field().cell(x, y) == old(self).spec_field().cell(x, y),
            final(self).spec_rules() == old(self).spec_rules(),
            final(self).spec_entities() == old(self).spec_entities(),
            final(self).spec_tick() == old(self).spec_tick(),
            final(self).spec_seed() == old(self).spec_seed(),
            final(self).spec_collected() == old(self).spec_collected(),
            faithful(old(self).spec_field(), old(self).spec_rules().elements@) ==> faithful(final(self).spec_field(), final(self).spec_rules().elements@),
    {
        self.field.set_viewport(viewport, margin_chunks);
        proof {
            let (a, b) = (old(self).spec_field(), self.field);
            assert forall|i: i32, j: i32| #[trigger] b.heat_at(i, j) == a.heat_at(i, j) by {
                assert(b.cell(i, j) == a.cell(i, j));
            }
            assert(heat::model_of(a).cell =~= heat::model_of(b).cell);
            assert(heat::model_of(a).heat =~= heat::model_of(b).heat);
            assert forall|c: crate::chunk::ChunkCoord| #[trigger] a.near_activity(c) implies b.near_activity(c) by {
                let d = choose|d: crate::chunk::ChunkCoord| #[trigger] a.chunk_dirty(d) && crate::chunk::touching(c, d);
                assert(b.chunk_dirty(d));
            }
        }
    }

    /// How many chunks ran during the last tick.
    pub fn awake_chunk_count(&self) -> (r: usize)
        requires
            self.wf(),
        ensures
            r == crate::chunk::count_true(self.spec_field().awake_flags(), self.spec_field().spec_keys().len() as int),
    {
        self.field.awake_chunk_count()
    }

    /// Nuggets ever minted. Income, not balance.
    pub fn collected(&self) -> (r: u64)
        ensures
            r == self.spec_collected(),
    {
        self.collected
    }

    pub fn get(&self, x: i32, y: i32) -> (r: ElementId)
        requires
            self.wf(),
        ensures
            Some(r) == self.spec_field().cell(x, y),
    {
        proof {
            self.field.lemma_everywhere();
        }
        match self.field.get(x, y) {
            Some(id) => id,
            None => EMPTY,
        }
    }

    pub fn count_of(&self, id: ElementId) -> (r: usize)
        requires
            self.wf(),
        ensures
            id != EMPTY ==> r == self.spec_field().census(id),
            id == EMPTY ==> r == 0,
    {
        self.field.count_of(id)
    }

    /// A fingerprint of the whole world. Includes the tick, so it differs every tick
    /// even at rest.
    pub fn hash(&self) -> (r: u64)
        requires
            self.wf(),
        ensures
            r == fnv_bytes(OFFSET_BASIS, le_bytes_u64(self.spec_tick()) + le_bytes_u64(self.spec_seed()) + canonical_records(
                self.spec_field(),
            )),
    {
        canonical_hash(&self.field, self.tick, self.seed)
    }

    /// A fingerprint of the cell contents alone: whether anything actually moved.
    pub fn content_hash(&self) -> (r: u64)
        requires
            self.wf(),
        ensures
            r == fnv_bytes(OFFSET_BASIS, canonical_records(self.spec_field())),
    {
        content_hash(&self.field)
    }
}

/// What a world's future depends on: its cells and temperatures, its machines, and the
/// nuggets minted so far.
pub struct WorldState {
    pub model: heat::HeatModel,
    pub entities: Seq<Entity>,
    pub collected: int,
}

/// One tick of a flat world over `region`, swept along `spans`: machines act, then
/// everything moves and reacts, then heat is conducted. The mint saturates.
pub open spec fn flat_step_spec(
    s: WorldState,
    region: Option<Bounds>,
    spans: spec_fn(i32) -> Seq<(i32, i32)>,
    rules: Rules,
    seed: u64,
    tick: u64,
) -> WorldState {
    let machines = entities::tick_spec(s.model, s.entities, rules.entities@, rules.elements@, seed, tick);
    let moved = step::step_model_spec(machines.model, region, spans, rules.elements@, rules.reactions@, seed, tick);
    WorldState {
        model: heat::heat_step_spec(moved, rules.elements@, region),
        entities: machines.entities,
        collected: if s.collected + machines.minted > u64::MAX { u64::MAX as int } else { s.collected + machines.minted },
    }
}

/// `ticks` ticks of a flat world, the first of them numbered `tick`.
pub open spec fn flat_run(
    s: WorldState,
    region: Option<Bounds>,
    spans: spec_fn(i32) -> Seq<(i32, i32)>,
    rules: Rules,
    seed: u64,
    tick: int,
    ticks: nat,
) -> WorldState
    decreases ticks,
{
    if ticks == 0 {
        s
    } else {
        flat_step_spec(
            flat_run(s, region, spans, rules, seed, tick, (ticks - 1) as nat),
            region,
            spans,
            rules,
            seed,
            (tick + ticks - 1) as u64,
        )
    }
}

/// Whether a region, if any, holds every cell of matter.
pub open spec fn holds_all(m: heat::HeatModel, region: Option<Bounds>) -> bool {
    forall|x: i32, y: i32| #[trigger] heat::holds_matter(m, x, y) ==> region_holds(region, x as int, y as int)
}

/// A region holding every cell of matter, where there is one. Which one does not
/// matter: every pass of a tick gives the same result over any of them.
pub open spec fn matter_region(m: heat::HeatModel) -> Option<Bounds> {
    choose|r: Option<Bounds>| holds_all(m, r)
}

/// One tick of a world that sweeps all of its matter: machines act, then everything
/// moves and reacts, then heat is conducted, each pass over the matter wherever it is.
/// The mint saturates.
pub open spec fn world_step_spec(s: WorldState, rules: Rules, seed: u64, tick: u64) -> WorldState {
    let machines = entities::tick_spec(s.model, s.entities, rules.entities@, rules.elements@, seed, tick);
    let region = matter_region(machines.model);
    let moved = step::step_model_spec(machines.model, region, step::full_rows(region), rules.elements@, rules.reactions@, seed, tick);
    WorldState {
        model: heat::heat_step_spec(moved, rules.elements@, matter_region(moved)),
        entities: machines.entities,
        collected: if s.collected + machines.minted > u64::MAX { u64::MAX as int } else { s.collected + machines.minted },
    }
}

/// `ticks` ticks of a world that sweeps all of its matter, the first numbered `tick`.
pub open spec fn world_run(s: WorldState, rules: Rules, seed: u64, tick: int, ticks: nat) -> WorldState
    decreases ticks,
{
    if ticks == 0 {
        s
    } else {
        world_step_spec(world_run(s, rules, seed, tick, (ticks - 1) as nat), rules, seed, (tick + ticks - 1) as u64)
    }
}

/// A field's region holds all of its matter.
proof fn lemma_region_holds_all<F: CellField>(f: F)
    requires
        f.field_inv(),
    ensures
        holds_all(heat::model_of(f), f.region()),
        holds_all(heat::model_of(f), matter_region(heat::model_of(f))),
{
    assert forall|x: i32, y: i32| #[trigger] heat::holds_matter(heat::model_of(f), x, y) implies region_holds(f.region(), x as int, y as int) by {
        f.lemma_field(x, y);
    }
    assert(holds_all(heat::model_of(f), f.region()));
    assert(exists|r: Option<Bounds>| holds_all(heat::model_of(f), r));
}

/// The reference implementation: a fixed rectangle with impassable edges.
#[derive(Clone, Debug)]
pub struct FlatWorld {
    field: Grid,
    rules: Rules,
    entities: Vec<Entity>,
    seed: u64,
    tick: u64,
    collected: u64,
}

impl FlatWorld {
    pub closed spec fn spec_field(&self) -> Grid {
        self.field
    }

    pub closed spec fn spec_rules(&self) -> Rules {
        self.rules
    }

    pub closed spec fn spec_entities(&self) -> Seq<Entity> {
        self.entities@
    }

    pub closed spec fn spec_tick(&self) -> u64 {
        self.tick
    }

    pub closed spec fn spec_seed(&self) -> u64 {
        self.seed
    }

    pub closed spec fn spec_collected(&self) -> u64 {
        self.collected
    }

    pub open spec fn wf(&self) -> bool {
        self.spec_field().wf()
    }

    /// The part of the world that the next tick reads and writes.
    pub open spec fn state(&self) -> WorldState {
        WorldState { model: heat::model_of(self.spec_field()), entities: self.spec_entities(), collected: self.spec_collected() as int }
    }

    pub fn new(width: u32, height: u32, seed: u64, rules: Rules) -> (r: FlatWorld)
        requires
            width * height <= usize::MAX,
        ensures
            r.wf(),
            r.spec_field().spec_width() == width,
            r.spec_field().spec_height() == height,
            forall|i: int| 0 <= i < r.spec_field().area() ==> #[trigger] r.spec_field().spec_cells()[i] == EMPTY,
            r.spec_seed() == seed,
            r.spec_tick() == 0,
            r.spec_collected() == 0,
            r.spec_entities().len() == 0,
            r.spec_rules() == rules,
    {
        FlatWorld { field: Grid::new(width, height), rules, entities: Vec::new(), seed, tick: 0, collected: 0 }
    }

    pub fn place(&mut self, entity: Entity)
        requires
            old(self).wf(),
        ensures
            final(self).wf(),
            final(self).spec_entities() == old(self).spec_entities().push(
                settled(entity, if (entity.kind as int) < old(self).spec_rules().entities@.len() {
                    old(self).spec_rules().entities@[entity.kind as int]
                } else {
                    None
                }),
            ),
            final(self).spec_tick() == old(self).spec_tick(),
            final(self).spec_seed() == old(self).spec_seed(),
            final(self).spec_rules() == old(self).spec_rules(),
            final(self).spec_collected() == old(self).spec_collected(),
            forall|x: i32, y: i32| #[trigger] final(self).spec_field().cell(x, y) == placed_cell(
                old(self).spec_field().cell(x, y),
                entity,
                if (entity.kind as int) < old(self).spec_rules().entities@.len() {
                    old(self).spec_rules().entities@[entity.kind as int]
                } else {
                    None
                },
                x,
                y,
            ),
    {
        let mut entity = entity;
        match self.rules.entities.get(entity.kind) {
            Some(definition) => {
                entity.defaults_from(definition);
                fill_structure(&mut self.field, &entity, definition);
            },
            None => {},
        }
        self.entities.push(entity);
    }

    pub fn step(&mut self)
        requires
            old(self).wf(),
            old(self).spec_tick() < u64::MAX,
        ensures
            final(self).wf(),
            final(self).spec_tick() == old(self).spec_tick() + 1,
            final(self).spec_seed() == old(self).spec_seed(),
            final(self).spec_rules() == old(self).spec_rules(),
            final(self).spec_entities().len() == old(self).spec_entities().len(),
            final(self).spec_collected() >= old(self).spec_collected(),
            ({
                let machines = entities::tick_spec(
                    heat::model_of(old(self).spec_field()),
                    old(self).spec_entities(),
                    old(self).spec_rules().entities@,
                    old(self).spec_rules().elements@,
                    old(self).spec_seed(),
                    old(self).spec_tick(),
                );
                let moved = step::step_model_spec(
                    machines.model,
                    old(self).spec_field().region(),
                    |r: i32| old(self).spec_field().spans(r),
                    old(self).spec_rules().elements@,
                    old(self).spec_rules().reactions@,
                    old(self).spec_seed(),
                    old(self).spec_tick(),
                );
                &&& final(self).spec_entities() == machines.entities
                &&& final(self).spec_collected() == (if old(self).spec_collected() + machines.minted > u64::MAX {
                    u64::MAX as int
                } else {
                    old(self).spec_collected() + machines.minted
                })
                &&& heat::agrees(
                    final(self).spec_field(),
                    heat::heat_step_spec(moved, old(self).spec_rules().elements@, old(self).spec_field().region()),
                )
            }),
            final(self).state() == flat_step_spec(
                old(self).state(),
                old(self).spec_field().region(),
                |r: i32| old(self).spec_field().spans(r),
                old(self).spec_rules(),
                old(self).spec_seed(),
                old(self).spec_tick(),
            ),
            final(self).spec_field().region() == old(self).spec_field().region(),
            forall|r: i32| #[trigger] final(self).spec_field().spans(r) == old(self).spec_field().spans(r),
            still_flat(*old(self)) ==> still_flat(*final(self)),
            still_flat(*old(self)) ==> forall|k: ElementId| #[trigger] final(self).spec_field().census(k) == old(self).spec_field().census(k),
            still_flat(*old(self)) ==> final(self).spec_field().spec_width() == old(self).spec_field().spec_width()
                && final(self).spec_field().spec_height() == old(self).spec_field().spec_height(),
    {
        let ghost f0 = self.field;
        let minted = entities::tick(
            &mut self.field,
            &mut self.entities,
            &self.rules.entities,
            &self.rules.elements,
            self.seed,
            self.tick,
        );
        self.collected = if self.collected > u64::MAX - minted {
            u64::MAX
        } else {
            self.collected + minted
        };
        let ghost machines = entities::tick_spec(
            heat::model_of(old(self).spec_field()),
            old(self).spec_entities(),
            old(self).spec_rules().entities@,
            old(self).spec_rules().elements@,
            old(self).spec_seed(),
            old(self).spec_tick(),
        );
        let ghost after_machines = self.field;
        step::step_from(&mut self.field, &self.rules.elements, &self.rules.reactions, self.seed, self.tick, Ghost(machines.model));
        let ghost moved = step::step_model_spec(
            machines.model,
            after_machines.region(),
            |r: i32| after_machines.spans(r),
            self.rules.elements@,
            self.rules.reactions@,
            self.seed,
            self.tick,
        );
        proof {
            assert((|r: i32| after_machines.spans(r)) =~= (|r: i32| old(self).spec_field().spans(r)));
        }
        let ghost f2 = self.field;
        heat::step_from(&mut self.field, &self.rules.elements, Ghost(moved));
        self.tick = self.tick + 1;
        proof {
            if still_flat(*old(self)) {
                let els = old(self).spec_rules().elements@;
                entities::lemma_tick_without_machines(heat::model_of(f0), old(self).spec_rules().entities@, els, old(self).spec_seed(), old(self).spec_tick());
                assert(old(self).spec_entities() =~= Seq::<Entity>::empty());
                assert forall|x: i32, y: i32| #[trigger] after_machines.cell(x, y) == f0.cell(x, y) && after_machines.heat_at(x, y) == f0.heat_at(
                    x,
                    y,
                ) by {}
                lemma_flat_still_step(f0, after_machines, f2, self.field, moved, els);
            }
        }
        proof {
            let next = flat_step_spec(
                old(self).state(),
                old(self).spec_field().region(),
                |r: i32| old(self).spec_field().spans(r),
                old(self).spec_rules(),
                old(self).spec_seed(),
                old(self).spec_tick(),
            );
            assert(heat::model_of(self.field).cell =~= next.model.cell);
            assert(heat::model_of(self.field).heat =~= next.model.heat);
        }
    }

    pub fn step_many(&mut self, ticks: u64)
        requires
            old(self).wf(),
            old(self).spec_tick() + ticks <= u64::MAX,
        ensures
            final(self).wf(),
            final(self).spec_tick() == old(self).spec_tick() + ticks,
            final(self).spec_seed() == old(self).spec_seed(),
            final(self).spec_rules() == old(self).spec_rules(),
            final(self).state() == flat_run(
                old(self).state(),
                old(self).spec_field().region(),
                |r: i32| old(self).spec_field().spans(r),
                old(self).spec_rules(),
                old(self).spec_seed(),
                old(self).spec_tick() as int,
                ticks as nat,
            ),
            still_flat(*old(self)) ==> still_flat(*final(self)),
            still_flat(*old(self)) ==> forall|k: ElementId| #[trigger] final(self).spec_field().census(k) == old(self).spec_field().census(k),
            still_flat(*old(self)) ==> final(self).spec_field().spec_width() == old(self).spec_field().spec_width()
                && final(self).spec_field().spec_height() == old(self).spec_field().spec_height(),
    {
        let mut done: u64 = 0;
        while done < ticks
            invariant
                done <= ticks,
                self.wf(),
                self.spec_tick() == old(self).spec_tick() + done,
                old(self).spec_tick() + ticks <= u64::MAX,
                self.spec_seed() == old(self).spec_seed(),
                self.spec_rules() == old(self).spec_rules(),
                self.spec_field().region() == old(self).spec_field().region(),
                forall|r: i32| #[trigger] self.spec_field().spans(r) == old(self).spec_field().spans(r),
                self.state() == flat_run(
                    old(self).state(),
                    old(self).spec_field().region(),
                    |r: i32| old(self).spec_field().spans(r),
                    old(self).spec_rules(),
                    old(self).spec_seed(),
                    old(self).spec_tick() as int,
                    done as nat,
                ),
                still_flat(*old(self)) ==> still_flat(*self) && forall|k: ElementId| #[trigger] self.spec_field().census(k) == old(
                    self,
                ).spec_field().census(k) && self.spec_field().spec_width() == old(self).spec_field().spec_width()
                    && self.spec_field().spec_height() == old(self).spec_field().spec_height(),
            decreases ticks - done,
        {
            let ghost before = *self;
            self.step();
            proof {
                assert((|r: i32| before.spec_field().spans(r)) =~= (|r: i32| old(self).spec_field().spans(r)));
            }
            done = done + 1;
        }
    }

    pub fn tick(&self) -> (r: u64)
        ensures
            r == self.spec_tick(),
    {
        self.tick
    }

    pub fn width(&self) -> (r: u32)
        ensures
            r == self.spec_field().spec_width(),
    {
        self.field.width()
    }

    pub fn height(&self) -> (r: u32)
        ensures
            r == self.spec_field().spec_height(),
    {
        self.field.height()
    }

    pub fn field(&self) -> (r: &Grid)
        ensures
            *r == self.spec_field(),
    {
        &self.field
    }

    pub fn field_mut(&mut self) -> (r: &mut Grid)
        ensures
            *r == old(self).spec_field(),
            final(self).spec_field() == *final(r),
            final(self).spec_rules() == old(self).spec_rules(),
            final(self).spec_entities() == old(self).spec_entities(),
            final(self).spec_tick() == old(self).spec_tick(),
            final(self).spec_seed() == old(self).spec_seed(),
            final(self).spec_collected() == old(self).spec_collected(),
    {
        &mut self.field
    }

    /// Nuggets ever minted. Income, not balance.
    pub fn collected(&self) -> (r: u64)
        ensures
            r == self.spec_collected(),
    {
        self.collected
    }

    /// The cell's contents, with the outside of the rectangle reading as empty.
    pub fn get(&self, x: i32, y: i32) -> (r: ElementId)
        requires
            self.wf(),
        ensures
            r == (match self.spec_field().cell(x, y) {
                Some(id) => id,
                None => EMPTY,
            }),
    {
        match self.field.get(x, y) {
            Some(id) => id,
            None => EMPTY,
        }
    }

    /// The raw cell bytes: the view a renderer uploads as a texture.
    pub fn cells(&self) -> (r: &[ElementId])
        ensures
            r@ == self.spec_field().spec_cells(),
    {
        self.field.cells()
    }

    pub fn count_of(&self, id: ElementId) -> (r: usize)
        ensures
            r == self.spec_field().spec_cells().to_multiset().count(id),
    {
        self.field.count_of(id)
    }

    /// Comparable with `World::hash`: the same canonical form, so the two can be
    /// compared directly despite storing their cells completely differently.
    pub fn hash(&self) -> (r: u64)
        requires
            self.wf(),
        ensures
            r == fnv_bytes(OFFSET_BASIS, le_bytes_u64(self.spec_tick()) + le_bytes_u64(self.spec_seed()) + canonical_records(
                self.spec_field(),
            )),
    {
        canonical_hash(&self.field, self.tick, self.seed)
    }

    /// Cell contents alone, ignoring the tick.
    pub fn content_hash(&self) -> (r: u64)
        requires
            self.wf(),
        ensures
            r == fnv_bytes(OFFSET_BASIS, canonical_records(self.spec_field())),
    {
        content_hash(&self.field)
    }

    /// The storage-order fingerprint: dimensions, tick, seed, then every cell byte,
    /// empties included.
    pub fn structural_hash(&self) -> (r: u64)
        ensures
            r == fnv_bytes(
                OFFSET_BASIS,
                le_bytes_u32(self.spec_field().spec_width()) + le_bytes_u32(self.spec_field().spec_height()) + le_bytes_u64(
                    self.spec_tick(),
                ) + le_bytes_u64(self.spec_seed()) + self.spec_field().spec_cells(),
            ),
    {
        let mut hasher = Hasher::new();
        hasher.write_u32(self.field.width());
        hasher.write_u32(self.field.height());
        hasher.write_u64(self.tick);
        hasher.write_u64(self.seed);
        hasher.write_bytes(self.field.cells());
        proof {
            let a = le_bytes_u32(self.field.spec_width());
            let b = le_bytes_u32(self.field.spec_height());
            let c = le_bytes_u64(self.tick);
            let d = le_bytes_u64(self.seed);
            lemma_fnv_append(OFFSET_BASIS, a, b);
            lemma_fnv_append(OFFSET_BASIS, a + b, c);
            lemma_fnv_append(OFFSET_BASIS, a + b + c, d);
            lemma_fnv_append(OFFSET_BASIS, a + b + c + d, self.field.spec_cells());
        }
        hasher.finish()
    }
}

/// A chunked world and a flat world that hold the same matter have the same content
/// hash, and, at the same tick and with the same seed, the same fingerprint: both hash
/// the canonical records, and those do not see how cells are stored.
pub proof fn lemma_worlds_hash_alike(chunked: World, flat: FlatWorld)
    requires
        chunked.wf(),
        flat.wf(),
        same_occupants(chunked.spec_field(), flat.spec_field()),
    ensures
        fnv_bytes(OFFSET_BASIS, canonical_records(chunked.spec_field())) == fnv_bytes(
            OFFSET_BASIS,
            canonical_records(flat.spec_field()),
        ),
        chunked.spec_tick() == flat.spec_tick() && chunked.spec_seed() == flat.spec_seed() ==> fnv_bytes(
            OFFSET_BASIS,
            le_bytes_u64(chunked.spec_tick()) + le_bytes_u64(chunked.spec_seed()) + canonical_records(chunked.spec_field()),
        ) == fnv_bytes(
            OFFSET_BASIS,
            le_bytes_u64(flat.spec_tick()) + le_bytes_u64(flat.spec_seed()) + canonical_records(flat.spec_field()),
        ),
{
    lemma_storage_independent(chunked.spec_field(), flat.spec_field());
}

} // verus!

